use algokit::gameoflife::{Cell, LifeBoard};

fn board_with(size: usize, alive: &[(usize, usize)]) -> LifeBoard {
    let mut board = LifeBoard::new(size);
    for (row, col) in alive {
        board.seed_cell(row * size + col, 0);
    }
    board
}

fn living(board: &LifeBoard) -> Vec<(usize, usize)> {
    let mut out = Vec::new();
    let mut cells = board.iter();
    while let Some(cell) = cells.next() {
        if *cell.state {
            out.push((cell.row, cell.col));
        }
    }
    out
}

fn text(line: &[char]) -> String {
    line.iter().collect()
}

/// The rule on a board that closes on itself, computed the plain way.
fn expected_next(size: usize, alive: &[(usize, usize)]) -> Vec<(usize, usize)> {
    let mut out = Vec::new();
    for row in 0..size {
        for col in 0..size {
            let mut around = 0;
            for dr in [size - 1, 0, 1] {
                for dc in [size - 1, 0, 1] {
                    if (dr, dc) != (0, 0) && alive.contains(&((row + dr) % size, (col + dc) % size)) {
                        around += 1;
                    }
                }
            }
            let is_alive = alive.contains(&(row, col));
            if (is_alive && (around == 2 || around == 3)) || (!is_alive && around == 3) {
                out.push((row, col));
            }
        }
    }
    out
}

#[test]
fn new_board_is_dead() {
    let board = LifeBoard::new(4);
    assert_eq!(board.board_size(), 4);
    assert!(living(&board).is_empty());
    let mut cells = board.iter();
    let mut count = 0;
    while let Some(_) = cells.next() {
        count += 1;
    }
    assert_eq!(count, 16);
}

#[test]
fn cells_come_row_by_row() {
    let board = board_with(3, &[(1, 2)]);
    let mut cells = board.iter();
    let mut seen = Vec::new();
    while let Some(cell) = cells.next() {
        seen.push((cell.row, cell.col, *cell.state));
    }
    assert_eq!(
        seen,
        vec![
            (0, 0, false),
            (0, 1, false),
            (0, 2, false),
            (1, 0, false),
            (1, 1, false),
            (1, 2, true),
            (2, 0, false),
            (2, 1, false),
            (2, 2, false),
        ]
    );
    assert!(cells.next().is_none());
}

#[test]
fn index_gives_a_row() {
    let board = board_with(3, &[(1, 2), (2, 0)]);
    assert_eq!(board.index(0), &[false, false, false]);
    assert_eq!(board.index(1), &[false, false, true]);
    assert_eq!(board.index(2), &[true, false, false]);
}

#[test]
fn index_mut_changes_one_row() {
    let mut board = board_with(3, &[(0, 0), (2, 2)]);
    {
        let row = board.index_mut(1);
        assert_eq!(row.len(), 3);
        row[2] = true;
        row[0] = true;
    }
    board.index_mut(0)[0] = false;
    assert_eq!(living(&board), vec![(1, 0), (1, 2), (2, 2)]);
    assert_eq!(board.board_size(), 3);
}

#[test]
fn seed_cell_takes_zero_for_alive() {
    let mut board = LifeBoard::new(2);
    board.seed_cell(1, 0);
    board.seed_cell(2, 1);
    assert_eq!(living(&board), vec![(0, 1)]);
    board.seed_cell(1, 1);
    board.seed_cell(3, 0);
    assert_eq!(living(&board), vec![(1, 1)]);
}

#[test]
fn neighbours_on_a_board_of_eight() {
    let board = board_with(8, &[(0, 0), (7, 7), (3, 4)]);
    let alive = true;
    let corner = Cell { row: 0, col: 0, state: &alive };
    assert_eq!(board.is_neighbour_alive(&corner, -1, -1), 1);
    assert_eq!(board.is_neighbour_alive(&corner, -1, 0), 0);
    assert_eq!(board.is_neighbour_alive(&corner, 0, 0), 1);
    let far = Cell { row: 7, col: 7, state: &alive };
    assert_eq!(board.is_neighbour_alive(&far, 1, 1), 1);
    assert_eq!(board.is_neighbour_alive(&far, 1, 0), 0);
    let middle = Cell { row: 3, col: 3, state: &alive };
    assert_eq!(board.is_neighbour_alive(&middle, 0, 1), 1);
    assert_eq!(board.is_neighbour_alive(&middle, 0, -1), 0);
}

#[test]
fn neighbour_below_zero_wraps_in_machine_arithmetic() {
    // One less than 0 is the greatest usize, which is a multiple of 3: on a
    // board of 3 the row "above" row 0 is row 0 itself.
    let alive = true;
    let top = Cell { row: 0, col: 1, state: &alive };
    let own_row = board_with(3, &[(0, 1)]);
    assert_eq!(own_row.is_neighbour_alive(&top, -1, 0), 1);
    let last_row = board_with(3, &[(2, 1)]);
    assert_eq!(last_row.is_neighbour_alive(&top, -1, 0), 0);
    assert_eq!(usize::MAX % 3, 0);
}

#[test]
fn blinker_turns() {
    let first = board_with(8, &[(3, 2), (3, 3), (3, 4)]);
    let mut second = LifeBoard::new(8);
    first.step(&mut second);
    assert_eq!(living(&second), vec![(2, 3), (3, 3), (4, 3)]);
    let mut third = board_with(8, &[(0, 0), (7, 7)]);
    second.step(&mut third);
    assert_eq!(living(&third), vec![(3, 2), (3, 3), (3, 4)]);
    assert_eq!(living(&first), vec![(3, 2), (3, 3), (3, 4)]);
}

#[test]
fn block_stays() {
    let first = board_with(4, &[(1, 1), (1, 2), (2, 1), (2, 2)]);
    let mut second = LifeBoard::new(4);
    first.step(&mut second);
    assert_eq!(living(&second), vec![(1, 1), (1, 2), (2, 1), (2, 2)]);
}

#[test]
fn blinker_across_the_edge() {
    let first = board_with(4, &[(0, 3), (0, 0), (0, 1)]);
    let mut second = LifeBoard::new(4);
    first.step(&mut second);
    assert_eq!(living(&second), vec![(0, 0), (1, 0), (3, 0)]);
}

#[test]
fn lonely_and_crowded_cells_die() {
    let lonely = board_with(8, &[(2, 2), (2, 3)]);
    let mut next = LifeBoard::new(8);
    lonely.step(&mut next);
    assert!(living(&next).is_empty());
    let crowded = board_with(8, &[(2, 2), (1, 1), (1, 2), (1, 3), (2, 1)]);
    crowded.step(&mut next);
    assert!(!living(&next).contains(&(2, 2)));
    assert!(!living(&next).contains(&(1, 2)));
}

#[test]
fn glider_follows_the_rule_for_many_generations() {
    let mut alive = vec![(0, 1), (1, 2), (2, 0), (2, 1), (2, 2)];
    let mut a = board_with(8, &alive);
    let mut b = LifeBoard::new(8);
    for _ in 0..40 {
        a.step(&mut b);
        alive = expected_next(8, &alive);
        assert_eq!(living(&b), alive);
        assert_eq!(alive.len(), 5);
        b.step(&mut a);
        alive = expected_next(8, &alive);
        assert_eq!(living(&a), alive);
    }
}

#[test]
fn step_on_boards_of_different_size_goes_by_the_order_of_the_cells() {
    let small = board_with(2, &[(0, 0), (0, 1), (1, 0)]);
    let mut large = board_with(3, &[(1, 2), (2, 2)]);
    small.step(&mut large);
    // On a board of 2 every cell sees each other cell twice.
    assert_eq!(large.board_size(), 3);
    let after = living(&large);
    assert!(after.contains(&(1, 2)) && after.contains(&(2, 2)));
    assert!(!after.contains(&(0, 0)) && !after.contains(&(0, 1)) && !after.contains(&(0, 2)));
    assert!(!after.contains(&(1, 0)));
    let mut tiny = LifeBoard::new(1);
    let blinker = board_with(8, &[(3, 2), (3, 3), (3, 4)]);
    blinker.step(&mut tiny);
    assert!(living(&tiny).is_empty());
}

#[test]
fn empty_board_steps_and_renders() {
    let a = LifeBoard::new(0);
    let mut b = LifeBoard::new(0);
    a.step(&mut b);
    assert_eq!(b.board_size(), 0);
    let lines = a.render();
    assert_eq!(lines.len(), 2);
    assert_eq!(text(&lines[0]), "+--+");
    assert_eq!(text(&lines[1]), "+--+");
}

#[test]
fn render_draws_bars_and_hashes() {
    let board = board_with(2, &[(0, 0), (1, 1)]);
    let lines = board.render();
    let lines: Vec<String> = lines.iter().map(|l| text(l)).collect();
    assert_eq!(lines, vec!["+------+", "| #    |", "|   #  |", "+------+"]);
    assert_eq!(text(&board.render_border()), "+------+");
    assert_eq!(text(&board.render_row(1)), "|   #  |");
}

#[test]
fn randomize_keeps_the_size_and_tosses_both_ways() {
    let mut rng = rand::thread_rng();
    let mut board = LifeBoard::new(32);
    board.randomize(&mut rng);
    assert_eq!(board.board_size(), 32);
    let alive = living(&board).len();
    assert!(alive > 0);
    assert!(alive < 32 * 32);
    let mut count = 0;
    let mut cells = board.iter();
    while let Some(_) = cells.next() {
        count += 1;
    }
    assert_eq!(count, 32 * 32);
}
