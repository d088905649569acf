//! The board of Conway's game of life: a square of cells that closes on
//! itself at the edges.

use vstd::prelude::*;
use rand::distributions::{IndependentSample, Range};
use rand::ThreadRng;

verus! {

/// `rand::ThreadRng`, the random number generator of the current thread.
/// Nothing is known of what it holds.
#[verifier::external_type_specification]
#[verifier::external_body]
pub struct ExThreadRng(ThreadRng);

/// Draws a number with `rand::distributions::Range::new(low, high)` and
/// its `ind_sample(rng)`. `Range::new` refuses `low >= high`; for the
/// integer types the sample lies in `[low, high)`. Which number comes is
/// up to the generator: nothing more is claimed of it.
#[verifier::external_body]
fn sample_between(rng: &mut ThreadRng, low: i32, high: i32) -> (r: i32)
    requires
        low < high,
    ensures
        low <= r < high,
{
    Range::new(low, high).ind_sample(rng)
}

/// A square board of cells, each alive or dead, kept row by row.
#[derive(Debug)]
pub struct LifeBoard {
    board_size: usize,
    cells: Vec<bool>,
}

/// One cell of a board, to read: where it stands and whether it is alive.
pub struct Cell<'a> {
    pub row: usize,
    pub col: usize,
    pub state: &'a bool,
}

/// Walks the cells of a board row by row.
pub struct CellIterator<'a> {
    board: &'a LifeBoard,
    index: usize,
}

/// Position `pos` moved by `delta` in the arithmetic of `usize`, which
/// wraps round at both ends.
pub open spec fn shifted(pos: int, delta: int) -> int {
    if pos + delta < 0 {
        pos + delta + usize::MAX + 1
    } else if pos + delta > usize::MAX {
        pos + delta - usize::MAX - 1
    } else {
        pos + delta
    }
}

/// The row or column that lies `delta` from `pos` on a board of `size`
/// rows and columns.
pub open spec fn wrapped(pos: int, delta: int, size: int) -> int {
    shifted(pos, delta) % size
}

/// 1 for a living cell, 0 for a dead one.
pub open spec fn count_of(alive: bool) -> int {
    if alive {
        1
    } else {
        0
    }
}

/// The first line and the last line of the picture of a board: a corner,
/// two dashes for each column and two more, and a corner.
pub open spec fn border_text(size: int) -> Seq<char> {
    seq!['+'] + Seq::new((2 * size + 2) as nat, |i: int| '-') + seq!['+']
}

/// The two characters that stand for each cell of a row: `#` and a space
/// for a living one, two spaces for a dead one.
pub open spec fn cells_text(row: Seq<bool>) -> Seq<char> {
    Seq::new(
        2 * row.len(),
        |i: int|
            if i % 2 == 0 && row[i / 2] {
                '#'
            } else {
                ' '
            },
    )
}

/// The line of the picture for one row: its cells between two bars.
pub open spec fn row_text(row: Seq<bool>) -> Seq<char> {
    seq!['|', ' '] + cells_text(row) + seq![' ', '|']
}

/// A position within a row of a square lies within the square.
pub proof fn lemma_cell_in_square(row: int, col: int, size: int)
    requires
        0 <= row < size,
        0 <= col < size,
    ensures
        0 <= row * size,
        row * size + col < size * size,
        row * size + size <= size * size,
        (row * size + col) / size == row,
        (row * size + col) % size == col,
{
    assert(0 <= row * size && row * size + size <= size * size) by (nonlinear_arith)
        requires
            0 <= row < size,
    ;
    vstd::arithmetic::div_mod::lemma_fundamental_div_mod_converse(row * size + col, size, row, col);
}

impl LifeBoard {
    /// The number of rows, which is the number of columns.
    pub closed spec fn size(&self) -> usize {
        self.board_size
    }

    /// The cells, row by row.
    pub closed spec fn cells(&self) -> Seq<bool> {
        self.cells@
    }

    /// The board has a cell for each row and column.
    pub open spec fn wf(&self) -> bool {
        self.cells().len() == self.size() * self.size()
    }

    /// Whether the cell in `row` and `col` is alive.
    pub open spec fn at(&self, row: int, col: int) -> bool {
        self.cells()[row * self.size() + col]
    }

    /// The cells of row `row`.
    pub open spec fn row(&self, row: int) -> Seq<bool> {
        self.cells().subrange(row * self.size(), row * self.size() + self.size())
    }

    /// Whether the cell that lies `delta_row` and `delta_col` from `row`
    /// and `col` is alive.
    pub open spec fn neighbour(&self, row: int, col: int, delta_row: int, delta_col: int) -> bool {
        self.at(wrapped(row, delta_row, self.size() as int), wrapped(col, delta_col, self.size() as int))
    }

    /// The number of living cells among the eight around `row` and `col`.
    pub open spec fn live_neighbours(&self, row: int, col: int) -> int {
        count_of(self.neighbour(row, col, -1, -1)) + count_of(self.neighbour(row, col, -1, 0))
            + count_of(self.neighbour(row, col, -1, 1)) + count_of(self.neighbour(row, col, 0, -1))
            + count_of(self.neighbour(row, col, 0, 1)) + count_of(self.neighbour(row, col, 1, -1))
            + count_of(self.neighbour(row, col, 1, 0)) + count_of(self.neighbour(row, col, 1, 1))
    }

    /// Whether the cell at `index` is alive in the next generation: a
    /// living cell with two or three living neighbours stays, and a dead
    /// cell with three comes to life.
    pub open spec fn lives_on(&self, index: int) -> bool {
        let row = index / (self.size() as int);
        let col = index % (self.size() as int);
        let around = self.live_neighbours(row, col);
        if self.cells()[index] {
            around == 2 || around == 3
        } else {
            around == 3
        }
    }

    /// A board of `board_size` rows and columns with every cell dead.
    pub fn new(board_size: usize) -> (res: LifeBoard)
        requires
            board_size * board_size <= usize::MAX,
        ensures
            res.wf(),
            res.size() == board_size,
            forall|i: int| 0 <= i < res.cells().len() ==> !res.cells()[i],
    {
        let mut cells: Vec<bool> = Vec::new();
        cells.resize(board_size * board_size, false);
        LifeBoard { board_size, cells }
    }

    /// The number of rows, which is the number of columns.
    pub fn board_size(&self) -> (res: usize)
        ensures
            res == self.size(),
    {
        self.board_size
    }

    /// An iterator over the cells, row by row, that starts at the first.
    pub fn iter(&self) -> (res: CellIterator<'_>)
        ensures
            res.board() == *self,
            res.position() == 0,
    {
        CellIterator { board: self, index: 0 }
    }

    /// The cells of row `row`.
    pub fn index(&self, row: usize) -> (res: &[bool])
        requires
            self.wf(),
            row < self.size(),
        ensures
            res@ == self.row(row as int),
    {
        let total = self.cells.len();
        proof {
            lemma_cell_in_square(row as int, 0, self.board_size as int);
            assert(row * self.board_size + self.board_size <= total);
        }
        let row_index = row * self.board_size;
        vstd::slice::slice_subrange(self.cells.as_slice(), row_index, row_index + self.board_size)
    }

    /// The cells of row `row`, to change.
    pub fn index_mut(&mut self, row: usize) -> (res: &mut [bool])
        requires
            old(self).wf(),
            row < old(self).size(),
        ensures
            res@ == old(self).row(row as int),
            final(self).size() == old(self).size(),
            final(self).cells() == old(self).cells().subrange(0, row * old(self).size()) + final(res)@
                + old(self).cells().subrange(
                row * old(self).size() + old(self).size(),
                old(self).cells().len() as int,
            ),
    {
        let total = self.cells.len();
        proof {
            lemma_cell_in_square(row as int, 0, self.board_size as int);
            assert(row * self.board_size + self.board_size <= total);
        }
        let row_index = row * self.board_size;
        let (_, tail) = self.cells.as_mut_slice().split_at_mut(row_index);
        let (cells, _) = tail.split_at_mut(self.board_size);
        cells
    }

    /// 1 where the cell that lies `delta_row` and `delta_col` from `cell`
    /// is alive, else 0.
    pub fn is_neighbour_alive(&self, cell: &Cell, delta_row: isize, delta_col: isize) -> (res: u8)
        requires
            self.wf(),
            self.size() > 0,
        ensures
            res == count_of(self.neighbour(cell.row as int, cell.col as int, delta_row as int, delta_col as int)),
    {
        let row = cell.row.wrapping_add_signed(delta_row) % self.board_size;
        let col = cell.col.wrapping_add_signed(delta_col) % self.board_size;
        proof {
            lemma_cell_in_square(row as int, col as int, self.board_size as int);
        }
        if self.index(row)[col] {
            1
        } else {
            0
        }
    }

    /// Computes the next generation of this board into `next`, cell by
    /// cell in the order of the rows, as far as both boards have cells.
    pub fn step(&self, next: &mut LifeBoard)
        requires
            self.wf(),
        ensures
            final(next).size() == old(next).size(),
            final(next).cells().len() == old(next).cells().len(),
            forall|i: int|
                0 <= i < old(next).cells().len() ==> #[trigger] final(next).cells()[i] == if i
                    < self.cells().len() {
                    self.lives_on(i)
                } else {
                    old(next).cells()[i]
                },
    {
        let mut source_cells = self.iter();
        let mut i: usize = 0;
        while i < next.cells.len()
            invariant
                self.wf(),
                source_cells.board() == *self,
                source_cells.position() <= self.cells@.len(),
                source_cells.position() == i || (source_cells.position() == self.cells@.len() && i
                    >= self.cells@.len()),
                next.board_size == old(next).board_size,
                next.cells@.len() == old(next).cells@.len(),
                forall|j: int|
                    0 <= j < i ==> #[trigger] next.cells@[j] == if j < self.cells@.len() {
                        self.lives_on(j)
                    } else {
                        old(next).cells@[j]
                    },
                forall|j: int| i <= j < next.cells@.len() ==> next.cells@[j] == old(next).cells@[j],
            decreases next.cells@.len() - i,
        {
            match source_cells.next() {
                Some(source) => {
                    proof {
                        assert(self.board_size > 0) by (nonlinear_arith)
                            requires
                                i < self.board_size * self.board_size,
                        ;
                    }
                    let mut count: u8 = 0;
                    count += self.is_neighbour_alive(&source, -1, -1);
                    count += self.is_neighbour_alive(&source, -1, 0);
                    count += self.is_neighbour_alive(&source, -1, 1);
                    count += self.is_neighbour_alive(&source, 0, -1);
                    count += self.is_neighbour_alive(&source, 0, 1);
                    count += self.is_neighbour_alive(&source, 1, -1);
                    count += self.is_neighbour_alive(&source, 1, 0);
                    count += self.is_neighbour_alive(&source, 1, 1);
                    let own: u8 = if *source.state {
                        1
                    } else {
                        0
                    };
                    proof {
                        assert(count <= 8 && own <= 1 ==> ((count | own) == 3 <==> if own == 1 {
                            count == 2 || count == 3
                        } else {
                            count == 3
                        })) by (bit_vector);
                    }
                    count |= own;
                    next.cells[i] = count == 3;
                },
                None => {},
            }
            i += 1;
        }
    }

    /// The first and the last line of the picture of the board.
    pub fn render_border(&self) -> (res: Vec<char>)
        ensures
            res@ == border_text(self.size() as int),
    {
        let mut line: Vec<char> = Vec::new();
        line.push('+');
        let mut c: usize = 0;
        while c < self.board_size
            invariant
                c <= self.board_size,
                line@.len() == 1 + 2 * c,
                line@[0] == '+',
                forall|i: int| 1 <= i < line@.len() ==> line@[i] == '-',
            decreases self.board_size - c,
        {
            line.push('-');
            line.push('-');
            c += 1;
        }
        line.push('-');
        line.push('-');
        line.push('+');
        proof {
            assert(line@ =~= border_text(self.board_size as int));
        }
        line
    }

    /// The line of the picture for row `row`.
    pub fn render_row(&self, row: usize) -> (res: Vec<char>)
        requires
            self.wf(),
            row < self.size(),
        ensures
            res@ == row_text(self.row(row as int)),
    {
        let cells = self.index(row);
        proof {
            lemma_cell_in_square(row as int, 0, self.board_size as int);
        }
        let mut line: Vec<char> = Vec::new();
        line.push('|');
        line.push(' ');
        let mut c: usize = 0;
        while c < self.board_size
            invariant
                c <= self.board_size,
                cells@ == self.row(row as int),
                cells@.len() == self.board_size,
                line@.len() == 2 + 2 * c,
                line@[0] == '|',
                line@[1] == ' ',
                forall|i: int| 0 <= i < 2 * c ==> line@[2 + i] == cells_text(cells@)[i],
            decreases self.board_size - c,
        {
            if cells[c] {
                line.push('#');
            } else {
                line.push(' ');
            }
            line.push(' ');
            c += 1;
        }
        line.push(' ');
        line.push('|');
        proof {
            assert(line@ =~= row_text(cells@));
        }
        line
    }

    /// The picture of the board: a border, a line for each row, a border.
    pub fn render(&self) -> (res: Vec<Vec<char>>)
        requires
            self.wf(),
        ensures
            res@.len() == self.size() + 2,
            res@[0]@ == border_text(self.size() as int),
            res@[self.size() + 1]@ == border_text(self.size() as int),
            forall|r: int| 0 <= r < self.size() ==> (#[trigger] res@[r + 1])@ == row_text(self.row(r)),
    {
        let mut lines: Vec<Vec<char>> = Vec::new();
        lines.push(self.render_border());
        let mut r: usize = 0;
        while r < self.board_size
            invariant
                self.wf(),
                r <= self.board_size,
                lines@.len() == r + 1,
                lines@[0]@ == border_text(self.board_size as int),
                forall|k: int| 0 <= k < r ==> (#[trigger] lines@[k + 1])@ == row_text(self.row(k)),
            decreases self.board_size - r,
        {
            lines.push(self.render_row(r));
            r += 1;
        }
        lines.push(self.render_border());
        lines
    }

    /// Sets the cell at `index` from a number drawn for it: 0 makes it
    /// alive, any other number dead.
    pub fn seed_cell(&mut self, index: usize, sample: i32)
        requires
            index < old(self).cells().len(),
        ensures
            final(self).size() == old(self).size(),
            final(self).cells() == old(self).cells().update(index as int, sample == 0),
    {
        self.cells[index] = sample == 0;
    }

    /// Sets every cell alive or dead by the toss of a coin.
    pub fn randomize(&mut self, rng: &mut ThreadRng)
        ensures
            final(self).size() == old(self).size(),
            final(self).cells().len() == old(self).cells().len(),
    {
        let mut i: usize = 0;
        while i < self.cells.len()
            invariant
                self.board_size == old(self).board_size,
                self.cells@.len() == old(self).cells@.len(),
            decreases self.cells@.len() - i,
        {
            let sample = sample_between(rng, 0, 2);
            self.seed_cell(i, sample);
            i += 1;
        }
    }
}

impl<'a> CellIterator<'a> {
    /// The board that is walked.
    pub closed spec fn board(&self) -> LifeBoard {
        *self.board
    }

    /// The number of cells handed out.
    pub closed spec fn position(&self) -> usize {
        self.index
    }

    /// Hands out the next cell with its row and column, or `None` after
    /// the last one.
    pub fn next(&mut self) -> (res: Option<Cell<'a>>)
        requires
            old(self).board().wf(),
        ensures
            final(self).board() == old(self).board(),
            res is Some == (old(self).position() < old(self).board().cells().len()),
            res is None ==> final(self).position() == old(self).position(),
            res matches Some(cell) ==> {
                &&& final(self).position() == old(self).position() + 1
                &&& cell.row == old(self).position() / old(self).board().size()
                &&& cell.col == old(self).position() % old(self).board().size()
                &&& *cell.state == old(self).board().cells()[old(self).position() as int]
            },
    {
        if self.index < self.board.cells.len() {
            let board_size = self.board.board_size;
            proof {
                assert(board_size > 0) by (nonlinear_arith)
                    requires
                        self.index < board_size * board_size,
                ;
            }
            let row = self.index / board_size;
            let col = self.index % board_size;
            let state = &self.board.cells[self.index];
            self.index += 1;
            Some(Cell { row, col, state })
        } else {
            None
        }
    }
}

} // verus!
