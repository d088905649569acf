//! The integer types as keys: each keeps the order that the map asks for.

use vstd::prelude::*;
use crate::keyvaluemap::pair::key_order;
use crate::keyvaluemap::model::key_identity;

verus! {

/// `u8` keeps `key_order`: its `<` is a strict total order and its `==`
/// is identity.
pub proof fn lemma_key_order_u8()
    ensures
        key_order::<u8>(),
        key_identity::<u8>(),
{
}

/// `u16` keeps `key_order`: its `<` is a strict total order and its `==`
/// is identity.
pub proof fn lemma_key_order_u16()
    ensures
        key_order::<u16>(),
        key_identity::<u16>(),
{
}

/// `u32` keeps `key_order`: its `<` is a strict total order and its `==`
/// is identity.
pub proof fn lemma_key_order_u32()
    ensures
        key_order::<u32>(),
        key_identity::<u32>(),
{
}

/// `u64` keeps `key_order`: its `<` is a strict total order and its `==`
/// is identity.
pub proof fn lemma_key_order_u64()
    ensures
        key_order::<u64>(),
        key_identity::<u64>(),
{
}

/// `u128` keeps `key_order`: its `<` is a strict total order and its `==`
/// is identity.
pub proof fn lemma_key_order_u128()
    ensures
        key_order::<u128>(),
        key_identity::<u128>(),
{
}

/// `usize` keeps `key_order`: its `<` is a strict total order and its `==`
/// is identity.
pub proof fn lemma_key_order_usize()
    ensures
        key_order::<usize>(),
        key_identity::<usize>(),
{
}

/// `i8` keeps `key_order`: its `<` is a strict total order and its `==`
/// is identity.
pub proof fn lemma_key_order_i8()
    ensures
        key_order::<i8>(),
        key_identity::<i8>(),
{
}

/// `i16` keeps `key_order`: its `<` is a strict total order and its `==`
/// is identity.
pub proof fn lemma_key_order_i16()
    ensures
        key_order::<i16>(),
        key_identity::<i16>(),
{
}

/// `i32` keeps `key_order`: its `<` is a strict total order and its `==`
/// is identity.
pub proof fn lemma_key_order_i32()
    ensures
        key_order::<i32>(),
        key_identity::<i32>(),
{
}

/// `i64` keeps `key_order`: its `<` is a strict total order and its `==`
/// is identity.
pub proof fn lemma_key_order_i64()
    ensures
        key_order::<i64>(),
        key_identity::<i64>(),
{
}

/// `i128` keeps `key_order`: its `<` is a strict total order and its `==`
/// is identity.
pub proof fn lemma_key_order_i128()
    ensures
        key_order::<i128>(),
        key_identity::<i128>(),
{
}

/// `isize` keeps `key_order`: its `<` is a strict total order and its `==`
/// is identity.
pub proof fn lemma_key_order_isize()
    ensures
        key_order::<isize>(),
        key_identity::<isize>(),
{
}

} // verus!
