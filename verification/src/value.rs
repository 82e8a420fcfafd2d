//! The value a cell evaluates to, and the ghost view of the value store.
//!
//! A number is an opaque 64-bit word chosen by the caller; the intended
//! encoding is the IEEE-754 double bit pattern. The engine never computes
//! with these words. The one fact it reads off them is the zero test used
//! to guard division, which recognises exactly the two IEEE-754 zero
//! encodings.

use vstd::prelude::*;

use crate::addr::{in_bounds, COLS, ROWS};

verus! {

/// The result of evaluating a formula.
#[derive(Debug, Clone, PartialEq)]
pub enum CellValue {
    /// A numeric result, as an opaque 64-bit word.
    Number(u64),
    /// Label text.
    Text(String),
    /// A short error code: `ERR`, `DIV0` or `TEXT`, or one propagated from
    /// a referenced cell.
    Error(String),
}

/// The mathematical shape of a `CellValue`.
pub enum Val {
    VNum(u64),
    VText(Seq<char>),
    VError(Seq<char>),
}

impl View for CellValue {
    type V = Val;

    open spec fn view(&self) -> Val {
        match self {
            CellValue::Number(b) => Val::VNum(*b),
            CellValue::Text(s) => Val::VText(s@),
            CellValue::Error(e) => Val::VError(e@),
        }
    }
}

/// The two words that an IEEE-754 double compares equal to zero under:
/// positive and negative zero.
pub open spec fn is_zero_bits(b: u64) -> bool {
    b == 0u64 || b == 0x8000_0000_0000_0000u64
}

/// Whether `b` is one of the two zero words, decided executably.
pub fn zero_bits(b: u64) -> (r: bool)
    ensures
        r == is_zero_bits(b),
{
    b == 0u64 || b == 0x8000_0000_0000_0000u64
}

/// Index of an in-bounds cell in the row-major backing vectors.
pub open spec fn idx(c: (usize, usize)) -> int {
    c.0 * COLS + c.1
}

pub proof fn lemma_idx_injective(a: (usize, usize), b: (usize, usize))
    requires
        in_bounds(a),
        in_bounds(b),
        idx(a) == idx(b),
    ensures
        a == b,
{
    assert(a.0 == b.0 && a.1 == b.1) by (nonlinear_arith)
        requires
            a.0 < 100 && a.1 < 26 && b.0 < 100 && b.1 < 26,
            a.0 * 26 + a.1 == b.0 * 26 + b.1,
    ;
}

pub proof fn lemma_idx_bounds(a: (usize, usize))
    requires
        in_bounds(a),
    ensures
        0 <= idx(a) < ROWS * COLS,
{
}

/// The value store a backing vector of optional values denotes: a partial
/// map over in-bounds addresses.
pub open spec fn values_view(v: Seq<Option<CellValue>>) -> Map<(usize, usize), Val> {
    Map::new(
        |c: (usize, usize)| in_bounds(c) && 0 <= idx(c) < v.len() && v[idx(c)] is Some,
        |c: (usize, usize)| (v[idx(c)]->0)@,
    )
}

} // verus!
