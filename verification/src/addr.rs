//! The address codec: the bidirectional mapping between a (row, column)
//! grid coordinate and its textual form, one letter followed by a decimal
//! row number, together with bounds validation.

use vstd::prelude::*;

use crate::text::{is_digit, is_lower, is_upper, trim_sp, chars_of, trim_str};

verus! {

/// Number of rows in the grid.
pub const ROWS: usize = 100;

/// Number of columns in the grid.
pub const COLS: usize = 26;

/// A cell coordinate is in bounds when its row and column fit the grid.
pub open spec fn in_bounds(c: (usize, usize)) -> bool {
    c.0 < ROWS && c.1 < COLS
}

/// The column index a single letter denotes, case-insensitively.
pub open spec fn spec_letter_to_col(c: char) -> Option<usize> {
    if is_upper(c) {
        Some((c as u32 - 'A' as u32) as usize)
    } else if is_lower(c) {
        Some((c as u32 - 'a' as u32) as usize)
    } else {
        None
    }
}

/// The value of a run of decimal digits, most significant first.
pub open spec fn digits_val(s: Seq<char>) -> int
    decreases s.len(),
{
    if s.len() == 0 {
        0
    } else {
        digits_val(s.drop_last()) * 10 + (s.last() as u32 - '0' as u32)
    }
}

pub open spec fn all_digits(s: Seq<char>) -> bool {
    forall|i: int| 0 <= i < s.len() ==> is_digit(s[i])
}

/// What a bare run `s` yields as a row number: one or more digits, with
/// values beyond the machine word rejected.
pub open spec fn row_digits(s: Seq<char>) -> Option<int> {
    if s.len() > 0 && all_digits(s) && digits_val(s) <= usize::MAX {
        Some(digits_val(s))
    } else {
        None
    }
}

/// What parsing an already-trimmed text `t` as a cell reference yields:
/// exactly one letter, then one or more decimal digits with nothing else,
/// both coordinates within the grid bounds.
pub open spec fn cell_ref_core(t: Seq<char>) -> Option<(usize, usize)> {
    if t.len() == 0 {
        None
    } else {
        match spec_letter_to_col(t[0]) {
            Option::None => None,
            Option::Some(col) => match row_digits(t.drop_first()) {
                Option::None => None,
                Option::Some(row) => if row < ROWS && col < COLS {
                    Some((row as usize, col))
                } else {
                    None
                },
            },
        }
    }
}

pub proof fn lemma_digits_val_nonneg(s: Seq<char>)
    requires
        all_digits(s),
    ensures
        digits_val(s) >= 0,
    decreases s.len(),
{
    if s.len() > 0 {
        assert(forall|i: int| 0 <= i < s.drop_last().len() ==> is_digit(#[trigger] s.drop_last()[i]));
        lemma_digits_val_nonneg(s.drop_last());
        assert(is_digit(s.last()));
    }
}

/// A successful reference parse always lies within the grid.
pub proof fn lemma_cell_ref_core_in_bounds(t: Seq<char>)
    ensures
        cell_ref_core(t) is Some ==> in_bounds(cell_ref_core(t).unwrap()),
{
    if cell_ref_core(t) is Some {
        lemma_digits_val_nonneg(t.drop_first());
    }
}

/// What parsing `s` as a cell reference yields: trimming first, then the
/// one-letter-and-row form.
pub open spec fn spec_cell_ref(s: Seq<char>) -> Option<(usize, usize)> {
    cell_ref_core(trim_sp(s))
}

/// The single-letter text for a column index.
pub fn col_to_letter(col: usize) -> (r: String)
    requires
        col < COLS,
    ensures
        r@.len() == 1,
        is_upper(r@[0]),
        r@[0] as u32 == 'A' as u32 + col,
        spec_letter_to_col(r@[0]) == Some(col),
{
    let letters = "ABCDEFGHIJKLMNOPQRSTUVWXYZ";
    proof {
        reveal_strlit("ABCDEFGHIJKLMNOPQRSTUVWXYZ");
    }
    let r = letters.substring_ascii(col, col + 1).to_owned();
    proof {
        assert(r@[0] == letters@[col as int]);
        assert(r@[0] as u32 == 'A' as u32 + col);
    }
    r
}

/// The column index a letter denotes, case-insensitively; `None` for
/// anything that is not an ASCII letter.
pub fn letter_to_col(letter: char) -> (r: Option<usize>)
    ensures
        r == spec_letter_to_col(letter),
{
    if 'A' <= letter && letter <= 'Z' {
        Some(letter as usize - 'A' as usize)
    } else if 'a' <= letter && letter <= 'z' {
        Some(letter as usize - 'a' as usize)
    } else {
        None
    }
}

/// Parses the row-number part of a reference: one or more decimal digits
/// and nothing else. Values of 1000 and above are reported as 1000, which
/// the bounds check rejects exactly as the true value would be.
fn parse_row_part(t: &Vec<char>, from: usize, to: usize) -> (r: Option<usize>)
    requires
        from <= to <= t@.len(),
    ensures
        match r {
            Option::Some(v) => {
                &&& row_digits(t@.subrange(from as int, to as int)) == Some(v as int)
                &&& v < 1000
            },
            Option::None => {
                let p = row_digits(t@.subrange(from as int, to as int));
                p is None || p.unwrap() >= 1000
            },
        },
{
    let n = to;
    let ghost digits = t@.subrange(from as int, n as int);
    if from == n {
        return None;
    }
    let mut acc: usize = 0;
    let mut j: usize = from;
    while j < n
        invariant
            from <= j <= n,
            n <= t@.len(),
            n == to,
            from < n,
            digits == t@.subrange(from as int, n as int),
            all_digits(t@.subrange(from as int, j as int)),
            acc <= 1000,
            digits_val(t@.subrange(from as int, j as int)) < 1000 ==> acc == digits_val(
                t@.subrange(from as int, j as int),
            ),
            digits_val(t@.subrange(from as int, j as int)) >= 1000 ==> acc == 1000,
        decreases n - j,
    {
        let c = t[j];
        if !('0' <= c && c <= '9') {
            proof {
                assert(digits[j - from] == t@[j as int]);
                assert(!all_digits(digits));
            }
            return None;
        }
        let d = c as usize - '0' as usize;
        let ghost pfx = t@.subrange(from as int, j as int);
        let ghost pfx1 = t@.subrange(from as int, j + 1);
        proof {
            assert(pfx1.drop_last() =~= pfx);
            assert(pfx1.last() == c);
            assert(digits_val(pfx1) == digits_val(pfx) * 10 + d);
        }
        if acc >= 100 {
            acc = 1000;
        } else {
            acc = acc * 10 + d;
        }
        j += 1;
    }
    proof {
        assert(t@.subrange(from as int, j as int) =~= digits);
    }
    if acc < 1000 {
        Some(acc)
    } else {
        proof {
            assert(digits_val(digits) >= 1000);
        }
        None
    }
}

/// Parses the already-trimmed range `[from, to)` of `v` as a cell
/// reference.
pub fn cell_ref_vec(v: &Vec<char>, from: usize, to: usize) -> (r: Option<(usize, usize)>)
    requires
        from <= to <= v@.len(),
    ensures
        r == cell_ref_core(v@.subrange(from as int, to as int)),
        r is Some ==> in_bounds(r.unwrap()),
{
    let ghost t = v@.subrange(from as int, to as int);
    if from == to {
        return None;
    }
    let col = match letter_to_col(v[from]) {
        Option::Some(c) => c,
        Option::None => {
            return None;
        },
    };
    proof {
        assert(v@.subrange(from + 1, to as int) =~= t.drop_first());
    }
    match parse_row_part(v, from + 1, to) {
        Option::Some(row) => {
            if row < ROWS {
                Some((row, col))
            } else {
                None
            }
        },
        Option::None => None,
    }
}

/// Parses a full cell reference such as `A0` or `Z99`: one letter, a row
/// number, nothing else, and both coordinates within the grid.
pub fn parse_cell_reference(s: &str) -> (r: Option<(usize, usize)>)
    ensures
        r == spec_cell_ref(s@),
        r is Some ==> in_bounds(r.unwrap()),
{
    let t = chars_of(trim_str(s).as_str());
    proof {
        assert(t@.subrange(0, t@.len() as int) =~= trim_sp(s@));
    }
    cell_ref_vec(&t, 0, t.len())
}

} // verus!
