//! The dependency extractor: a lexical left-to-right scan of a formula for
//! cell references. Wherever an uppercase letter starts a run of digits,
//! the two-token substring is tried as a cell reference; successes are
//! collected once each, in order of first occurrence.

use vstd::prelude::*;

use crate::text::{is_digit, is_upper, trim_sp, chars_of, trim_str, digit_char};
use crate::addr::{in_bounds, cell_ref_core, cell_ref_vec};

verus! {

/// Index of the first character at or after `i` that is not a digit
/// (`s.len()` if there is none).
pub open spec fn digits_end(s: Seq<char>, i: int) -> int
    decreases s.len() - i,
{
    if i < 0 || i >= s.len() || !is_digit(s[i]) {
        i
    } else {
        digits_end(s, i + 1)
    }
}

/// Every reference the scan of `s` finds from position `i` on, in order,
/// with repeats kept. The bound on the recursion never moves the cursor
/// below `i + 1`, which matches the scan: after a letter the cursor stands
/// past the digit run, and otherwise it advances one character.
pub open spec fn scan_refs(s: Seq<char>, i: int) -> Seq<(usize, usize)>
    decreases s.len() - i,
{
    if i < 0 || i >= s.len() {
        Seq::empty()
    } else if is_upper(s[i]) {
        let e = digits_end(s, i + 1);
        let j = if e < i + 1 {
            i + 1
        } else if e > s.len() {
            s.len() as int
        } else {
            e
        };
        if j > i + 1 {
            match cell_ref_core(s.subrange(i, j)) {
                Option::Some(a) => seq![a] + scan_refs(s, j),
                Option::None => scan_refs(s, j),
            }
        } else {
            scan_refs(s, i + 1)
        }
    } else {
        scan_refs(s, i + 1)
    }
}

/// `s` with every element that already occurred earlier removed.
pub open spec fn dedup_first(s: Seq<(usize, usize)>) -> Seq<(usize, usize)>
    decreases s.len(),
{
    if s.len() == 0 {
        Seq::empty()
    } else {
        let d = dedup_first(s.drop_last());
        if d.contains(s.last()) {
            d
        } else {
            d.push(s.last())
        }
    }
}

pub proof fn lemma_dedup_first(s: Seq<(usize, usize)>)
    ensures
        dedup_first(s).no_duplicates(),
        forall|x: (usize, usize)| dedup_first(s).contains(x) <==> s.contains(x),
    decreases s.len(),
{
    if s.len() > 0 {
        lemma_dedup_first(s.drop_last());
        let d = dedup_first(s.drop_last());
        assert forall|x: (usize, usize)| s.contains(x) implies dedup_first(s).contains(x) by {
            if x == s.last() {
                if !d.contains(x) {
                    assert(dedup_first(s)[dedup_first(s).len() - 1] == x);
                }
            } else {
                let k = choose|k: int| 0 <= k < s.len() && s[k] == x;
                if k < s.len() - 1 {
                    assert(s.drop_last()[k] == x);
                    assert(s.drop_last().contains(x));
                    assert(d.contains(x));
                    if !d.contains(s.last()) {
                        let m = choose|m: int| 0 <= m < d.len() && d[m] == x;
                        assert(dedup_first(s)[m] == x);
                    }
                }
            }
        }
        assert forall|x: (usize, usize)| dedup_first(s).contains(x) implies s.contains(x) by {
            let m = choose|m: int| 0 <= m < dedup_first(s).len() && dedup_first(s)[m] == x;
            if d.contains(s.last()) || m < d.len() {
                assert(d[m] == x);
                let k = choose|k: int| 0 <= k < d.len() && d[k] == x;
                assert(s.drop_last().contains(x));
                let k2 = choose|k2: int| 0 <= k2 < s.drop_last().len() && s.drop_last()[k2] == x;
                assert(s[k2] == x);
            } else {
                assert(x == s.last());
                assert(s[s.len() - 1] == x);
            }
        }
    }
}

/// The set of addresses a stored formula depends on, as the scan finds
/// them: nothing unless the trimmed text starts with `=`, else every
/// reference in the rest, first occurrences only.
pub open spec fn deps_seq_of(s: Seq<char>) -> Seq<(usize, usize)> {
    let t = trim_sp(s);
    if t.len() > 0 && t[0] == '=' {
        dedup_first(scan_refs(t.drop_first(), 0))
    } else {
        Seq::empty()
    }
}

pub proof fn lemma_scan_refs_in_bounds(s: Seq<char>, i: int)
    ensures
        forall|k: int| 0 <= k < scan_refs(s, i).len() ==> in_bounds(#[trigger] scan_refs(s, i)[k]),
    decreases s.len() - i,
{
    if 0 <= i < s.len() {
        if is_upper(s[i]) {
            let e = digits_end(s, i + 1);
            let j = if e < i + 1 {
                i + 1
            } else if e > s.len() {
                s.len() as int
            } else {
                e
            };
            if j > i + 1 {
                lemma_scan_refs_in_bounds(s, j);
                match cell_ref_core(s.subrange(i, j)) {
                    Option::Some(a) => {
                        crate::addr::lemma_cell_ref_core_in_bounds(s.subrange(i, j));
                        assert(in_bounds(a));
                        assert(scan_refs(s, i) == seq![a] + scan_refs(s, j));
                        assert forall|k: int| 0 <= k < scan_refs(s, i).len() implies in_bounds(
                            #[trigger] scan_refs(s, i)[k],
                        ) by {
                            if k > 0 {
                                assert(scan_refs(s, i)[k] == scan_refs(s, j)[k - 1]);
                            } else {
                                assert(scan_refs(s, i)[0] == a);
                            }
                        }
                    },
                    Option::None => {
                        assert(scan_refs(s, i) == scan_refs(s, j));
                    },
                }
            } else {
                lemma_scan_refs_in_bounds(s, i + 1);
                assert(scan_refs(s, i) == scan_refs(s, i + 1));
            }
        } else {
            lemma_scan_refs_in_bounds(s, i + 1);
            assert(scan_refs(s, i) == scan_refs(s, i + 1));
        }
    }
}

/// Everything `deps_seq_of` lists is a distinct, in-bounds address.
pub proof fn lemma_deps_seq_of(s: Seq<char>)
    ensures
        deps_seq_of(s).no_duplicates(),
        forall|k: int| 0 <= k < deps_seq_of(s).len() ==> in_bounds(#[trigger] deps_seq_of(s)[k]),
{
    let t = trim_sp(s);
    if t.len() > 0 && t[0] == '=' {
        let raw = scan_refs(t.drop_first(), 0);
        lemma_dedup_first(raw);
        lemma_scan_refs_in_bounds(t.drop_first(), 0);
        assert forall|k: int| 0 <= k < deps_seq_of(s).len() implies in_bounds(
            #[trigger] deps_seq_of(s)[k],
        ) by {
            assert(raw.contains(deps_seq_of(s)[k]));
            let m = choose|m: int| 0 <= m < raw.len() && raw[m] == deps_seq_of(s)[k];
        }
    }
}

/// A formula that does not (after trimming) start with `=` references
/// nothing.
pub proof fn lemma_non_formula_no_deps(s: Seq<char>)
    requires
        trim_sp(s).len() == 0 || trim_sp(s)[0] != '=',
    ensures
        deps_seq_of(s) == Seq::<(usize, usize)>::empty(),
{
}

proof fn lemma_digits_end_run(s: Seq<char>, j: int)
    requires
        0 <= j <= s.len(),
        forall|k: int| j <= k < s.len() ==> is_digit(s[k]),
    ensures
        digits_end(s, j) == s.len(),
    decreases s.len() - j,
{
    if j < s.len() {
        lemma_digits_end_run(s, j + 1);
    }
}

/// A text without uppercase letters from `i` on yields nothing.
pub proof fn lemma_scan_no_upper(s: Seq<char>, i: int)
    requires
        forall|k: int| i <= k < s.len() ==> !is_upper(s[k]),
    ensures
        scan_refs(s, i) == Seq::<(usize, usize)>::empty(),
    decreases s.len() - i,
{
    if 0 <= i < s.len() {
        lemma_scan_no_upper(s, i + 1);
    }
}

/// A text that is exactly one parsable uppercase reference yields exactly
/// that reference.
pub proof fn lemma_scan_single_ref(cur: Seq<char>, x: (usize, usize))
    requires
        crate::addr::cell_ref_core(cur) == Some(x),
        is_upper(cur[0]),
    ensures
        scan_refs(cur, 0) == seq![x],
{
    let rest = cur.drop_first();
    assert(rest.len() >= 1);
    assert(forall|k: int| 1 <= k < cur.len() ==> is_digit(#[trigger] cur[k])) by {
        assert(forall|k: int|
            0 <= k < rest.len() ==> is_digit(#[trigger] rest[k]));
        assert(forall|k: int| 1 <= k < cur.len() ==> cur[k] == rest[k - 1]);
    }
    lemma_digits_end_run(cur, 1);
    assert(cur.subrange(0, cur.len() as int) =~= cur);
    assert(scan_refs(cur, cur.len() as int) =~= Seq::<(usize, usize)>::empty());
    assert(scan_refs(cur, 0) =~= seq![x]);
}

/// Whether `v` holds `x`.
pub fn cell_in(v: &Vec<(usize, usize)>, x: (usize, usize)) -> (r: bool)
    ensures
        r == v@.contains(x),
{
    let mut k: usize = 0;
    while k < v.len()
        invariant
            0 <= k <= v@.len(),
            forall|m: int| 0 <= m < k ==> v@[m] != x,
        decreases v@.len() - k,
    {
        let c = v[k];
        if c.0 == x.0 && c.1 == x.1 {
            return true;
        }
        k += 1;
    }
    false
}

/// Scans a formula for the addresses it references: each address once, in
/// order of first occurrence, all within the grid bounds.
pub fn parse_dependencies(formula: &str) -> (r: Vec<(usize, usize)>)
    ensures
        r@ == deps_seq_of(formula@),
        r@.no_duplicates(),
        forall|k: int| 0 <= k < r@.len() ==> in_bounds(#[trigger] r@[k]),
{
    proof {
        lemma_deps_seq_of(formula@);
    }
    let t = chars_of(trim_str(formula).as_str());
    let mut out: Vec<(usize, usize)> = Vec::new();
    if t.len() == 0 || t[0] != '=' {
        return out;
    }
    let n = t.len();
    let ghost e = t@.drop_first();
    let mut i: usize = 1;
    let ghost mut raw: Seq<(usize, usize)> = Seq::empty();
    proof {
        assert(scan_refs(e, 0) =~= raw + scan_refs(e, i - 1));
    }
    while i < n
        invariant
            1 <= i <= n,
            n == t@.len(),
            e == t@.drop_first(),
            scan_refs(e, 0) == raw + scan_refs(e, i - 1),
            out@ == dedup_first(raw),
        decreases n - i,
    {
        let c = t[i];
        proof {
            assert(e[i - 1] == t@[i as int]);
        }
        if 'A' <= c && c <= 'Z' {
            let mut j: usize = i + 1;
            while j < n && digit_char(t[j])
                invariant
                    i + 1 <= j <= n,
                    n == t@.len(),
                    e == t@.drop_first(),
                    digits_end(e, i as int) == digits_end(e, j - 1),
                decreases n - j,
            {
                proof {
                    assert(e[j - 1] == t@[j as int]);
                    assert(digits_end(e, j - 1) == digits_end(e, j as int));
                }
                j += 1;
            }
            proof {
                if j < n {
                    assert(e[j - 1] == t@[j as int]);
                }
                assert(digits_end(e, j - 1) == j - 1);
            }
            if j > i + 1 {
                let ghost tok = e.subrange(i - 1, j - 1);
                proof {
                    assert(tok =~= t@.subrange(i as int, j as int));
                }
                match cell_ref_vec(&t, i, j) {
                    Option::Some(a) => {
                        let ghost raw1 = raw.push(a);
                        proof {
                            assert(scan_refs(e, i - 1) == seq![a] + scan_refs(e, j - 1));
                            assert(scan_refs(e, 0) =~= raw1 + scan_refs(e, j - 1));
                            assert(raw1.drop_last() =~= raw);
                        }
                        if !cell_in(&out, a) {
                            out.push(a);
                        }
                        proof {
                            raw = raw1;
                        }
                    },
                    Option::None => {
                        proof {
                            assert(scan_refs(e, i - 1) == scan_refs(e, j - 1));
                            assert(scan_refs(e, 0) =~= raw + scan_refs(e, j - 1));
                        }
                    },
                }
                i = j;
            } else {
                proof {
                    assert(scan_refs(e, i - 1) == scan_refs(e, i as int));
                }
                i += 1;
            }
        } else {
            proof {
                assert(scan_refs(e, i - 1) == scan_refs(e, i as int));
            }
            i += 1;
        }
    }
    proof {
        assert(scan_refs(e, n - 1) =~= Seq::<(usize, usize)>::empty());
        assert(raw =~= scan_refs(e, 0));
        assert(out@ == deps_seq_of(formula@));
    }
    out
}

} // verus!
