//! Character classes and whitespace trimming over `Seq<char>`, with an
//! executable trim that matches the specification exactly.

use vstd::prelude::*;

verus! {

/// The Unicode White_Space code points: exactly the characters that
/// whitespace trimming removes from the ends of a formula.
pub open spec fn is_wsp(c: char) -> bool {
    c == ' ' || c == '\t' || c == '\n' || c == '\u{0B}' || c == '\u{0C}' || c == '\r'
        || c == '\u{85}' || c == '\u{A0}' || c == '\u{1680}'
        || ('\u{2000}' <= c && c <= '\u{200A}')
        || c == '\u{2028}' || c == '\u{2029}' || c == '\u{202F}' || c == '\u{205F}'
        || c == '\u{3000}'
}

pub open spec fn is_digit(c: char) -> bool {
    '0' <= c && c <= '9'
}

pub open spec fn is_upper(c: char) -> bool {
    'A' <= c && c <= 'Z'
}

pub open spec fn is_lower(c: char) -> bool {
    'a' <= c && c <= 'z'
}

/// Index of the first character at or after `i` that is not whitespace
/// (`s.len()` if there is none).
pub open spec fn skip_wsp(s: Seq<char>, i: int) -> int
    decreases s.len() - i,
{
    if i < 0 {
        i
    } else if i >= s.len() || !is_wsp(s[i]) {
        i
    } else {
        skip_wsp(s, i + 1)
    }
}

/// One past the last character before `j` that is not whitespace, but never
/// less than `lo`.
pub open spec fn rskip_wsp(s: Seq<char>, lo: int, j: int) -> int
    decreases j,
{
    if lo < 0 || j <= lo || j > s.len() {
        j
    } else if !is_wsp(s[j - 1]) {
        j
    } else {
        rskip_wsp(s, lo, j - 1)
    }
}

/// `s` with leading and trailing whitespace removed.
pub open spec fn trim_sp(s: Seq<char>) -> Seq<char> {
    let a = skip_wsp(s, 0);
    if a == s.len() {
        Seq::empty()
    } else {
        s.subrange(a, rskip_wsp(s, a, s.len() as int))
    }
}

pub proof fn lemma_skip_wsp_bounds(s: Seq<char>, i: int)
    requires
        0 <= i <= s.len(),
    ensures
        i <= skip_wsp(s, i) <= s.len(),
        forall|k: int| i <= k < skip_wsp(s, i) ==> is_wsp(s[k]),
        skip_wsp(s, i) < s.len() ==> !is_wsp(s[skip_wsp(s, i)]),
    decreases s.len() - i,
{
    if i < s.len() && is_wsp(s[i]) {
        lemma_skip_wsp_bounds(s, i + 1);
    }
}

pub proof fn lemma_rskip_wsp_bounds(s: Seq<char>, lo: int, j: int)
    requires
        0 <= lo <= j <= s.len(),
    ensures
        lo <= rskip_wsp(s, lo, j) <= j,
        forall|k: int| rskip_wsp(s, lo, j) <= k < j ==> is_wsp(s[k]),
        rskip_wsp(s, lo, j) > lo ==> !is_wsp(s[rskip_wsp(s, lo, j) - 1]),
    decreases j,
{
    if j > lo && is_wsp(s[j - 1]) {
        lemma_rskip_wsp_bounds(s, lo, j - 1);
    }
}

/// A sequence without whitespace at either end trims to itself.
pub proof fn lemma_trim_no_wsp(s: Seq<char>)
    requires
        s.len() > 0,
        !is_wsp(s[0]),
        !is_wsp(s[s.len() - 1]),
    ensures
        trim_sp(s) == s,
{
    assert(skip_wsp(s, 0) == 0);
    assert(rskip_wsp(s, 0, s.len() as int) == s.len());
    assert(trim_sp(s) =~= s);
}

/// Trimming is idempotent.
pub proof fn lemma_trim_idempotent(s: Seq<char>)
    ensures
        trim_sp(trim_sp(s)) == trim_sp(s),
{
    let t = trim_sp(s);
    if t.len() > 0 {
        let a = skip_wsp(s, 0);
        lemma_skip_wsp_bounds(s, 0);
        lemma_rskip_wsp_bounds(s, a, s.len() as int);
        assert(!is_wsp(t[0]));
        assert(!is_wsp(t[t.len() - 1]));
        lemma_trim_no_wsp(t);
    } else {
        assert(trim_sp(t) =~= Seq::<char>::empty());
    }
}

/// Trimming never lengthens a text.
pub proof fn lemma_trim_len(s: Seq<char>)
    ensures
        trim_sp(s).len() <= s.len(),
{
    lemma_skip_wsp_bounds(s, 0);
    let a = skip_wsp(s, 0);
    if a != s.len() {
        lemma_rskip_wsp_bounds(s, a, s.len() as int);
    }
}

/// Whether `c` is whitespace, decided executably.
pub fn wsp_char(c: char) -> (r: bool)
    ensures
        r == is_wsp(c),
{
    c == ' ' || c == '\t' || c == '\n' || c == '\u{0B}' || c == '\u{0C}' || c == '\r'
        || c == '\u{85}' || c == '\u{A0}' || c == '\u{1680}'
        || ('\u{2000}' <= c && c <= '\u{200A}')
        || c == '\u{2028}' || c == '\u{2029}' || c == '\u{202F}' || c == '\u{205F}'
        || c == '\u{3000}'
}

/// Whether `c` is a decimal digit, decided executably.
pub fn digit_char(c: char) -> (r: bool)
    ensures
        r == is_digit(c),
{
    '0' <= c && c <= '9'
}

/// The characters of `s`, one vector element each.
pub fn chars_of(s: &str) -> (v: Vec<char>)
    ensures
        v@ == s@,
{
    let n = s.unicode_len();
    let mut v: Vec<char> = Vec::new();
    let mut i: usize = 0;
    while i < n
        invariant
            0 <= i <= n,
            n == s@.len(),
            v@ == s@.subrange(0, i as int),
        decreases n - i,
    {
        v.push(s.get_char(i));
        proof {
            assert(v@ =~= s@.subrange(0, i + 1));
        }
        i += 1;
    }
    proof {
        assert(v@ =~= s@);
    }
    v
}

/// `s` with leading and trailing whitespace removed, as a fresh string.
pub fn trim_str(s: &str) -> (r: String)
    ensures
        r@ == trim_sp(s@),
{
    let n = s.unicode_len();
    let mut a: usize = 0;
    while a < n && wsp_char(s.get_char(a))
        invariant
            0 <= a <= n,
            n == s@.len(),
            skip_wsp(s@, 0) == skip_wsp(s@, a as int),
        decreases n - a,
    {
        assert(skip_wsp(s@, a as int) == skip_wsp(s@, a + 1));
        a += 1;
    }
    proof {
        assert(skip_wsp(s@, a as int) == a);
    }
    if a == n {
        let r = String::new();
        assert(r@ =~= trim_sp(s@));
        r
    } else {
        let mut b: usize = n;
        while b > a && wsp_char(s.get_char(b - 1))
            invariant
                a <= b <= n,
                n == s@.len(),
                a == skip_wsp(s@, 0),
                a < n,
                rskip_wsp(s@, a as int, n as int) == rskip_wsp(s@, a as int, b as int),
            decreases b,
        {
            assert(rskip_wsp(s@, a as int, b as int) == rskip_wsp(s@, a as int, b - 1));
            b -= 1;
        }
        proof {
            assert(rskip_wsp(s@, a as int, b as int) == b);
        }
        let r = s.substring_char(a, b).to_owned();
        assert(r@ =~= trim_sp(s@));
        r
    }
}

} // verus!
