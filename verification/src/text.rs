//! Small verified helpers on characters and strings.

use vstd::prelude::*;
use crate::ext::text::push_char;

verus! {

/// Whether `c` has the Unicode `White_Space` property, as
/// `char::is_whitespace` tests it.
pub open spec fn char_is_whitespace(c: char) -> bool {
    let n = c as u32;
    ||| 0x09 <= n <= 0x0d
    ||| n == 0x20
    ||| n == 0x85
    ||| n == 0xa0
    ||| n == 0x1680
    ||| 0x2000 <= n <= 0x200a
    ||| n == 0x2028
    ||| n == 0x2029
    ||| n == 0x202f
    ||| n == 0x205f
    ||| n == 0x3000
}

/// ASCII letters.
pub open spec fn ascii_letter(c: char) -> bool {
    ('a' <= c && c <= 'z') || ('A' <= c && c <= 'Z')
}

/// Whether every character of `s` is ASCII.
pub open spec fn all_ascii(s: Seq<char>) -> bool {
    forall|i: int| 0 <= i < s.len() ==> (#[trigger] s[i] as u32) < 128
}

/// The upper-case form of an ASCII character: `a`-`z` become `A`-`Z`,
/// other characters stay.
pub open spec fn ascii_upper_char(c: char) -> char {
    if 'a' <= c && c <= 'z' { ((c as u32) - 32) as char } else { c }
}

/// `s` with its ASCII lower-case letters made upper-case.
pub open spec fn ascii_upper(s: Seq<char>) -> Seq<char> {
    s.map_values(|c: char| ascii_upper_char(c))
}

/// `char::is_whitespace`: whether `c` has the Unicode `White_Space` property.
pub fn is_whitespace(c: char) -> (r: bool)
    ensures
        r == char_is_whitespace(c),
{
    let n = c as u32;
    (0x09 <= n && n <= 0x0d) || n == 0x20 || n == 0x85 || n == 0xa0 || n == 0x1680
        || (0x2000 <= n && n <= 0x200a) || n == 0x2028 || n == 0x2029 || n == 0x202f
        || n == 0x205f || n == 0x3000
}

/// The characters of `s`, in order.
pub fn chars_of(s: &str) -> (v: Vec<char>)
    ensures
        v@ == s@,
{
    let mut v: Vec<char> = Vec::new();
    for c in it: s.chars()
        invariant
            it.seq() == s@,
            v@ == it.seq().take(it.index()),
    {
        v.push(c);
    }
    proof {
        assert(v@ =~= s@);
    }
    v
}

/// The string made of `v[lo..hi]`.
pub fn string_of(v: &Vec<char>, lo: usize, hi: usize) -> (s: String)
    requires
        lo <= hi <= v.len(),
    ensures
        s@ == v@.subrange(lo as int, hi as int),
{
    let mut s = String::new();
    let mut i = lo;
    while i < hi
        invariant
            lo <= i <= hi <= v.len(),
            s@ == v@.subrange(lo as int, i as int),
        decreases hi - i,
    {
        push_char(&mut s, v[i]);
        proof {
            assert(s@ =~= v@.subrange(lo as int, i + 1));
        }
        i = i + 1;
    }
    s
}

/// Index of the first character of `s` that is not white space (or `s.len()`).
pub open spec fn trim_lo(s: Seq<char>) -> int
    decreases s.len(),
{
    if s.len() > 0 && char_is_whitespace(s[0]) {
        1 + trim_lo(s.drop_first())
    } else {
        0
    }
}

/// One past the index of the last character of `s` that is not white space (or 0).
pub open spec fn trim_hi(s: Seq<char>) -> int
    decreases s.len(),
{
    if s.len() > 0 && char_is_whitespace(s.last()) {
        trim_hi(s.drop_last())
    } else {
        s.len() as int
    }
}

/// `s` without its leading and trailing white space, as `str::trim` has it.
pub open spec fn trimmed(s: Seq<char>) -> Seq<char> {
    if trim_lo(s) <= trim_hi(s) {
        s.subrange(trim_lo(s), trim_hi(s))
    } else {
        Seq::empty()
    }
}

proof fn lemma_trim_lo_step(s: Seq<char>, i: int)
    requires
        0 <= i <= s.len(),
        forall|j: int| 0 <= j < i ==> char_is_whitespace(#[trigger] s[j]),
    ensures
        trim_lo(s) == i + trim_lo(s.subrange(i, s.len() as int)),
    decreases i,
{
    if i > 0 {
        assert(s.len() > 0 && char_is_whitespace(s[0]));
        let t = s.drop_first();
        assert forall|j: int| 0 <= j < i - 1 implies char_is_whitespace(#[trigger] t[j]) by {
            assert(t[j] == s[j + 1]);
        }
        lemma_trim_lo_step(t, i - 1);
        assert(t.subrange(i - 1, t.len() as int) =~= s.subrange(i, s.len() as int));
    } else {
        assert(s.subrange(0, s.len() as int) =~= s);
    }
}

proof fn lemma_trim_hi_step(s: Seq<char>, k: int)
    requires
        0 <= k <= s.len(),
        forall|j: int| k <= j < s.len() ==> char_is_whitespace(#[trigger] s[j]),
    ensures
        trim_hi(s) == trim_hi(s.subrange(0, k)),
    decreases s.len() - k,
{
    if k < s.len() {
        assert(char_is_whitespace(s.last()));
        let t = s.drop_last();
        assert forall|j: int| k <= j < t.len() implies char_is_whitespace(#[trigger] t[j]) by {
            assert(t[j] == s[j]);
        }
        lemma_trim_hi_step(t, k);
        assert(t.subrange(0, k) =~= s.subrange(0, k));
    } else {
        assert(s.subrange(0, k) =~= s);
    }
}

proof fn lemma_trim_hi_bounds(s: Seq<char>)
    ensures
        0 <= trim_hi(s) <= s.len(),
        trim_hi(s) > 0 ==> !char_is_whitespace(s[trim_hi(s) - 1]),
    decreases s.len(),
{
    if s.len() > 0 && char_is_whitespace(s.last()) {
        lemma_trim_hi_bounds(s.drop_last());
    }
}

/// The bounds `lo..hi` of `v` once leading and trailing white space is cut off.
pub fn trim_bounds(v: &Vec<char>) -> (r: (usize, usize))
    ensures
        r.0 <= r.1 <= v.len(),
        v@.subrange(r.0 as int, r.1 as int) == trimmed(v@),
{
    let mut lo: usize = 0;
    while lo < v.len() && is_whitespace(v[lo])
        invariant
            lo <= v.len(),
            forall|j: int| 0 <= j < lo ==> char_is_whitespace(#[trigger] v@[j]),
        decreases v.len() - lo,
    {
        lo = lo + 1;
    }
    let mut hi: usize = v.len();
    while hi > lo && is_whitespace(v[hi - 1])
        invariant
            lo <= hi <= v.len(),
            forall|j: int| hi <= j < v.len() ==> char_is_whitespace(#[trigger] v@[j]),
        decreases hi,
    {
        hi = hi - 1;
    }
    proof {
        lemma_trim_lo_step(v@, lo as int);
        let rest = v@.subrange(lo as int, v.len() as int);
        if lo < v.len() {
            assert(rest[0] == v@[lo as int]);
            assert(trim_lo(rest) == 0);
        } else {
            assert(trim_lo(rest) == 0);
        }
        lemma_trim_hi_step(v@, hi as int);
        let pre = v@.subrange(0, hi as int);
        lemma_trim_hi_bounds(v@);
        if hi > lo {
            assert(pre.last() == v@[hi - 1]);
            assert(trim_hi(pre) == hi);
            assert(v@.subrange(lo as int, hi as int) =~= trimmed(v@));
        } else {
            // every character is white space
            assert(trim_lo(v@) == lo);
            lemma_trim_hi_of_all_space(v@, lo as int);
            assert(v@.subrange(lo as int, hi as int) =~= trimmed(v@));
        }
    }
    (lo, hi)
}

proof fn lemma_trim_hi_of_all_space(s: Seq<char>, lo: int)
    requires
        0 <= lo <= s.len(),
        forall|j: int| 0 <= j < lo ==> char_is_whitespace(#[trigger] s[j]),
        forall|j: int| lo <= j < s.len() ==> char_is_whitespace(#[trigger] s[j]),
    ensures
        trim_hi(s) == 0,
    decreases s.len(),
{
    if s.len() > 0 {
        let t = s.drop_last();
        assert(char_is_whitespace(s[s.len() - 1]));
        if lo < s.len() {
            assert forall|j: int| lo <= j < t.len() implies char_is_whitespace(#[trigger] t[j]) by {
                assert(t[j] == s[j]);
            }
            assert forall|j: int| 0 <= j < lo implies char_is_whitespace(#[trigger] t[j]) by {
                assert(t[j] == s[j]);
            }
            lemma_trim_hi_of_all_space(t, lo);
        } else {
            assert forall|j: int| 0 <= j < t.len() implies char_is_whitespace(#[trigger] t[j]) by {
                assert(t[j] == s[j]);
            }
            lemma_trim_hi_of_all_space(t, t.len() as int);
        }
    }
}



} // verus!
