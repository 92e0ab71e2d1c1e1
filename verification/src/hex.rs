//! Lower-case hexadecimal text of byte strings, as the `hex` crate writes
//! and reads it.

use vstd::prelude::*;
use crate::ext::text::push_char;

verus! {

/// Whether `c` is a hexadecimal digit (either case).
pub open spec fn is_hex_digit(c: char) -> bool {
    ('0' <= c && c <= '9') || ('a' <= c && c <= 'f') || ('A' <= c && c <= 'F')
}

/// The value of the hexadecimal digit `c`.
pub open spec fn hex_val(c: char) -> int {
    if '0' <= c && c <= '9' {
        c as int - '0' as int
    } else if 'a' <= c && c <= 'f' {
        c as int - 'a' as int + 10
    } else {
        c as int - 'A' as int + 10
    }
}

/// The lower-case digit for `n` in `0..16`.
pub open spec fn hex_char(n: int) -> char {
    if n < 10 {
        (n + '0' as int) as char
    } else {
        (n - 10 + 'a' as int) as char
    }
}

/// The bytes written in hexadecimal by `s`, two digits a byte, high digit
/// first; `None` unless `s` has an even number of characters, all digits.
pub open spec fn hex_decoded(s: Seq<char>) -> Option<Seq<u8>> {
    if s.len() % 2 == 0 && forall|i: int| 0 <= i < s.len() ==> is_hex_digit(#[trigger] s[i]) {
        Some(Seq::new((s.len() / 2) as nat, |k: int| (hex_val(s[2 * k]) * 16 + hex_val(s[2 * k + 1])) as u8))
    } else {
        None
    }
}

/// The lower-case hexadecimal text of `b`.
pub open spec fn hex_text(b: Seq<u8>) -> Seq<char> {
    Seq::new(2 * b.len(), |i: int| hex_char(if i % 2 == 0 { b[i / 2] as int / 16 } else { b[i / 2] as int % 16 }))
}

fn digit_char(n: u8) -> (c: char)
    requires
        n < 16,
    ensures
        c == hex_char(n as int),
{
    if n < 10 {
        (n + 48) as char
    } else {
        (n - 10 + 97) as char
    }
}

/// `hex::encode`: the lower-case hexadecimal text of `bytes`.
pub fn encode(bytes: &[u8]) -> (s: String)
    ensures
        s@ == hex_text(bytes@),
{
    let mut s = String::new();
    let mut i: usize = 0;
    while i < bytes.len()
        invariant
            i <= bytes.len(),
            s@ =~= hex_text(bytes@.subrange(0, i as int)),
        decreases bytes.len() - i,
    {
        let b = bytes[i];
        push_char(&mut s, digit_char(b / 16));
        push_char(&mut s, digit_char(b % 16));
        proof {
            let prev = hex_text(bytes@.subrange(0, i as int));
            let next = hex_text(bytes@.subrange(0, i + 1));
            assert forall|k: int| 0 <= k < next.len() implies next[k] == s@[k] by {
                if k < 2 * i {
                    assert(k / 2 < i);
                    assert(next[k] == prev[k]);
                } else if k == 2 * i {
                    assert(k / 2 == i);
                    assert(k % 2 == 0);
                } else {
                    assert(k / 2 == i);
                    assert(k % 2 == 1);
                }
            }
            assert(next.len() == s@.len());
        }
        i = i + 1;
    }
    proof {
        assert(bytes@.subrange(0, bytes@.len() as int) =~= bytes@);
    }
    s
}

fn digit_value(c: char) -> (r: Option<u8>)
    ensures
        r.is_some() == is_hex_digit(c),
        r matches Some(v) ==> v as int == hex_val(c) && v < 16,
{
    if '0' <= c && c <= '9' {
        Some((c as u32 - 48) as u8)
    } else if 'a' <= c && c <= 'f' {
        Some((c as u32 - 97 + 10) as u8)
    } else if 'A' <= c && c <= 'F' {
        Some((c as u32 - 65 + 10) as u8)
    } else {
        None
    }
}

/// `hex::decode` on the characters `v`: the bytes they spell, if they are an
/// even number of hexadecimal digits.
pub fn decode(v: &Vec<char>) -> (r: Option<Vec<u8>>)
    ensures
        match hex_decoded(v@) {
            Some(b) => r matches Some(x) && x@ == b,
            None => r is None,
        },
{
    if v.len() % 2 != 0 {
        return None;
    }
    let mut out: Vec<u8> = Vec::new();
    let mut k: usize = 0;
    while k < v.len() / 2
        invariant
            v.len() % 2 == 0,
            k <= v.len() / 2,
            out@.len() == k,
            forall|j: int| 0 <= j < 2 * k ==> is_hex_digit(#[trigger] v@[j]),
            forall|j: int| 0 <= j < k ==> #[trigger] out@[j] == (hex_val(v@[2 * j]) * 16 + hex_val(v@[2 * j + 1])) as u8,
        decreases v.len() / 2 - k,
    {
        let hi = digit_value(v[2 * k]);
        let lo = digit_value(v[2 * k + 1]);
        match (hi, lo) {
            (Some(h), Some(l)) => {
                out.push(h * 16 + l);
                proof {
                    assert forall|j: int| 0 <= j < 2 * (k + 1) implies is_hex_digit(#[trigger] v@[j]) by {
                        if j >= 2 * k {
                            assert(j == 2 * k || j == 2 * k + 1);
                        }
                    }
                }
            },
            _ => {
                proof {
                    assert(!is_hex_digit(v@[2 * k as int]) || !is_hex_digit(v@[2 * k + 1]));
                }
                return None;
            },
        }
        k = k + 1;
    }
    proof {
        assert(out@ =~= hex_decoded(v@)->0);
    }
    Some(out)
}

/// The digit written for `n` reads back as `n`.
pub proof fn lemma_hex_digit_round_trip(n: int)
    requires
        0 <= n < 16,
    ensures
        is_hex_digit(hex_char(n)),
        hex_val(hex_char(n)) == n,
{
}

/// Reading back the hexadecimal text of a byte string gives the bytes.
pub proof fn law_hex_round_trip(b: Seq<u8>)
    ensures
        hex_decoded(hex_text(b)) == Some(b),
{
    let t = hex_text(b);
    assert forall|i: int| 0 <= i < t.len() implies is_hex_digit(#[trigger] t[i]) by {
        if i % 2 == 0 {
            lemma_hex_digit_round_trip(b[i / 2] as int / 16);
        } else {
            lemma_hex_digit_round_trip(b[i / 2] as int % 16);
        }
    }
    let d = Seq::new((t.len() / 2) as nat, |k: int| (hex_val(t[2 * k]) * 16 + hex_val(t[2 * k + 1])) as u8);
    assert forall|k: int| 0 <= k < b.len() implies d[k] == b[k] by {
        lemma_hex_digit_round_trip(b[k] as int / 16);
        lemma_hex_digit_round_trip(b[k] as int % 16);
        assert((2 * k) / 2 == k);
        assert((2 * k + 1) / 2 == k);
        assert((2 * k) % 2 == 0);
        assert((2 * k + 1) % 2 == 1);
        assert(t[2 * k] == hex_char(b[k] as int / 16));
        assert(t[2 * k + 1] == hex_char(b[k] as int % 16));
    }
    assert(d =~= b);
}

} // verus!
