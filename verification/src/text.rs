//! Text in byte sequences.
use crate::calendar::{all_digits, decimal, lemma_decimal_prefix};
use vstd::prelude::*;
use vstd::slice::slice_subrange;
use vstd::utf8::{
    decode_first_codepoint, length_of_first_scalar, pop_first_scalar, valid_first_scalar, valid_utf8,
};

verus! {

/// Length of the first character of `s`; 0 if `s` does not begin with a character.
fn first_char_len(s: &[u8]) -> (n: usize)
    requires
        s.len() > 0,
    ensures
        n > 0 <==> valid_first_scalar(s@),
        n > 0 ==> n == length_of_first_scalar(s@) && n <= s.len(),
{
    let a: u8 = s[0];
    if a <= 0x7F {
        return 1;
    }
    if s.len() < 2 || !(0x80 <= s[1] && s[1] <= 0xBF) {
        return 0;
    }
    let b: u8 = s[1];
    if 0xC0 <= a && a <= 0xDF {
        let c: u32 = (((a & 0x1F) as u32) << 6) | ((b & 0x3F) as u32);
        assert(c < 0x800) by (bit_vector)
            requires
                c == (((a & 0x1F) as u32) << 6) | ((b & 0x3F) as u32),
        ;
        assert(c == decode_first_codepoint(s@));
        return if 0x80 <= c {
            2
        } else {
            0
        };
    }
    if s.len() < 3 || !(0x80 <= s[2] && s[2] <= 0xBF) {
        return 0;
    }
    let b2: u8 = s[2];
    if 0xE0 <= a && a <= 0xEF {
        let c: u32 = (((a & 0x0F) as u32) << 12) | (((b & 0x3F) as u32) << 6) | ((b2 & 0x3F) as u32);
        assert(c == decode_first_codepoint(s@));
        return if 0x800 <= c && !(0xD800 <= c && c <= 0xDFFF) {
            3
        } else {
            0
        };
    }
    if s.len() < 4 || !(0x80 <= s[3] && s[3] <= 0xBF) {
        return 0;
    }
    let b3: u8 = s[3];
    if 0xF0 <= a && a <= 0xF7 {
        let c: u32 = (((a & 0x07) as u32) << 18) | (((b & 0x3F) as u32) << 12) | (((b2 & 0x3F) as u32)
            << 6) | ((b3 & 0x3F) as u32);
        assert(c == decode_first_codepoint(s@));
        return if 0x10000 <= c && c <= 0x10FFFF {
            4
        } else {
            0
        };
    }
    0
}

/// Whether `s` is valid UTF-8.
pub fn is_utf8(s: &[u8]) -> (ok: bool)
    ensures
        ok == valid_utf8(s@),
{
    let mut at: usize = 0;
    assert(s@.subrange(0, s@.len() as int) =~= s@);
    while at < s.len()
        invariant
            at <= s.len(),
            valid_utf8(s@) == valid_utf8(s@.subrange(at as int, s@.len() as int)),
        decreases s.len() - at,
    {
        let rest: &[u8] = slice_subrange(s, at, s.len());
        let n: usize = first_char_len(rest);
        if n == 0 {
            return false;
        }
        proof {
            assert(pop_first_scalar(rest@) =~= s@.subrange(at + n, s@.len() as int));
        }
        at = at + n;
    }
    true
}

/// Length of the whitespace character that `s` begins with; 0 if it begins with none. These are the
/// Unicode characters with the property White_Space in UTF-8.
pub open spec fn space_at_start(s: Seq<u8>) -> int {
    if s.len() >= 1 && (9 <= s[0] <= 13 || s[0] == 32) {
        1
    } else if s.len() >= 2 && s[0] == 0xC2 && (s[1] == 0x85 || s[1] == 0xA0) {
        2
    } else if s.len() >= 3 && wide_space(s[0], s[1], s[2]) {
        3
    } else {
        0
    }
}

/// Length of the whitespace character that `s` ends with; 0 if it ends with none.
pub open spec fn space_at_end(s: Seq<u8>) -> int {
    let n = s.len();
    if n >= 1 && (9 <= s[n - 1] <= 13 || s[n - 1] == 32) {
        1
    } else if n >= 2 && s[n - 2] == 0xC2 && (s[n - 1] == 0x85 || s[n - 1] == 0xA0) {
        2
    } else if n >= 3 && wide_space(s[n - 3], s[n - 2], s[n - 1]) {
        3
    } else {
        0
    }
}

/// The whitespace characters of three bytes.
pub open spec fn wide_space(a: u8, b: u8, c: u8) -> bool {
    ||| a == 0xE1 && b == 0x9A && c == 0x80
    ||| a == 0xE2 && b == 0x80 && (0x80 <= c <= 0x8A || c == 0xA8 || c == 0xA9 || c == 0xAF)
    ||| a == 0xE2 && b == 0x81 && c == 0x9F
    ||| a == 0xE3 && b == 0x80 && c == 0x80
}

/// `s` without the whitespace it begins with.
pub open spec fn trim_start(s: Seq<u8>) -> Seq<u8>
    decreases s.len(),
{
    if space_at_start(s) > 0 {
        trim_start(s.skip(space_at_start(s)))
    } else {
        s
    }
}

/// `s` without the whitespace it ends with.
pub open spec fn trim_end(s: Seq<u8>) -> Seq<u8>
    decreases s.len(),
{
    if space_at_end(s) > 0 {
        trim_end(s.take(s.len() - space_at_end(s)))
    } else {
        s
    }
}

fn is_wide_space(a: u8, b: u8, c: u8) -> (r: bool)
    ensures
        r == wide_space(a, b, c),
{
    (a == 0xE1 && b == 0x9A && c == 0x80) || (a == 0xE2 && b == 0x80 && ((0x80 <= c && c <= 0x8A) || c
        == 0xA8 || c == 0xA9 || c == 0xAF)) || (a == 0xE2 && b == 0x81 && c == 0x9F) || (a == 0xE3 && b
        == 0x80 && c == 0x80)
}

/// `s` without whitespace around it.
pub fn trim(s: &[u8]) -> (t: &[u8])
    ensures
        t@ == trim_end(trim_start(s@)),
{
    let mut lo: usize = 0;
    let n: usize = s.len();
    assert(s@.skip(0) =~= s@);
    loop
        invariant_except_break
            trim_start(s@) == trim_start(s@.skip(lo as int)),
        invariant
            lo <= n,
            n == s.len(),
        ensures
            trim_start(s@) == s@.skip(lo as int),
        decreases n - lo,
    {
        let ghost rest = s@.skip(lo as int);
        let w: usize = if lo < n && ((9 <= s[lo] && s[lo] <= 13) || s[lo] == 32) {
            1
        } else if n - lo >= 2 && s[lo] == 0xC2 && (s[lo + 1] == 0x85 || s[lo + 1] == 0xA0) {
            2
        } else if n - lo >= 3 && is_wide_space(s[lo], s[lo + 1], s[lo + 2]) {
            3
        } else {
            0
        };
        assert(w == space_at_start(rest));
        if w == 0 {
            break;
        }
        assert(rest.skip(w as int) =~= s@.skip(lo + w));
        lo = lo + w;
    }
    let ghost tail = s@.skip(lo as int);
    let mut hi: usize = n;
    assert(s@.subrange(lo as int, n as int) =~= tail);
    loop
        invariant_except_break
            trim_end(tail) == trim_end(s@.subrange(lo as int, hi as int)),
        invariant
            lo <= hi <= n,
            n == s.len(),
        ensures
            trim_end(tail) == s@.subrange(lo as int, hi as int),
        decreases hi,
    {
        let ghost rest = s@.subrange(lo as int, hi as int);
        let w: usize = if hi - lo >= 1 && ((9 <= s[hi - 1] && s[hi - 1] <= 13) || s[hi - 1] == 32) {
            1
        } else if hi - lo >= 2 && s[hi - 2] == 0xC2 && (s[hi - 1] == 0x85 || s[hi - 1] == 0xA0) {
            2
        } else if hi - lo >= 3 && is_wide_space(s[hi - 3], s[hi - 2], s[hi - 1]) {
            3
        } else {
            0
        };
        assert(w == space_at_end(rest));
        if w == 0 {
            break;
        }
        assert(rest.take(rest.len() - w) =~= s@.subrange(lo as int, hi - w));
        hi = hi - w;
    }
    slice_subrange(s, lo, hi)
}

/// The number that `s` denotes, with or without a plus sign; `None` if there is no digit, something else
/// than digits, or the number does not fit.
pub open spec fn size_of_text(s: Seq<u8>) -> Option<usize> {
    let digits = if s.len() > 0 && s[0] == 43 {
        s.skip(1)
    } else {
        s
    };
    if digits.len() > 0 && all_digits(digits) && decimal(digits) <= usize::MAX {
        Some(decimal(digits) as usize)
    } else {
        None
    }
}

/// Reads a number, with or without a plus sign.
pub fn parse_size(s: &[u8]) -> (r: Option<usize>)
    ensures
        r == size_of_text(s@),
{
    let digits: &[u8] = if s.len() > 0 && s[0] == 43 {
        let t: &[u8] = slice_subrange(s, 1, s.len());
        assert(t@ =~= s@.skip(1));
        t
    } else {
        s
    };
    if digits.len() == 0 {
        return None;
    }
    let mut acc: usize = 0;
    let mut i: usize = 0;
    assert(digits@.take(0) =~= Seq::empty());
    while i < digits.len()
        invariant
            i <= digits.len(),
            digits.len() > 0,
            all_digits(digits@.take(i as int)),
            acc == decimal(digits@.take(i as int)),
            size_of_text(s@) == (if all_digits(digits@) && decimal(digits@) <= usize::MAX {
                Some(decimal(digits@) as usize)
            } else {
                None
            }),
        decreases digits.len() - i,
    {
        let c: u8 = digits[i];
        if c < 48 || c > 57 {
            return None;
        }
        proof {
            assert(digits@.take(i + 1).drop_last() =~= digits@.take(i as int));
            if all_digits(digits@) {
                lemma_decimal_prefix(digits@, i + 1);
            }
        }
        let wide: usize = match acc.checked_mul(10) {
            Some(v) => v,
            None => {
                return None;
            },
        };
        let next: usize = match wide.checked_add((c - 48) as usize) {
            Some(v) => v,
            None => {
                return None;
            },
        };
        assert(all_digits(digits@.take(i + 1))) by {
            assert forall|j: int| 0 <= j < i + 1 implies 48 <= #[trigger] digits@.take(i + 1)[j]
                <= 57 by {
                if j < i {
                    assert(digits@.take(i as int)[j] == digits@[j]);
                }
            }
        }
        acc = next;
        i = i + 1;
    }
    assert(digits@.take(digits@.len() as int) =~= digits@);
    Some(acc)
}

} // verus!
