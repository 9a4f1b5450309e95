//! What trimming, numbers and settings mean, said of the text itself.
use crate::calendar::{all_digits, decimal, number};
use crate::config::{behind_colon, comma, items_from, port_from, port_of_text};
use crate::text::{size_of_text, space_at_end, space_at_start, trim_end, trim_start};
use crate::wire::{first_from, lemma_first_from, occurs};
use vstd::prelude::*;

verus! {

/// A whitespace character in UTF-8: tab, line feed, vertical tab, form feed, carriage return, space, U+0085,
/// U+00A0, U+1680, U+2000 to U+200A, U+2028, U+2029, U+202F, U+205F or U+3000.
pub open spec fn white(w: Seq<u8>) -> bool {
    ||| w.len() == 1 && (w[0] == 9 || w[0] == 10 || w[0] == 11 || w[0] == 12 || w[0] == 13 || w[0] == 32)
    ||| w.len() == 2 && w[0] == 0xC2 && (w[1] == 0x85 || w[1] == 0xA0)
    ||| w.len() == 3 && w[0] == 0xE1 && w[1] == 0x9A && w[2] == 0x80
    ||| w.len() == 3 && w[0] == 0xE2 && w[1] == 0x80 && (0x80 <= w[2] <= 0x8A || w[2] == 0xA8 || w[2]
        == 0xA9 || w[2] == 0xAF)
    ||| w.len() == 3 && w[0] == 0xE2 && w[1] == 0x81 && w[2] == 0x9F
    ||| w.len() == 3 && w[0] == 0xE3 && w[1] == 0x80 && w[2] == 0x80
}

/// Whitespace at the start goes, one character after the other, and nothing else does.
pub proof fn law_trim_start(w: Seq<u8>, s: Seq<u8>)
    ensures
        white(w) ==> trim_start(w + s) == trim_start(s),
        (forall|k: int| 0 < k <= 3 && k <= s.len() ==> !white(#[trigger] s.take(k))) ==> trim_start(s)
            == s,
{
    if white(w) {
        let t = w + s;
        assert(t[0] == w[0]);
        if w.len() >= 2 {
            assert(t[1] == w[1]);
        }
        if w.len() >= 3 {
            assert(t[2] == w[2]);
        }
        assert(space_at_start(t) == w.len());
        assert(t.skip(w.len() as int) =~= s);
    }
    if forall|k: int| 0 < k <= 3 && k <= s.len() ==> !white(#[trigger] s.take(k)) {
        if s.len() >= 1 {
            assert(!white(s.take(1)));
        }
        if s.len() >= 2 {
            assert(!white(s.take(2)));
        }
        if s.len() >= 3 {
            assert(!white(s.take(3)));
        }
    }
}

/// Whitespace at the end goes, one character after the other, and nothing else does.
pub proof fn law_trim_end(s: Seq<u8>, w: Seq<u8>)
    ensures
        white(w) ==> trim_end(s + w) == trim_end(s),
        (forall|k: int| 0 < k <= 3 && k <= s.len() ==> !white(#[trigger] s.skip(s.len() - k)))
            ==> trim_end(s) == s,
{
    let n = s.len() as int;
    if white(w) {
        let t = s + w;
        let m = t.len() as int;
        assert(t[m - 1] == w[w.len() - 1]);
        if w.len() >= 2 {
            assert(t[m - 2] == w[w.len() - 2]);
        }
        if w.len() >= 3 {
            assert(t[m - 3] == w[w.len() - 3]);
        }
        assert(space_at_end(t) == w.len());
        assert(t.take(m - w.len()) =~= s);
    }
    if forall|k: int| 0 < k <= 3 && k <= s.len() ==> !white(#[trigger] s.skip(s.len() - k)) {
        if n >= 1 {
            let a = s.skip(s.len() - 1);
            assert(!white(a) && a[0] == s[n - 1]);
        }
        if n >= 2 {
            let a = s.skip(s.len() - 2);
            assert(!white(a) && a[0] == s[n - 2] && a[1] == s[n - 1]);
        }
        if n >= 3 {
            let a = s.skip(s.len() - 3);
            assert(!white(a) && a[0] == s[n - 3] && a[1] == s[n - 2] && a[2] == s[n - 1]);
        }
    }
}

/// No digits denote zero, and one more digit makes the number ten times as large plus the digit.
pub proof fn law_decimal(s: Seq<u8>, c: u8)
    ensures
        decimal(Seq::<u8>::empty()) == 0,
        decimal(s.push(c)) == 10 * decimal(s) + (c - 48),
{
    assert(s.push(c).drop_last() =~= s);
}

/// Digits alone are a number where it fits; a plus sign before them changes nothing; anything else is none.
pub proof fn law_size_of_text(s: Seq<u8>)
    ensures
        ({
            let digits = s.len() > 0 && forall|i: int| 0 <= i < s.len() ==> 48 <= #[trigger] s[i] <= 57;
            &&& digits && decimal(s) <= usize::MAX ==> size_of_text(s) is Some && size_of_text(s).unwrap()
                == decimal(s)
            &&& digits && decimal(s) > usize::MAX ==> size_of_text(s) is None
            &&& digits ==> size_of_text(seq![43u8] + s) == size_of_text(s)
            &&& !digits ==> size_of_text(seq![43u8] + s) is None
            &&& !digits && !(s.len() > 0 && s[0] == 43) ==> size_of_text(s) is None
        }),
{
    let digits = s.len() > 0 && forall|i: int| 0 <= i < s.len() ==> 48 <= #[trigger] s[i] <= 57;
    let plus = seq![43u8] + s;
    assert(plus[0] == 43);
    assert(plus.skip(1) =~= s);
    if digits {
        assert(48 <= s[0] <= 57);
        assert(all_digits(s));
        crate::calendar::lemma_decimal_nonnegative(s);
    } else {
        assert(s.len() == 0 || !all_digits(s));
    }
}

/// A field of a timestamp, or a category, is a number if it has nothing but digits and the number fits.
pub proof fn law_number(s: Seq<u8>)
    ensures
        number(s) is Some <==> (forall|i: int| 0 <= i < s.len() ==> 48 <= #[trigger] s[i] <= 57)
            && decimal(s) <= 0xFFFF_FFFF,
        number(s) is Some ==> number(s).unwrap() == decimal(s),
{
    if all_digits(s) {
        crate::calendar::lemma_decimal_nonnegative(s);
    }
}

/// A port is a number up to 65535.
pub proof fn law_port_of_text(s: Seq<u8>)
    ensures
        port_of_text(s) is Some <==> size_of_text(s) is Some && size_of_text(s).unwrap() <= 65535,
        port_of_text(s) is Some ==> port_of_text(s).unwrap() == size_of_text(s).unwrap(),
{
}

proof fn lemma_behind_colon(s: Seq<u8>, n: int, at: int)
    requires
        0 <= at <= n <= s.len(),
        at == 0 || s[at - 1] == 58,
        forall|i: int| at <= i < n ==> #[trigger] s[i] != 58,
    ensures
        behind_colon(s, n) == at,
    decreases n,
{
    if n > at {
        assert(s[n - 1] != 58);
        lemma_behind_colon(s, n - 1, at);
    }
}

/// A port that is set and can be read is used. Else it is what stands behind the last colon of the address to
/// bind to, or the whole address if it has no colon, where that can be read. Else it is 9999.
pub proof fn law_port(port: Option<Seq<u8>>, front: Seq<u8>, back: Seq<u8>)
    requires
        forall|i: int| 0 <= i < back.len() ==> #[trigger] back[i] != 58,
    ensures
        port is Some && port_of_text(port.unwrap()) is Some ==> forall|bind: Option<Seq<u8>>| #[trigger]
            port_from(port, bind) == port_of_text(port.unwrap()).unwrap(),
        port is None || port_of_text(port.unwrap()) is None ==> {
            &&& port_from(port, None) == 9999
            &&& port_of_text(back) is Some ==> port_from(port, Some(front + seq![58u8] + back))
                == port_of_text(back).unwrap() && port_from(port, Some(back)) == port_of_text(
                back,
            ).unwrap()
            &&& port_of_text(back) is None ==> port_from(port, Some(front + seq![58u8] + back)) == 9999
                && port_from(port, Some(back)) == 9999
        },
{
    let s = front + seq![58u8] + back;
    let at = front.len() + 1;
    assert forall|i: int| at <= i < s.len() implies #[trigger] s[i] != 58 by {
        assert(s[i] == back[i - at]);
    }
    assert(s[at - 1] == 58);
    lemma_behind_colon(s, s.len() as int, at as int);
    assert(s.skip(at as int) =~= back);
    lemma_behind_colon(back, back.len() as int, 0);
    assert(back.skip(0) =~= back);
}

proof fn lemma_comma(s: Seq<u8>, at: int, end: int)
    requires
        0 <= at <= end <= s.len(),
        end < s.len() ==> s[end] == 44,
        forall|i: int| at <= i < end ==> #[trigger] s[i] != 44,
    ensures
        first_from(s, comma(), at) == end,
{
    lemma_first_from(s, comma(), at);
    let p = first_from(s, comma(), at);
    if p < s.len() {
        assert(s.subrange(p, p + 1)[0] == s[p]);
    }
    if end < s.len() {
        assert(s.subrange(end, end + 1) =~= comma());
        assert(occurs(s, comma(), end));
    }
}

proof fn lemma_items_behind(a: Seq<u8>, t: Seq<u8>, at: int)
    requires
        0 <= at <= t.len(),
    ensures
        items_from(a + t, a.len() + at) == items_from(t, at),
    decreases t.len() - at,
{
    let s = a + t;
    let n = a.len() as int;
    let end = first_from(t, comma(), at);
    lemma_first_from(t, comma(), at);
    assert forall|i: int| n + at <= i < n + end implies #[trigger] s[i] != 44 by {
        assert(s[i] == t[i - n]);
        if t[i - n] == 44 {
            assert(t.subrange(i - n, i - n + 1) =~= comma());
            assert(occurs(t, comma(), i - n));
        }
    }
    if end < t.len() {
        assert(t.subrange(end, end + 1)[0] == t[end]);
        assert(s[n + end] == t[end]);
    }
    lemma_comma(s, n + at, n + end);
    assert(s.subrange(n + at, n + end) =~= t.subrange(at, end));
    if end < t.len() {
        lemma_items_behind(a, t, end + 1);
    }
}

/// A list without a comma has one item: the text without the whitespace around it, or none if that is empty.
/// Commas join lists.
pub proof fn law_items(s: Seq<u8>, t: Seq<u8>)
    requires
        forall|i: int| 0 <= i < s.len() ==> #[trigger] s[i] != 44,
    ensures
        ({
            let item = trim_end(trim_start(s));
            items_from(s, 0) == if item.len() > 0 {
                seq![item]
            } else {
                Seq::<Seq<u8>>::empty()
            }
        }),
        items_from(s + seq![44u8] + t, 0) == items_from(s, 0) + items_from(t, 0),
{
    let n = s.len() as int;
    lemma_comma(s, 0, n);
    assert(s.subrange(0, n) =~= s);
    let item = trim_end(trim_start(s));
    assert(items_from(s, 0) =~= if item.len() > 0 {
        seq![item]
    } else {
        Seq::<Seq<u8>>::empty()
    });
    let a = s + seq![44u8];
    let all = a + t;
    assert forall|i: int| 0 <= i < n implies #[trigger] all[i] != 44 by {
        assert(all[i] == s[i]);
    }
    assert(all[n] == 44);
    lemma_comma(all, 0, n);
    assert(all.subrange(0, n) =~= s);
    lemma_items_behind(a, t, 0);
    assert(items_from(all, 0) =~= items_from(s, 0) + items_from(t, 0));
}

} // verus!
