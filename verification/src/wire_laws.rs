//! What the recognition of requests is for, said of the bytes themselves.
use crate::text::{size_of_text, trim_end, trim_start};
use crate::wire::{
    BLANK_LINE, CRLF, GET, LENGTH_LOWER, LENGTH_MIXED, LENGTH_TITLE, POST, READY_PATH, SCORE_PATH,
    first_from, first_place, headers_end, is_length_line, law_step_bounds, lemma_first_from,
    length_from, length_of, occurs, request_line, serve, space, step_of, Step,
};
use vstd::prelude::*;
use vstd::utf8::valid_utf8;

verus! {

/// A carriage return and a line feed stand at `i`.
pub open spec fn break_at(s: Seq<u8>, i: int) -> bool {
    0 <= i && i + 1 < s.len() && s[i] == 13 && s[i + 1] == 10
}

/// Two line breaks stand at `i`.
pub open spec fn blank_line_at(s: Seq<u8>, i: int) -> bool {
    0 <= i && i + 3 < s.len() && s[i] == 13 && s[i + 1] == 10 && s[i + 2] == 13 && s[i + 3] == 10
}

/// A line begins at `a`: at the very beginning or behind a line break.
pub open spec fn line_begins(s: Seq<u8>, a: int) -> bool {
    a == 0 || break_at(s, a - 2)
}

/// The line that begins at `a` ends at `b`: at its first line break or at the end.
pub open spec fn line_ends(s: Seq<u8>, a: int, b: int) -> bool {
    &&& a <= b <= s.len()
    &&& b == s.len() || break_at(s, b)
    &&& forall|i: int| a <= i < b ==> !#[trigger] break_at(s, i)
}

/// `Content-Length:`, `content-length:` or `Content-length:` stands at `a`.
pub open spec fn title_at(s: Seq<u8>, a: int) -> bool {
    &&& 0 <= a
    &&& a + 15 <= s.len()
    &&& (s[a] == 67 && s[a + 8] == 76 || s[a] == 99 && s[a + 8] == 108 || s[a] == 67 && s[a + 8]
        == 108)
    &&& s[a + 1] == 111
    &&& s[a + 2] == 110
    &&& s[a + 3] == 116
    &&& s[a + 4] == 101
    &&& s[a + 5] == 110
    &&& s[a + 6] == 116
    &&& s[a + 7] == 45
    &&& s[a + 9] == 101
    &&& s[a + 10] == 110
    &&& s[a + 11] == 103
    &&& s[a + 12] == 116
    &&& s[a + 13] == 104
    &&& s[a + 14] == 58
}

proof fn lemma_break(s: Seq<u8>, i: int)
    ensures
        occurs(s, CRLF@, i) <==> break_at(s, i),
{
    if break_at(s, i) {
        assert(s.subrange(i, i + 2) =~= CRLF@);
    }
    if occurs(s, CRLF@, i) {
        assert(s.subrange(i, i + 2)[0] == s[i]);
        assert(s.subrange(i, i + 2)[1] == s[i + 1]);
        assert(CRLF@[0] == 13 && CRLF@[1] == 10);
    }
}

proof fn lemma_blank_line(s: Seq<u8>, i: int)
    ensures
        occurs(s, BLANK_LINE@, i) <==> blank_line_at(s, i),
{
    let t = s.subrange(i, i + 4);
    if blank_line_at(s, i) {
        assert(t =~= BLANK_LINE@);
    }
    if occurs(s, BLANK_LINE@, i) {
        assert(t[0] == s[i] && t[1] == s[i + 1] && t[2] == s[i + 2] && t[3] == s[i + 3]);
        assert(BLANK_LINE@[0] == 13 && BLANK_LINE@[1] == 10);
        assert(BLANK_LINE@[2] == 13 && BLANK_LINE@[3] == 10);
    }
}

proof fn lemma_title(s: Seq<u8>, a: int, b: int)
    requires
        0 <= a,
        line_ends(s, a, b),
    ensures
        is_length_line(s.subrange(a, b)) <==> title_at(s, a),
        title_at(s, a) ==> a + 15 <= b,
{
    let line = s.subrange(a, b);
    let t = line.subrange(0, 15);
    if title_at(s, a) {
        if b < a + 15 {
            assert(break_at(s, b));
            assert(s[b] == 13);
        }
        if s[a] == 99 {
            assert(t =~= LENGTH_LOWER@);
        } else if s[a + 8] == 76 {
            assert(t =~= LENGTH_TITLE@);
        } else {
            assert(t =~= LENGTH_MIXED@);
        }
    }
    if is_length_line(line) {
        assert forall|i: int| 0 <= i < 15 implies #[trigger] t[i] == s[a + i] by {}
        assert(t == LENGTH_TITLE@ || t == LENGTH_LOWER@ || t == LENGTH_MIXED@);
        assert(t[0] == s[a] && t[1] == s[a + 1] && t[2] == s[a + 2] && t[3] == s[a + 3]);
        assert(t[4] == s[a + 4] && t[5] == s[a + 5] && t[6] == s[a + 6] && t[7] == s[a + 7]);
        assert(t[8] == s[a + 8] && t[9] == s[a + 9] && t[10] == s[a + 10] && t[11] == s[a + 11]);
        assert(t[12] == s[a + 12] && t[13] == s[a + 13] && t[14] == s[a + 14]);
    }
}

proof fn lemma_line_end(s: Seq<u8>, a: int)
    requires
        0 <= a <= s.len(),
    ensures
        line_ends(s, a, first_from(s, CRLF@, a)),
{
    lemma_first_from(s, CRLF@, a);
    let end = first_from(s, CRLF@, a);
    if end < s.len() {
        lemma_break(s, end);
    }
    assert forall|i: int| a <= i < end implies !#[trigger] break_at(s, i) by {
        lemma_break(s, i);
        assert(!occurs(s, CRLF@, i));
    }
}

proof fn lemma_length_from(headers: Seq<u8>, at: int, a: int, b: int)
    requires
        0 <= at <= a,
        line_begins(headers, at),
        line_begins(headers, a),
        line_ends(headers, a, b),
        title_at(headers, a),
        forall|e: int| at <= e < a && line_begins(headers, e) ==> !#[trigger] title_at(headers, e),
    ensures
        length_from(headers, at) == size_of_text(
            trim_end(trim_start(headers.subrange(a + 15, b))),
        ),
    decreases a - at,
{
    let end = first_from(headers, CRLF@, at);
    lemma_line_end(headers, at);
    lemma_title(headers, at, end);
    if at == a {
        assert(end == b) by {
            if end < b {
                assert(break_at(headers, end));
            }
            if b < end {
                assert(break_at(headers, b));
            }
        }
        assert(headers.subrange(a, b).skip(15) =~= headers.subrange(a + 15, b));
    } else {
        assert(!title_at(headers, at));
        assert(break_at(headers, a - 2));
        assert(a - 2 >= at);
        assert(end <= a - 2);
        lemma_length_from(headers, end + 2, a, b);
    }
}

proof fn lemma_no_length_from(headers: Seq<u8>, at: int)
    requires
        0 <= at <= headers.len(),
        line_begins(headers, at),
        forall|e: int| line_begins(headers, e) ==> !#[trigger] title_at(headers, e),
    ensures
        length_from(headers, at) is None,
    decreases headers.len() - at,
{
    let end = first_from(headers, CRLF@, at);
    lemma_line_end(headers, at);
    lemma_title(headers, at, end);
    assert(!title_at(headers, at));
    if end < headers.len() {
        lemma_no_length_from(headers, end + 2);
    }
}

/// Of headers in UTF-8, the first line that begins with a content-length title gives the length, wherever it
/// stands: what is behind the title, without the whitespace around it, read as a number.
pub proof fn law_first_title_gives_length(headers: Seq<u8>, a: int, b: int)
    requires
        valid_utf8(headers),
        0 <= a,
        line_begins(headers, a),
        line_ends(headers, a, b),
        title_at(headers, a),
        forall|e: int| 0 <= e < a && line_begins(headers, e) ==> !#[trigger] title_at(headers, e),
    ensures
        length_of(headers) == size_of_text(trim_end(trim_start(headers.subrange(a + 15, b)))),
{
    lemma_length_from(headers, 0, a, b);
}

/// There is no content length where no line begins with a title, nor where the headers are not UTF-8.
pub proof fn law_no_title_no_length(headers: Seq<u8>)
    requires
        !valid_utf8(headers) || forall|e: int|
            line_begins(headers, e) ==> !#[trigger] title_at(headers, e),
    ensures
        length_of(headers) is None,
{
    if valid_utf8(headers) {
        lemma_no_length_from(headers, 0);
    }
}

proof fn lemma_title_of_length(headers: Seq<u8>, at: int) -> (line: (int, int))
    requires
        0 <= at <= headers.len(),
        line_begins(headers, at),
        length_from(headers, at) is Some,
    ensures
        at <= line.0,
        line_begins(headers, line.0),
        line_ends(headers, line.0, line.1),
        title_at(headers, line.0),
        forall|e: int|
            at <= e < line.0 && line_begins(headers, e) ==> !#[trigger] title_at(headers, e),
    decreases headers.len() - at,
{
    let end = first_from(headers, CRLF@, at);
    lemma_line_end(headers, at);
    lemma_title(headers, at, end);
    if title_at(headers, at) {
        (at, end)
    } else {
        let line = lemma_title_of_length(headers, end + 2);
        assert forall|e: int| at <= e < line.0 && line_begins(headers, e) implies !#[trigger] title_at(
            headers,
            e,
        ) by {
            if at < e < end + 2 {
                assert(break_at(headers, e - 2));
                if e - 2 >= at {
                    assert(!break_at(headers, e - 2));
                }
            }
        }
        line
    }
}

/// Where there is a content length, it comes from a line that begins with a title, the first such line.
pub proof fn law_length_has_title(headers: Seq<u8>) -> (line: (int, int))
    requires
        length_of(headers) is Some,
    ensures
        valid_utf8(headers),
        0 <= line.0,
        line_begins(headers, line.0),
        line_ends(headers, line.0, line.1),
        title_at(headers, line.0),
        forall|e: int|
            0 <= e < line.0 && line_begins(headers, e) ==> !#[trigger] title_at(headers, e),
        length_of(headers) == size_of_text(
            trim_end(trim_start(headers.subrange(line.0 + 15, line.1))),
        ),
{
    let line = lemma_title_of_length(headers, 0);
    law_first_title_gives_length(headers, line.0, line.1);
    line
}

/// The headers end behind the first two line breaks in a row, and only there.
pub proof fn law_headers_end(buf: Seq<u8>)
    ensures
        headers_end(buf) is None <==> forall|i: int| !#[trigger] blank_line_at(buf, i),
        headers_end(buf) matches Some(end) ==> blank_line_at(buf, end - 4) && forall|i: int|
            i < end - 4 ==> !#[trigger] blank_line_at(buf, i),
{
    lemma_first_from(buf, BLANK_LINE@, 0);
    let p = first_from(buf, BLANK_LINE@, 0);
    if p < buf.len() {
        lemma_blank_line(buf, p);
    }
    assert forall|i: int| 0 <= i < p implies !#[trigger] blank_line_at(buf, i) by {
        lemma_blank_line(buf, i);
        assert(!occurs(buf, BLANK_LINE@, i));
    }
}

/// No space stands in `s` from `a` up to `b`.
pub open spec fn no_space(s: Seq<u8>, a: int, b: int) -> bool {
    forall|i: int| a <= i < b ==> #[trigger] s[i] != 32
}

proof fn lemma_space(s: Seq<u8>, x: int)
    requires
        0 <= x <= s.len(),
        x < s.len() ==> s[x] == 32,
        no_space(s, 0, x),
    ensures
        first_from(s, space(), 0) == x,
{
    lemma_first_from(s, space(), 0);
    let p = first_from(s, space(), 0);
    if p < s.len() {
        assert(s.subrange(p, p + 1)[0] == s[p]);
    }
    if x < s.len() {
        assert(s.subrange(x, x + 1) =~= space());
        assert(occurs(s, space(), x));
    }
}

/// A request line with two spaces has its method before the first and its path between them.
pub proof fn law_request_line(line: Seq<u8>, x: int, y: int)
    requires
        0 <= x < y < line.len(),
        line[x] == 32,
        line[y] == 32,
        no_space(line, 0, x),
        no_space(line, x + 1, y),
    ensures
        request_line(line) == Some((line.subrange(0, x), line.subrange(x + 1, y))),
{
    lemma_space(line, x);
    let rest = line.skip(x + 1);
    assert forall|i: int| 0 <= i < y - x - 1 implies #[trigger] rest[i] != 32 by {
        assert(line[x + 1 + i] != 32);
    }
    lemma_space(rest, y - x - 1);
    assert(line.take(x) =~= line.subrange(0, x));
    assert(rest.take(y - x - 1) =~= line.subrange(x + 1, y));
}

/// A request line with fewer than two spaces is none.
pub proof fn law_no_request_line(line: Seq<u8>, x: int)
    requires
        0 <= x <= line.len(),
        no_space(line, 0, x),
        no_space(line, x + 1, line.len() as int),
    ensures
        request_line(line) is None,
{
    if x < line.len() && line[x] == 32 {
        lemma_space(line, x);
        let rest = line.skip(x + 1);
        assert forall|i: int| 0 <= i < rest.len() implies #[trigger] rest[i] != 32 by {
            assert(line[x + 1 + i] != 32);
        }
        lemma_space(rest, rest.len() as int);
    } else {
        assert(no_space(line, 0, line.len() as int));
        lemma_space(line, line.len() as int);
    }
}

/// `GET /ready`
pub open spec fn asks_ready(method: Seq<u8>, path: Seq<u8>) -> bool {
    method == seq![71u8, 69, 84] && path == seq![47u8, 114, 101, 97, 100, 121]
}

/// `POST /fraud-score`
pub open spec fn asks_score(method: Seq<u8>, path: Seq<u8>) -> bool {
    method == seq![80u8, 79, 83, 84] && path == seq![
        47u8,
        102,
        114,
        97,
        117,
        100,
        45,
        115,
        99,
        111,
        114,
        101,
    ]
}

/// Without two line breaks in a row more bytes are needed.
pub proof fn law_incomplete_headers_need_more(buf: Seq<u8>)
    requires
        forall|i: int| !#[trigger] blank_line_at(buf, i),
    ensures
        step_of(buf) == Step::NeedMore,
{
    law_headers_end(buf);
}

/// With headers up to `end`, a first line up to `l`, and spaces at `x` and `y` of it: `GET /ready` is
/// answered, `POST /fraud-score` is scored once its payload is there, and anything else is not found.
pub proof fn law_request_is_answered(buf: Seq<u8>, end: int, l: int, x: int, y: int)
    requires
        buf.len() <= usize::MAX,
        blank_line_at(buf, end - 4),
        forall|i: int| i < end - 4 ==> !#[trigger] blank_line_at(buf, i),
        line_ends(buf, 0, l),
        0 <= x < y < l,
        buf[x] == 32,
        buf[y] == 32,
        no_space(buf, 0, x),
        no_space(buf, x + 1, y),
    ensures
        ({
            let method = buf.subrange(0, x);
            let path = buf.subrange(x + 1, y);
            let length = length_of(buf.subrange(0, end));
            &&& asks_ready(method, path) ==> step_of(buf) == Step::Ready(end as usize)
            &&& asks_score(method, path) && length is None ==> step_of(buf) == Step::Drop
            &&& asks_score(method, path) && length is Some && end + length.unwrap() <= buf.len()
                ==> step_of(buf) == Step::Score(end as usize, (end + length.unwrap()) as usize)
            &&& asks_score(method, path) && length is Some && end + length.unwrap() > buf.len()
                ==> step_of(buf) == Step::NeedMore
            &&& !asks_ready(method, path) && !asks_score(method, path) ==> step_of(buf)
                == Step::NotFound(end as usize)
        }),
{
    lemma_first_line(buf, end, l);
    let line = buf.take(l);
    assert(forall|i: int| 0 <= i < l ==> line[i] == buf[i]);
    law_request_line(line, x, y);
    assert(line.subrange(0, x) =~= buf.subrange(0, x));
    assert(line.subrange(x + 1, y) =~= buf.subrange(x + 1, y));
    assert(buf.take(end) =~= buf.subrange(0, end));
    assert(GET@ =~= seq![71u8, 69, 84]);
    assert(POST@ =~= seq![80u8, 79, 83, 84]);
    assert(READY_PATH@ =~= seq![47u8, 114, 101, 97, 100, 121]);
    assert(SCORE_PATH@ =~= seq![47u8, 102, 114, 97, 117, 100, 45, 115, 99, 111, 114, 101]);
}

/// A first line with fewer than two spaces closes the connection.
pub proof fn law_bad_request_line_drops(buf: Seq<u8>, end: int, l: int, x: int)
    requires
        blank_line_at(buf, end - 4),
        forall|i: int| i < end - 4 ==> !#[trigger] blank_line_at(buf, i),
        line_ends(buf, 0, l),
        0 <= x <= l,
        no_space(buf, 0, x),
        no_space(buf, x + 1, l),
    ensures
        step_of(buf) == Step::Drop,
{
    lemma_first_line(buf, end, l);
    let line = buf.take(l);
    assert(forall|i: int| 0 <= i < l ==> line[i] == buf[i]);
    law_no_request_line(line, x);
}

proof fn lemma_first_line(buf: Seq<u8>, end: int, l: int)
    requires
        blank_line_at(buf, end - 4),
        forall|i: int| i < end - 4 ==> !#[trigger] blank_line_at(buf, i),
        line_ends(buf, 0, l),
    ensures
        headers_end(buf) == Some(end),
        first_from(buf, CRLF@, 0) == l,
        l <= end - 4,
{
    law_headers_end(buf);
    lemma_line_end(buf, 0);
    let e = first_from(buf, CRLF@, 0);
    assert(break_at(buf, end - 4));
    if e < l {
        assert(break_at(buf, e));
    }
    if l < e {
        assert(break_at(buf, l));
    }
    let h = headers_end(buf).unwrap();
    if h < end {
        assert(blank_line_at(buf, h - 4));
    }
    if end < h {
        assert(blank_line_at(buf, end - 4));
    }
}

/// Requests are handled one after the other, each with the bytes up to its end, until there is none that can be.
pub proof fn law_serve(buf: Seq<u8>)
    requires
        buf.len() <= usize::MAX,
    ensures
        ({
            let step = step_of(buf);
            let end = match step {
                Step::Ready(e) => e as int,
                Step::NotFound(e) => e as int,
                Step::Score(_, e) => e as int,
                _ => 0,
            };
            &&& step == Step::NeedMore || step == Step::Drop ==> serve(buf) == (Seq::<Step>::empty(), buf)
            &&& step != Step::NeedMore && step != Step::Drop ==> 4 <= end <= buf.len() && serve(buf) == (
                seq![step] + serve(buf.skip(end)).0,
                serve(buf.skip(end)).1,
            )
        }),
{
    law_step_bounds(buf);
}

/// A text is found at the first place where it stands, and not at all if it stands nowhere.
pub proof fn law_first_place(s: Seq<u8>, pat: Seq<u8>)
    requires
        pat.len() > 0,
    ensures
        first_place(s, pat) matches Some(p) ==> {
            &&& 0 <= p && p + pat.len() <= s.len()
            &&& s.subrange(p, p + pat.len()) == pat
            &&& forall|i: int| 0 <= i < p ==> #[trigger] s.subrange(i, i + pat.len()) != pat
        },
        first_place(s, pat) is None ==> forall|i: int|
            0 <= i && i + pat.len() <= s.len() ==> #[trigger] s.subrange(i, i + pat.len()) != pat,
{
    lemma_first_from(s, pat, 0);
    let p = first_from(s, pat, 0);
    assert forall|i: int| 0 <= i < p && i + pat.len() <= s.len() implies #[trigger] s.subrange(
        i,
        i + pat.len(),
    ) != pat by {
        assert(!occurs(s, pat, i));
    }
}

} // verus!
