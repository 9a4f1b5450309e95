//! Recognising requests in the bytes of a connection.
use crate::text::{is_utf8, parse_size, size_of_text, trim, trim_end, trim_start};
use vstd::prelude::*;
use vstd::slice::slice_subrange;
use vstd::utf8::valid_utf8;

verus! {

/// `GET`
pub const GET: [u8; 3] = [71, 69, 84];

/// `POST`
pub const POST: [u8; 4] = [80, 79, 83, 84];

/// `/ready`
pub const READY_PATH: [u8; 6] = [47, 114, 101, 97, 100, 121];

/// `/fraud-score`
pub const SCORE_PATH: [u8; 12] = [47, 102, 114, 97, 117, 100, 45, 115, 99, 111, 114, 101];

/// A line break.
pub const CRLF: [u8; 2] = [13, 10];

/// The end of the headers: two line breaks.
pub const BLANK_LINE: [u8; 4] = [13, 10, 13, 10];

/// `Content-Length:`
pub const LENGTH_TITLE: [u8; 15] = [
    67, 111, 110, 116, 101, 110, 116, 45, 76, 101, 110, 103, 116, 104, 58,
];

/// `content-length:`
pub const LENGTH_LOWER: [u8; 15] = [
    99, 111, 110, 116, 101, 110, 116, 45, 108, 101, 110, 103, 116, 104, 58,
];

/// `Content-length:`
pub const LENGTH_MIXED: [u8; 15] = [
    67, 111, 110, 116, 101, 110, 116, 45, 108, 101, 110, 103, 116, 104, 58,
];

/// Whether `pat` stands in `s` at `i`.
pub open spec fn occurs(s: Seq<u8>, pat: Seq<u8>, i: int) -> bool {
    &&& 0 <= i
    &&& i + pat.len() <= s.len()
    &&& s.subrange(i, i + pat.len()) == pat
}

/// The first place from `i` on where `pat` stands in `s`; `s.len()` if there is none.
pub open spec fn first_from(s: Seq<u8>, pat: Seq<u8>, i: int) -> int
    decreases s.len() - i,
{
    if i >= s.len() {
        s.len() as int
    } else if occurs(s, pat, i) {
        i
    } else {
        first_from(s, pat, i + 1)
    }
}

/// The first place where `pat` stands in `s`.
pub open spec fn first_place(s: Seq<u8>, pat: Seq<u8>) -> Option<int> {
    let p = first_from(s, pat, 0);
    if p < s.len() {
        Some(p)
    } else {
        None
    }
}

pub proof fn lemma_first_from(s: Seq<u8>, pat: Seq<u8>, i: int)
    requires
        0 <= i <= s.len(),
        pat.len() > 0,
    ensures
        i <= first_from(s, pat, i) <= s.len(),
        first_from(s, pat, i) < s.len() ==> occurs(s, pat, first_from(s, pat, i)),
        forall|j: int| i <= j < first_from(s, pat, i) ==> !#[trigger] occurs(s, pat, j),
    decreases s.len() - i,
{
    if i < s.len() && !occurs(s, pat, i) {
        lemma_first_from(s, pat, i + 1);
    }
}

/// Whether `pat` stands in `s` at `i`.
fn matches_at(s: &[u8], pat: &[u8], i: usize) -> (r: bool)
    requires
        i <= s.len(),
    ensures
        r == occurs(s@, pat@, i as int),
{
    if s.len() - i < pat.len() {
        return false;
    }
    let mut j: usize = 0;
    while j < pat.len()
        invariant
            j <= pat.len(),
            i + pat.len() <= s.len(),
            forall|k: int| 0 <= k < j ==> s@[i + k] == #[trigger] pat@[k],
        decreases pat.len() - j,
    {
        if s[i + j] != pat[j] {
            assert(s@.subrange(i as int, i + pat@.len())[j as int] != pat@[j as int]);
            return false;
        }
        j = j + 1;
    }
    assert(s@.subrange(i as int, i + pat@.len()) =~= pat@);
    true
}

/// The first place from `from` on where `pat` stands in `s`; `s.len()` if there is none.
pub fn find_from(s: &[u8], pat: &[u8], from: usize) -> (p: usize)
    requires
        from <= s.len(),
    ensures
        p == first_from(s@, pat@, from as int),
{
    let mut i: usize = from;
    while i < s.len()
        invariant
            i <= s.len(),
            first_from(s@, pat@, from as int) == first_from(s@, pat@, i as int),
        decreases s.len() - i,
    {
        if matches_at(s, pat, i) {
            return i;
        }
        i = i + 1;
    }
    i
}

/// The end of the headers: behind the first blank line.
pub open spec fn headers_end(buf: Seq<u8>) -> Option<int> {
    match first_place(buf, BLANK_LINE@) {
        Some(p) => Some(p + 4),
        None => None,
    }
}

/// The end of the headers: behind the first blank line.
pub fn find_double_crlf(buf: &[u8]) -> (r: Option<usize>)
    ensures
        r is Some <==> headers_end(buf@) is Some,
        r is Some ==> r.unwrap() == headers_end(buf@).unwrap() && 4 <= r.unwrap() <= buf.len(),
{
    let p: usize = find_from(buf, &BLANK_LINE, 0);
    proof {
        lemma_first_from(buf@, BLANK_LINE@, 0);
    }
    if p < buf.len() {
        Some(p + 4)
    } else {
        None
    }
}

/// The first line break.
pub fn memchr_crlf(buf: &[u8]) -> (r: Option<usize>)
    ensures
        r is Some <==> first_place(buf@, CRLF@) is Some,
        r is Some ==> r.unwrap() == first_place(buf@, CRLF@).unwrap() && r.unwrap() + 2 <= buf.len(),
{
    let p: usize = find_from(buf, &CRLF, 0);
    proof {
        lemma_first_from(buf@, CRLF@, 0);
    }
    if p < buf.len() {
        Some(p)
    } else {
        None
    }
}

/// A space.
pub open spec fn space() -> Seq<u8> {
    seq![32u8]
}

/// The parts of a request line before the first and the second space.
pub open spec fn request_line(line: Seq<u8>) -> Option<(Seq<u8>, Seq<u8>)> {
    match first_place(line, space()) {
        None => None,
        Some(a) => {
            let rest = line.skip(a + 1);
            match first_place(rest, space()) {
                None => None,
                Some(b) => Some((line.take(a), rest.take(b))),
            }
        },
    }
}

fn find_space(s: &[u8]) -> (p: usize)
    ensures
        p == first_from(s@, space(), 0),
        p <= s.len(),
{
    let pat: [u8; 1] = [32u8];
    assert(pat@ =~= space());
    let p: usize = find_from(s, &pat, 0);
    proof {
        lemma_first_from(s@, space(), 0);
    }
    p
}

/// The method and the path of a request line.
pub fn parse_request_line(line: &[u8]) -> (r: Option<(&[u8], &[u8])>)
    ensures
        r is Some <==> request_line(line@) is Some,
        r is Some ==> (r.unwrap().0@, r.unwrap().1@) == request_line(line@).unwrap(),
{
    let sp1: usize = find_space(line);
    if sp1 >= line.len() {
        return None;
    }
    let rest: &[u8] = slice_subrange(line, sp1 + 1, line.len());
    assert(rest@ =~= line@.skip(sp1 + 1));
    let sp2: usize = find_space(rest);
    if sp2 >= rest.len() {
        return None;
    }
    let method: &[u8] = slice_subrange(line, 0, sp1);
    let path: &[u8] = slice_subrange(rest, 0, sp2);
    assert(method@ =~= line@.take(sp1 as int));
    assert(path@ =~= rest@.take(sp2 as int));
    Some((method, path))
}

/// Whether a line is a content-length header, in one of three spellings.
pub open spec fn is_length_line(line: Seq<u8>) -> bool {
    ||| occurs(line, LENGTH_TITLE@, 0)
    ||| occurs(line, LENGTH_LOWER@, 0)
    ||| occurs(line, LENGTH_MIXED@, 0)
}

/// The content length that the lines from `at` on give: that of the first content-length header.
pub open spec fn length_from(headers: Seq<u8>, at: int) -> Option<usize>
    decreases headers.len() + 2 - at,
{
    if at < 0 || at > headers.len() {
        None
    } else {
        let end = first_from(headers, CRLF@, at);
        let line = headers.subrange(at, end);
        if is_length_line(line) {
            size_of_text(trim_end(trim_start(line.skip(15))))
        } else if at <= end < headers.len() {
            length_from(headers, end + 2)
        } else {
            None
        }
    }
}

/// The content length that headers give; `None` if they are not UTF-8.
pub open spec fn length_of(headers: Seq<u8>) -> Option<usize> {
    if valid_utf8(headers) {
        length_from(headers, 0)
    } else {
        None
    }
}

/// The content length that headers give.
pub fn content_length(headers: &[u8]) -> (r: Option<usize>)
    ensures
        r == length_of(headers@),
{
    if !is_utf8(headers) {
        return None;
    }
    let mut at: usize = 0;
    loop
        invariant
            at <= headers.len(),
            valid_utf8(headers@),
            length_from(headers@, 0) == length_from(headers@, at as int),
        decreases headers.len() - at,
    {
        let end: usize = find_from(headers, &CRLF, at);
        proof {
            lemma_first_from(headers@, CRLF@, at as int);
        }
        let line: &[u8] = slice_subrange(headers, at, end);
        if matches_at(line, &LENGTH_TITLE, 0) || matches_at(line, &LENGTH_LOWER, 0) || matches_at(
            line,
            &LENGTH_MIXED,
            0,
        ) {
            let rest: &[u8] = slice_subrange(line, 15, line.len());
            assert(rest@ =~= line@.skip(15));
            return parse_size(trim(rest));
        }
        if end >= headers.len() {
            return None;
        }
        at = end + 2;
    }
}

/// What to do with the bytes of a connection that are not handled yet.
#[derive(Debug, Clone, Copy, PartialEq, Eq, Structural)]
pub enum Step {
    /// Read more bytes first.
    NeedMore,
    /// Close the connection.
    Drop,
    /// Answer that the server is ready; so many bytes are handled then.
    Ready(usize),
    /// Answer that there is nothing here; so many bytes are handled then.
    NotFound(usize),
    /// Score the payload between the two places; the bytes up to the second are handled then.
    Score(usize, usize),
}

impl Step {
    /// Number of bytes that are handled.
    pub open spec fn consumed(self) -> int {
        match self {
            Step::NeedMore => 0,
            Step::Drop => 0,
            Step::Ready(n) => n as int,
            Step::NotFound(n) => n as int,
            Step::Score(_, n) => n as int,
        }
    }

    /// Whether a request was recognised.
    pub open spec fn handles(self) -> bool {
        self is Ready || self is NotFound || self is Score
    }
}

/// What to do with `buf`.
pub open spec fn step_of(buf: Seq<u8>) -> Step {
    match headers_end(buf) {
        None => Step::NeedMore,
        Some(end) => {
            let line = buf.take(first_from(buf, CRLF@, 0));
            match request_line(line) {
                None => Step::Drop,
                Some((method, path)) => {
                    if method == GET@ && path == READY_PATH@ {
                        Step::Ready(end as usize)
                    } else if method == POST@ && path == SCORE_PATH@ {
                        match length_of(buf.take(end)) {
                            None => Step::Drop,
                            Some(n) => if buf.len() < end + n {
                                Step::NeedMore
                            } else {
                                Step::Score(end as usize, (end + n) as usize)
                            },
                        }
                    } else {
                        Step::NotFound(end as usize)
                    }
                },
            }
        },
    }
}

fn same(a: &[u8], b: &[u8]) -> (r: bool)
    ensures
        r == (a@ == b@),
{
    if a.len() != b.len() {
        return false;
    }
    let r: bool = matches_at(a, b, 0);
    assert(a@.subrange(0, a@.len() as int) =~= a@);
    r
}

/// Decides what to do with `buf`.
pub fn next_step(buf: &[u8]) -> (step: Step)
    ensures
        step == step_of(buf@),
{
    let header_end: usize = match find_double_crlf(buf) {
        Some(p) => p,
        None => {
            return Step::NeedMore;
        },
    };
    proof {
        lemma_blank_line_has_break(buf@);
    }
    let line_end: usize = match memchr_crlf(buf) {
        Some(p) => p,
        None => {
            return Step::NeedMore;
        },
    };
    let line: &[u8] = slice_subrange(buf, 0, line_end);
    assert(line@ =~= buf@.take(line_end as int));
    let (method, path): (&[u8], &[u8]) = match parse_request_line(line) {
        Some(x) => x,
        None => {
            return Step::Drop;
        },
    };
    if same(method, &GET) && same(path, &READY_PATH) {
        return Step::Ready(header_end);
    }
    if same(method, &POST) && same(path, &SCORE_PATH) {
        let headers: &[u8] = slice_subrange(buf, 0, header_end);
        assert(headers@ =~= buf@.take(header_end as int));
        let cl: usize = match content_length(headers) {
            Some(n) => n,
            None => {
                return Step::Drop;
            },
        };
        if buf.len() - header_end < cl {
            return Step::NeedMore;
        }
        return Step::Score(header_end, header_end + cl);
    }
    Step::NotFound(header_end)
}

proof fn lemma_blank_line_has_break(buf: Seq<u8>)
    requires
        headers_end(buf) is Some,
    ensures
        first_place(buf, CRLF@) is Some,
        first_from(buf, CRLF@, 0) <= first_from(buf, BLANK_LINE@, 0),
{
    lemma_first_from(buf, BLANK_LINE@, 0);
    lemma_first_from(buf, CRLF@, 0);
    let p = first_from(buf, BLANK_LINE@, 0);
    assert(occurs(buf, CRLF@, p)) by {
        let four = buf.subrange(p, p + 4);
        assert(four[0] == BLANK_LINE@[0]);
        assert(four[1] == BLANK_LINE@[1]);
        assert(buf.subrange(p, p + 2) =~= CRLF@);
    }
}

/// A step that handles a request handles at least four bytes and none that are not there; the payload to
/// score is what the headers announce.
pub proof fn law_step_bounds(buf: Seq<u8>)
    requires
        buf.len() <= usize::MAX,
    ensures
        step_of(buf).handles() ==> 4 <= step_of(buf).consumed() <= buf.len(),
        step_of(buf) matches Step::Score(start, end) ==> {
            &&& 4 <= start <= end <= buf.len()
            &&& headers_end(buf) == Some(start as int)
            &&& length_of(buf.take(start as int)) == Some((end - start) as usize)
        },
{
    lemma_first_from(buf, BLANK_LINE@, 0);
}

proof fn lemma_first_from_extends(s: Seq<u8>, more: Seq<u8>, pat: Seq<u8>, i: int)
    requires
        0 <= i,
        pat.len() > 0,
        first_from(s, pat, i) < s.len(),
    ensures
        first_from(s + more, pat, i) == first_from(s, pat, i),
    decreases s.len() - i,
{
    let all = s + more;
    if occurs(s, pat, i) {
        assert(all.subrange(i, i + pat.len()) =~= s.subrange(i, i + pat.len()));
        assert(occurs(all, pat, i));
    } else {
        lemma_first_from_extends(s, more, pat, i + 1);
        lemma_first_from(s, pat, i + 1);
        let p = first_from(s, pat, i + 1);
        if occurs(all, pat, i) {
            if i + pat.len() <= s.len() {
                assert(all.subrange(i, i + pat.len()) =~= s.subrange(i, i + pat.len()));
            } else {
                assert(p + pat.len() <= s.len());
            }
        }
    }
}

/// Once there is a decision on the bytes of a connection, more bytes do not change it.
pub proof fn law_step_is_stable(buf: Seq<u8>, more: Seq<u8>)
    requires
        step_of(buf) != Step::NeedMore,
    ensures
        step_of(buf + more) == step_of(buf),
{
    let all = buf + more;
    lemma_first_from(buf, BLANK_LINE@, 0);
    lemma_first_from(buf, CRLF@, 0);
    lemma_blank_line_has_break(buf);
    lemma_first_from_extends(buf, more, BLANK_LINE@, 0);
    lemma_first_from_extends(buf, more, CRLF@, 0);
    let end = headers_end(buf).unwrap();
    let brk = first_from(buf, CRLF@, 0);
    assert(all.take(end) =~= buf.take(end));
    assert(all.take(brk) =~= buf.take(brk));
}

/// The steps taken on `buf` and the bytes left over.
pub open spec fn serve(buf: Seq<u8>) -> (Seq<Step>, Seq<u8>)
    decreases buf.len(),
{
    let step = step_of(buf);
    if step.handles() && 0 < step.consumed() <= buf.len() {
        let (steps, rest) = serve(buf.skip(step.consumed()));
        (seq![step] + steps, rest)
    } else {
        (Seq::empty(), buf)
    }
}

/// How the bytes of a connection are cut into reads does not matter: serving what came first and then
/// the left-over bytes with what came later takes the same steps as serving everything at once.
pub proof fn law_reads_may_be_split(first: Seq<u8>, later: Seq<u8>)
    ensures
        serve(first + later).0 == serve(first).0 + serve(serve(first).1 + later).0,
        serve(first + later).1 == serve(serve(first).1 + later).1,
    decreases first.len(),
{
    let step = step_of(first);
    if step.handles() && 0 < step.consumed() <= first.len() {
        let n = step.consumed();
        law_step_is_stable(first, later);
        assert((first + later).skip(n) =~= first.skip(n) + later);
        law_reads_may_be_split(first.skip(n), later);
        let tail = serve(first.skip(n));
        assert(serve(first + later).0 =~= serve(first).0 + serve(serve(first).1 + later).0);
    } else {
        assert(serve(first + later).0 =~= Seq::empty() + serve(first + later).0);
    }
}

/// The fraud count that a payload is answered with: none for one that cannot be read.
pub fn answered_count(count: Option<u8>) -> (answered: u8)
    ensures
        answered == match count {
            Some(c) => c,
            None => 0,
        },
{
    match count {
        Some(c) => c,
        None => 0,
    }
}

/// The bytes of a connection that are not handled yet.
pub struct Inbox {
    pub buf: Vec<u8>,
}

impl Inbox {
    pub fn new() -> (inbox: Self)
        ensures
            inbox.buf@ == Seq::<u8>::empty(),
    {
        Inbox { buf: Vec::new() }
    }

    /// Takes in bytes that were read.
    pub fn receive(&mut self, bytes: &[u8])
        ensures
            final(self).buf@ == old(self).buf@ + bytes@,
    {
        let ghost before = self.buf@;
        let mut i: usize = 0;
        while i < bytes.len()
            invariant
                i <= bytes.len(),
                self.buf@ == before + bytes@.take(i as int),
            decreases bytes.len() - i,
        {
            self.buf.push(bytes[i]);
            assert(self.buf@ =~= before + bytes@.take(i + 1));
            i = i + 1;
        }
        assert(bytes@.take(bytes@.len() as int) =~= bytes@);
    }

    /// Decides what to do next.
    pub fn peek(&self) -> (step: Step)
        ensures
            step == step_of(self.buf@),
    {
        next_step(self.buf.as_slice())
    }

    /// Removes the first `n` bytes, which are handled.
    pub fn advance(&mut self, n: usize)
        requires
            n <= old(self).buf.len(),
        ensures
            final(self).buf@ == old(self).buf@.skip(n as int),
    {
        let rest: Vec<u8> = self.buf.split_off(n);
        assert(rest@ =~= old(self).buf@.skip(n as int));
        self.buf = rest;
    }

    /// Whether nothing is left to handle.
    pub fn is_empty(&self) -> (empty: bool)
        ensures
            empty == (self.buf@.len() == 0),
    {
        self.buf.len() == 0
    }
}

} // verus!
