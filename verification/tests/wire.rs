use rinha::text::{is_utf8, parse_size, trim};
use rinha::wire::{
    content_length, find_double_crlf, memchr_crlf, next_step, parse_request_line, Inbox, Step,
};

#[test]
fn line_breaks() {
    assert_eq!(memchr_crlf(b"ab\r\ncd\r\n"), Some(2));
    assert_eq!(memchr_crlf(b"ab\rcd\n"), None);
    assert_eq!(memchr_crlf(b""), None);
    assert_eq!(find_double_crlf(b"a\r\n\r\nb"), Some(5));
    assert_eq!(find_double_crlf(b"a\r\n\r"), None);
    assert_eq!(find_double_crlf(b"\r\n\r\n"), Some(4));
    assert_eq!(find_double_crlf(b"a\r\r\n\r\n"), Some(6));
}

#[test]
fn request_lines() {
    assert_eq!(
        parse_request_line(b"GET /ready HTTP/1.1"),
        Some((&b"GET"[..], &b"/ready"[..]))
    );
    assert_eq!(parse_request_line(b"GET /ready"), None);
    assert_eq!(parse_request_line(b"GET"), None);
    assert_eq!(parse_request_line(b"  "), Some((&b""[..], &b""[..])));
}

#[test]
fn content_lengths() {
    assert_eq!(content_length(b"POST / HTTP/1.1\r\nContent-Length: 12\r\n\r\n"), Some(12));
    assert_eq!(content_length(b"a\r\ncontent-length:\t7 \r\n\r\n"), Some(7));
    assert_eq!(content_length(b"a\r\nContent-length:+7\r\n\r\n"), Some(7));
    assert_eq!(content_length(b"Content-Length: 007"), Some(7));
    // Other spellings are not known.
    assert_eq!(content_length(b"a\r\nCONTENT-LENGTH: 7\r\n\r\n"), None);
    // The first header counts, even if it cannot be read.
    assert_eq!(content_length(b"Content-Length: x\r\nContent-Length: 3\r\n"), None);
    assert_eq!(content_length(b"Content-Length: 2\r\nContent-Length: 3\r\n"), Some(2));
    assert_eq!(content_length(b"Content-Length: -2\r\n"), None);
    assert_eq!(content_length(b"Content-Length:\r\n"), None);
    assert_eq!(content_length(b"Content-Length: +\r\n"), None);
    assert_eq!(content_length(b"X: 1\r\n\r\n"), None);
    assert_eq!(content_length(b""), None);
    // Headers that are not text.
    assert_eq!(content_length(b"Content-Length: 2\r\nX: \xFF\r\n\r\n"), None);
    assert_eq!(content_length(b"Content-Length: \xC2\xA02\xE3\x80\x80\r\n"), Some(2));
}

#[test]
fn sizes() {
    assert_eq!(parse_size(b"0"), Some(0));
    assert_eq!(parse_size(b"18446744073709551615"), Some(usize::MAX));
    assert_eq!(parse_size(b"18446744073709551616"), None);
    assert_eq!(parse_size(b"99999999999999999999999"), None);
    assert_eq!(parse_size(b"++1"), None);
    assert_eq!(parse_size(b""), None);
    for s in ["0", "17", "+5", "-5", "", "+", "1_0", "007", "1.0"] {
        assert_eq!(parse_size(s.as_bytes()), s.parse().ok());
    }
}

#[test]
fn texts_agree_with_the_standard_library() {
    let samples: [&[u8]; 14] = [
        b"plain",
        b"",
        "caf\u{e9} \u{2028}".as_bytes(),
        "\u{1F600}".as_bytes(),
        b"\xC0\x80",
        b"\xC1\xBF",
        b"\xE0\x80\x80",
        b"\xED\xA0\x80",
        b"\xEF\xBF\xBD",
        b"\xF4\x90\x80\x80",
        b"\xF0\x90\x80\x80",
        b"\xF8\x88\x80\x80\x80",
        b"ab\xC3",
        b"\x80",
    ];
    for s in samples {
        assert_eq!(is_utf8(s), std::str::from_utf8(s).is_ok());
    }
    for c in 0..0x11_0000u32 {
        if let Some(ch) = char::from_u32(c) {
            if c < 0x3100 || c % 257 == 0 {
                let text = format!("{ch}x{ch}{ch}");
                assert_eq!(trim(text.as_bytes()), text.trim().as_bytes());
            }
        }
    }
    assert_eq!(trim(b" \t\r\n\x0B\x0C"), b"");
    assert_eq!(trim(b"  a b  "), b"a b");
}

#[test]
fn steps() {
    assert_eq!(next_step(b""), Step::NeedMore);
    assert_eq!(next_step(b"GET /ready HTTP/1.1\r\nHost: x\r\n"), Step::NeedMore);
    let ready = b"GET /ready HTTP/1.1\r\nHost: x\r\n\r\n";
    assert_eq!(next_step(ready), Step::Ready(ready.len()));
    let other = b"GET /other HTTP/1.1\r\n\r\n";
    assert_eq!(next_step(other), Step::NotFound(other.len()));
    let wrong = b"POST /ready HTTP/1.1\r\n\r\n";
    assert_eq!(next_step(wrong), Step::NotFound(wrong.len()));
    assert_eq!(next_step(b"nonsense\r\n\r\n"), Step::Drop);
    assert_eq!(next_step(b"POST /fraud-score HTTP/1.1\r\n\r\n"), Step::Drop);
    let head = b"POST /fraud-score HTTP/1.1\r\nContent-Length: 5\r\n\r\n";
    let mut post = head.to_vec();
    post.extend_from_slice(b"1234");
    assert_eq!(next_step(&post), Step::NeedMore);
    post.push(b'5');
    assert_eq!(next_step(&post), Step::Score(head.len(), head.len() + 5));
    post.extend_from_slice(b"GET");
    assert_eq!(next_step(&post), Step::Score(head.len(), head.len() + 5));
    let huge = b"POST /fraud-score HTTP/1.1\r\nContent-Length: 18446744073709551615\r\n\r\n";
    assert_eq!(next_step(huge), Step::NeedMore);
}

fn take_all(inbox: &mut Inbox, log: &mut Vec<(u8, Vec<u8>)>) {
    loop {
        let (kind, n, body) = match inbox.peek() {
            Step::NeedMore => return,
            Step::Drop => {
                log.push((9, Vec::new()));
                return;
            }
            Step::Ready(n) => (0, n, Vec::new()),
            Step::NotFound(n) => (1, n, Vec::new()),
            Step::Score(a, b) => (2, b, inbox.buf[a..b].to_vec()),
        };
        log.push((kind, body));
        inbox.advance(n);
        if inbox.is_empty() {
            return;
        }
    }
}

#[test]
fn cutting_into_reads_does_not_matter() {
    let stream: &[u8] = b"GET /ready HTTP/1.1\r\n\r\nPOST /fraud-score HTTP/1.1\r\ncontent-length: 3\r\n\r\nabcGET /x HTTP/1.1\r\nA: b\r\n\r\nPOST /fraud-score HTTP/1.1\r\ncontent-length: 0\r\n\r\n";
    let want: Vec<(u8, Vec<u8>)> = vec![
        (0, Vec::new()),
        (2, b"abc".to_vec()),
        (1, Vec::new()),
        (2, Vec::new()),
    ];
    for chunk in [1usize, 2, 3, 7, 64, 1000] {
        let mut inbox = Inbox::new();
        let mut log = Vec::new();
        for part in stream.chunks(chunk) {
            inbox.receive(part);
            take_all(&mut inbox, &mut log);
        }
        assert_eq!(log, want);
        assert!(inbox.is_empty());
    }
}

#[test]
fn unreadable_payloads_count_as_none() {
    assert_eq!(rinha::wire::answered_count(None), 0);
    assert_eq!(rinha::wire::answered_count(Some(0)), 0);
    assert_eq!(rinha::wire::answered_count(Some(4)), 4);
}
