//! Settings that come as text.
use crate::text::{parse_size, size_of_text, trim, trim_end, trim_start};
use crate::wire::{find_from, first_from, lemma_first_from};
use vstd::prelude::*;
use vstd::slice::{slice_subrange, slice_to_vec};

verus! {

/// The port the load balancer listens on if nothing else is set.
pub const DEFAULT_PORT: u16 = 9999;

/// The number of threads that accept connections if nothing else is set.
pub const DEFAULT_WORKERS: usize = 2;

/// The port that `s` denotes.
pub open spec fn port_of_text(s: Seq<u8>) -> Option<u16> {
    match size_of_text(s) {
        Some(n) => if n <= u16::MAX {
            Some(n as u16)
        } else {
            None
        },
        None => None,
    }
}

fn parse_port(s: &[u8]) -> (r: Option<u16>)
    ensures
        r == port_of_text(s@),
{
    match parse_size(s) {
        Some(n) => if n <= 65535 {
            Some(n as u16)
        } else {
            None
        },
        None => None,
    }
}

/// Where the part of `s` behind the last colon before `n` begins.
pub open spec fn behind_colon(s: Seq<u8>, n: int) -> int
    decreases n,
{
    if n <= 0 {
        0
    } else if s[n - 1] == 58 {
        n
    } else {
        behind_colon(s, n - 1)
    }
}

/// The part of `s` behind its last colon; all of it if there is none.
fn last_part(s: &[u8]) -> (part: &[u8])
    ensures
        part@ == s@.skip(behind_colon(s@, s@.len() as int)),
{
    let mut n: usize = s.len();
    while n > 0 && s[n - 1] != 58
        invariant
            n <= s.len(),
            behind_colon(s@, s@.len() as int) == behind_colon(s@, n as int),
        decreases n,
    {
        n = n - 1;
    }
    let part: &[u8] = slice_subrange(s, n, s.len());
    assert(part@ =~= s@.skip(n as int));
    part
}

/// The port to listen on: what `port` denotes, else what stands behind the last colon of `bind`, else the
/// default.
pub open spec fn port_from(port: Option<Seq<u8>>, bind: Option<Seq<u8>>) -> u16 {
    let first = match port {
        Some(s) => port_of_text(s),
        None => None,
    };
    let second = match bind {
        Some(s) => port_of_text(s.skip(behind_colon(s, s.len() as int))),
        None => None,
    };
    if first is Some {
        first.unwrap()
    } else if second is Some {
        second.unwrap()
    } else {
        DEFAULT_PORT
    }
}

/// A text that may be missing, by its contents.
pub open spec fn contents(s: Option<&[u8]>) -> Option<Seq<u8>> {
    match s {
        Some(t) => Some(t@),
        None => None,
    }
}

/// The port to listen on.
pub fn choose_port(port: Option<&[u8]>, bind: Option<&[u8]>) -> (p: u16)
    ensures
        p == port_from(contents(port), contents(bind)),
{
    if let Some(s) = port {
        if let Some(p) = parse_port(s) {
            return p;
        }
    }
    if let Some(s) = bind {
        if let Some(p) = parse_port(last_part(s)) {
            return p;
        }
    }
    DEFAULT_PORT
}

/// The number of threads that accept connections.
pub fn choose_workers(workers: Option<&[u8]>) -> (n: usize)
    ensures
        n == match contents(workers) {
            Some(s) => match size_of_text(s) {
                Some(k) => k,
                None => DEFAULT_WORKERS,
            },
            None => DEFAULT_WORKERS,
        },
{
    if let Some(s) = workers {
        if let Some(k) = parse_size(s) {
            return k;
        }
    }
    DEFAULT_WORKERS
}

/// A comma.
pub open spec fn comma() -> Seq<u8> {
    seq![44u8]
}

/// The items of a list from `at` on: separated by commas, without whitespace around them, and without the
/// empty ones.
pub open spec fn items_from(s: Seq<u8>, at: int) -> Seq<Seq<u8>>
    decreases s.len() + 1 - at,
{
    if at < 0 || at > s.len() {
        Seq::empty()
    } else {
        let end = first_from(s, comma(), at);
        let item = trim_end(trim_start(s.subrange(at, end)));
        let rest = if at <= end < s.len() {
            items_from(s, end + 1)
        } else {
            Seq::empty()
        };
        if item.len() > 0 {
            seq![item] + rest
        } else {
            rest
        }
    }
}

/// The contents of texts.
pub open spec fn texts(v: Seq<Vec<u8>>) -> Seq<Seq<u8>> {
    v.map_values(|t: Vec<u8>| t@)
}

/// Reads a list of upstreams.
pub fn split_upstreams(s: &[u8]) -> (out: Vec<Vec<u8>>)
    ensures
        texts(out@) == items_from(s@, 0),
{
    let mut out: Vec<Vec<u8>> = Vec::new();
    let sep: [u8; 1] = [44u8];
    assert(sep@ =~= comma());
    let mut at: usize = 0;
    assert(texts(out@) + items_from(s@, 0) =~= items_from(s@, 0));
    loop
        invariant
            at <= s.len(),
            sep@ == comma(),
            texts(out@) + items_from(s@, at as int) == items_from(s@, 0),
        decreases s.len() - at,
    {
        let end: usize = find_from(s, &sep, at);
        proof {
            lemma_first_from(s@, comma(), at as int);
        }
        let ghost before = out@;
        let item: &[u8] = trim(slice_subrange(s, at, end));
        if item.len() > 0 {
            let owned: Vec<u8> = slice_to_vec(item);
            out.push(owned);
            assert(texts(out@) =~= texts(before).push(item@));
        }
        if end >= s.len() {
            assert(texts(out@) =~= items_from(s@, 0));
            return out;
        }
        assert(texts(out@) + items_from(s@, end + 1) =~= items_from(s@, 0));
        at = end + 1;
    }
}

/// How the server takes connections.
#[derive(Debug, Clone, Copy, PartialEq, Eq, Structural)]
pub enum Listener {
    /// Receive sockets that the load balancer accepted.
    Handoff,
    /// Accept on a Unix socket.
    Unix,
    /// Accept on a TCP port.
    Tcp,
}

/// How the server takes connections, by which socket paths are set.
pub fn choose_listener(handoff_path: bool, unix_path: bool) -> (l: Listener)
    ensures
        l == (if handoff_path {
            Listener::Handoff
        } else if unix_path {
            Listener::Unix
        } else {
            Listener::Tcp
        }),
{
    if handoff_path {
        Listener::Handoff
    } else if unix_path {
        Listener::Unix
    } else {
        Listener::Tcp
    }
}

/// An item of a list is never empty.
pub proof fn law_items_are_not_empty(s: Seq<u8>, at: int, i: int)
    requires
        0 <= i < items_from(s, at).len(),
    ensures
        items_from(s, at)[i].len() > 0,
    decreases s.len() + 1 - at,
{
    if 0 <= at <= s.len() {
        let end = first_from(s, comma(), at);
        let item = trim_end(trim_start(s.subrange(at, end)));
        if at <= end < s.len() {
            if item.len() == 0 {
                law_items_are_not_empty(s, end + 1, i);
            } else if i > 0 {
                law_items_are_not_empty(s, end + 1, i - 1);
            }
        }
    }
}

} // verus!
