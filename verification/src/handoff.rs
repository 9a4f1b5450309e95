//! Decisions of the load balancer and of the process it hands connections to.
use vstd::prelude::*;

verus! {

/// Bytes of a socket path in an address, with the zero that ends it.
pub const SUN_PATH_LEN: usize = 108;

/// Rounds in which the upstreams are awaited.
pub const WAIT_ROUNDS: u32 = 200;

/// The upstream to try after `i` others, starting from a running number: round robin.
pub open spec fn turn(start: int, i: int, n: int) -> int {
    (start + i) % n
}

/// The upstream to try after `i` others.
pub fn pick(start: usize, i: usize, n: usize) -> (idx: usize)
    requires
        i < n,
    ensures
        idx == turn(start as int, i as int, n as int),
        idx < n,
{
    let s: usize = start % n;
    proof {
        lemma_turn(start as int, i as int, n as int);
    }
    if i < n - s {
        s + i
    } else {
        i - (n - s)
    }
}

proof fn lemma_turn(start: int, i: int, n: int)
    requires
        0 <= start,
        0 <= i < n,
    ensures
        turn(start, i, n) == (if i < n - start % n {
            start % n + i
        } else {
            i - (n - start % n)
        }),
{
    let q = start / n;
    let s = start % n;
    vstd::arithmetic::div_mod::lemma_fundamental_div_mod(start, n);
    if i < n - s {
        assert(start + i == q * n + (s + i)) by (nonlinear_arith)
            requires
                start == n * q + s,
        ;
        vstd::arithmetic::div_mod::lemma_fundamental_div_mod_converse(start + i, n, q, s + i);
    } else {
        assert(start + i == (q + 1) * n + (i - (n - s))) by (nonlinear_arith)
            requires
                start == n * q + s,
        ;
        vstd::arithmetic::div_mod::lemma_fundamental_div_mod_converse(
            start + i,
            n,
            q + 1,
            i - (n - s),
        );
    }
}

/// Upstream `u` is one of the first `n` that are tried.
pub open spec fn gets_turn(start: int, n: int, u: int) -> bool {
    exists|i: int| 0 <= i < n && #[trigger] turn(start, i, n) == u
}

/// Before any upstream is tried twice, every upstream is tried.
pub proof fn law_every_upstream_gets_a_turn(start: int, n: int)
    requires
        0 <= start,
        0 < n,
    ensures
        forall|a: int, b: int|
            0 <= a < b < n ==> #[trigger] turn(start, a, n) != #[trigger] turn(start, b, n),
        forall|u: int| 0 <= u < n ==> #[trigger] gets_turn(start, n, u),
{
    let s = start % n;
    assert forall|a: int, b: int| 0 <= a < b < n implies #[trigger] turn(start, a, n)
        != #[trigger] turn(start, b, n) by {
        lemma_turn(start, a, n);
        lemma_turn(start, b, n);
    }
    assert forall|u: int| 0 <= u < n implies #[trigger] gets_turn(start, n, u) by {
        let i = if u >= s {
            u - s
        } else {
            u + n - s
        };
        lemma_turn(start, i, n);
        assert(turn(start, i, n) == u);
    }
}

/// What to do with a client that was accepted.
#[derive(Debug, Clone, Copy, PartialEq, Eq, Structural)]
pub enum ClientStep {
    /// So many upstreams have failed to take it: offer it to the upstream with the second number.
    Offer(usize, usize),
    /// No upstream took it: answer that the gateway is bad.
    Refuse,
    /// Close the own end of its socket.
    Close,
    /// Nothing more.
    Done,
}

impl ClientStep {
    /// The first step for a client with running number `start`, with `n` upstreams.
    pub open spec fn begin(start: usize, n: usize) -> Self {
        if n > 0 {
            ClientStep::Offer(0, turn(start as int, 0, n as int) as usize)
        } else {
            ClientStep::Refuse
        }
    }

    /// The first step for a client with running number `start`, with `n` upstreams.
    pub fn first(start: usize, n: usize) -> (s: Self)
        ensures
            s == Self::begin(start, n),
    {
        if n > 0 {
            ClientStep::Offer(0, pick(start, 0, n))
        } else {
            ClientStep::Refuse
        }
    }

    /// The step that follows; `taken` tells whether an offer was taken. A client that is taken, and one that
    /// is refused, is closed; after an offer that fails comes the next upstream, and refusal after the last.
    pub open spec fn then_step(self, start: usize, n: usize, taken: bool) -> Self {
        match self {
            ClientStep::Offer(i, _) => if taken {
                ClientStep::Close
            } else if i + 1 < n {
                ClientStep::Offer(
                    (i + 1) as usize,
                    turn(start as int, i + 1, n as int) as usize,
                )
            } else {
                ClientStep::Refuse
            },
            ClientStep::Refuse => ClientStep::Close,
            ClientStep::Close => ClientStep::Done,
            ClientStep::Done => ClientStep::Done,
        }
    }

    /// The step that follows.
    pub fn next(self, start: usize, n: usize, taken: bool) -> (s: Self)
        ensures
            s == self.then_step(start, n, taken),
    {
        match self {
            ClientStep::Offer(i, _) => if taken {
                ClientStep::Close
            } else if n > 0 && i < n - 1 {
                ClientStep::Offer(i + 1, pick(start, i + 1, n))
            } else {
                ClientStep::Refuse
            },
            ClientStep::Refuse => ClientStep::Close,
            ClientStep::Close => ClientStep::Done,
            ClientStep::Done => ClientStep::Done,
        }
    }

    /// Steps that may still follow.
    pub open spec fn rank(self, n: usize) -> int {
        match self {
            ClientStep::Offer(i, _) => if i < n {
                3 + n - i
            } else {
                3
            },
            ClientStep::Refuse => 2,
            ClientStep::Close => 1,
            ClientStep::Done => 0,
        }
    }
}

/// The steps from `s` on, where `takes` tells which upstreams take the client.
pub open spec fn steps_from(s: ClientStep, start: usize, n: usize, takes: spec_fn(int) -> bool) -> Seq<
    ClientStep,
>
    decreases s.rank(n),
{
    match s {
        ClientStep::Done => Seq::empty(),
        ClientStep::Offer(_, u) => seq![s] + steps_from(
            s.then_step(start, n, takes(u as int)),
            start,
            n,
            takes,
        ),
        _ => seq![s] + steps_from(s.then_step(start, n, true), start, n, takes),
    }
}

/// How many upstreams from the one in turn `i` on fail to take the client before one takes it, plus `i`; `n`
/// if none takes it.
pub open spec fn taker(start: usize, n: usize, takes: spec_fn(int) -> bool, i: int) -> int
    decreases n - i,
{
    if i >= n {
        n as int
    } else if takes(turn(start as int, i, n as int)) {
        i
    } else {
        taker(start, n, takes, i + 1)
    }
}

/// Offers to the upstreams in turn from `i` up to, but not including, `end`.
pub open spec fn offers(start: usize, n: usize, i: int, end: int) -> Seq<ClientStep> {
    Seq::new(
        if i < end {
            (end - i) as nat
        } else {
            0
        },
        |j: int| ClientStep::Offer((i + j) as usize, turn(start as int, i + j, n as int) as usize),
    )
}

proof fn lemma_steps_from(start: usize, n: usize, takes: spec_fn(int) -> bool, i: int)
    requires
        0 <= i < n,
    ensures
        ({
            let k = taker(start, n, takes, i);
            let s = ClientStep::Offer(i as usize, turn(start as int, i, n as int) as usize);
            &&& i <= k <= n
            &&& forall|j: int| i <= j < k ==> !takes(#[trigger] turn(start as int, j, n as int))
            &&& k < n ==> takes(turn(start as int, k, n as int))
            &&& steps_from(s, start, n, takes) == if k < n {
                offers(start, n, i, k + 1) + seq![ClientStep::Close]
            } else {
                offers(start, n, i, n as int) + seq![ClientStep::Refuse, ClientStep::Close]
            }
        }),
    decreases n - i,
{
    reveal_with_fuel(steps_from, 4);
    let k = taker(start, n, takes, i);
    let u = turn(start as int, i, n as int);
    let s = ClientStep::Offer(i as usize, u as usize);
    lemma_turn(start as int, i, n as int);
    if takes(u) {
        assert(steps_from(s, start, n, takes) =~= offers(start, n, i, i + 1) + seq![
            ClientStep::Close,
        ]);
    } else if i + 1 < n {
        lemma_steps_from(start, n, takes, i + 1);
        let end = if k < n {
            k + 1
        } else {
            n as int
        };
        assert(offers(start, n, i, end) =~= seq![s] + offers(start, n, i + 1, end));
        assert(steps_from(s, start, n, takes) =~= if k < n {
            offers(start, n, i, k + 1) + seq![ClientStep::Close]
        } else {
            offers(start, n, i, n as int) + seq![ClientStep::Refuse, ClientStep::Close]
        });
    } else {
        assert(taker(start, n, takes, i + 1) == n);
        assert(steps_from(s, start, n, takes) =~= offers(start, n, i, n as int) + seq![
            ClientStep::Refuse,
            ClientStep::Close,
        ]);
    }
}

/// A client is offered to the upstreams in turn, up to the first that takes it; it is refused if and only if
/// none does; and either way it is closed once, at the end.
pub proof fn law_client_is_offered_in_turn(start: usize, n: usize, takes: spec_fn(int) -> bool)
    ensures
        ({
            let k = taker(start, n, takes, 0);
            let steps = steps_from(ClientStep::begin(start, n), start, n, takes);
            &&& 0 <= k <= n
            &&& forall|j: int| 0 <= j < k ==> !takes(#[trigger] turn(start as int, j, n as int))
            &&& k < n ==> takes(turn(start as int, k, n as int))
            &&& steps == if k < n {
                offers(start, n, 0, k + 1) + seq![ClientStep::Close]
            } else {
                offers(start, n, 0, n as int) + seq![ClientStep::Refuse, ClientStep::Close]
            }
        }),
{
    if n > 0 {
        lemma_steps_from(start, n, takes, 0);
    } else {
        reveal_with_fuel(steps_from, 4);
        assert(steps_from(ClientStep::begin(start, n), start, n, takes) =~= offers(start, n, 0, 0)
            + seq![ClientStep::Refuse, ClientStep::Close]);
    }
}

/// What to do after the upstreams were tried in a round.
#[derive(Debug, Clone, Copy, PartialEq, Eq, Structural)]
pub enum WaitNext {
    /// All are up.
    Ready,
    /// Sleep and try again.
    Sleep,
    /// The rounds are used up: start all the same.
    GiveUp,
}

/// Decides after round `round`, counted from 0, in which `ready` of `total` upstreams were up. The last
/// round too is followed by a sleep.
pub fn after_round(round: u32, ready: usize, total: usize) -> (next: WaitNext)
    ensures
        next == (if round >= WAIT_ROUNDS {
            WaitNext::GiveUp
        } else if ready == total {
            WaitNext::Ready
        } else {
            WaitNext::Sleep
        }),
{
    if round >= WAIT_ROUNDS {
        WaitNext::GiveUp
    } else if ready == total {
        WaitNext::Ready
    } else {
        WaitNext::Sleep
    }
}

/// Where the sending of a client's socket to an upstream stands.
#[derive(Debug, Clone, Copy, PartialEq, Eq, Structural)]
pub enum SendStep {
    /// Connect to the upstream.
    Connect,
    /// Send the socket.
    Send,
    /// Close the connection and connect again.
    Reconnect,
    /// Send the socket a second time.
    SendAgain,
    /// It is over: whether the socket was sent, and whether there is a connection to keep.
    Finish(bool, bool),
}

impl SendStep {
    /// Steps that may still follow.
    pub open spec fn rank(self) -> int {
        match self {
            SendStep::Connect => 4,
            SendStep::Send => 3,
            SendStep::Reconnect => 2,
            SendStep::SendAgain => 1,
            SendStep::Finish(_, _) => 0,
        }
    }

    /// The first step.
    pub fn first(connected: bool) -> (s: Self)
        ensures
            s == (if connected {
                SendStep::Send
            } else {
                SendStep::Connect
            }),
    {
        if connected {
            SendStep::Send
        } else {
            SendStep::Connect
        }
    }

    /// The step that follows when this one succeeded or not: after a failed send there is one more try
    /// over a new connection.
    pub open spec fn then_step(self, ok: bool) -> Self {
        match self {
            SendStep::Connect => if ok {
                SendStep::Send
            } else {
                SendStep::Finish(false, false)
            },
            SendStep::Send => if ok {
                SendStep::Finish(true, true)
            } else {
                SendStep::Reconnect
            },
            SendStep::Reconnect => if ok {
                SendStep::SendAgain
            } else {
                SendStep::Finish(false, false)
            },
            SendStep::SendAgain => SendStep::Finish(ok, true),
            SendStep::Finish(sent, connected) => SendStep::Finish(sent, connected),
        }
    }

    /// The step that follows.
    pub fn next(self, ok: bool) -> (s: Self)
        ensures
            s == self.then_step(ok),
    {
        match self {
            SendStep::Connect => if ok {
                SendStep::Send
            } else {
                SendStep::Finish(false, false)
            },
            SendStep::Send => if ok {
                SendStep::Finish(true, true)
            } else {
                SendStep::Reconnect
            },
            SendStep::Reconnect => if ok {
                SendStep::SendAgain
            } else {
                SendStep::Finish(false, false)
            },
            SendStep::SendAgain => SendStep::Finish(ok, true),
            SendStep::Finish(sent, connected) => SendStep::Finish(sent, connected),
        }
    }
}

/// Every step brings the sending nearer to its end, and it ends with the socket sent if and only if a send
/// succeeded.
pub proof fn law_sending_ends(s: SendStep, ok: bool)
    ensures
        s.rank() > 0 ==> s.then_step(ok).rank() < s.rank(),
        s.rank() > 0 && s.then_step(ok) is Finish ==> (s.then_step(ok)->0 <==> ok && (s is Send || s
            is SendAgain)),
{
}

/// What follows a call that sends a socket.
#[derive(Debug, Clone, Copy, PartialEq, Eq, Structural)]
pub enum SendResult {
    Sent,
    Retry,
    Failed,
}

/// Decides after a send that returned `n`: the one byte that goes with the socket must be out; a call that
/// was interrupted is repeated.
pub fn after_send(n: i64, interrupted: bool) -> (r: SendResult)
    ensures
        r == (if n == 1 {
            SendResult::Sent
        } else if n < 0 && interrupted {
            SendResult::Retry
        } else {
            SendResult::Failed
        }),
{
    if n == 1 {
        SendResult::Sent
    } else if n < 0 && interrupted {
        SendResult::Retry
    } else {
        SendResult::Failed
    }
}

/// What follows a call that receives a socket.
#[derive(Debug, Clone, Copy, PartialEq, Eq, Structural)]
pub enum RecvResult {
    /// Look for the socket in the message.
    Inspect,
    Retry,
    /// The other side is gone or the call failed.
    Closed,
}

/// Decides after a receive that returned `n`.
pub fn after_recv(n: i64, interrupted: bool) -> (r: RecvResult)
    ensures
        r == (if n > 0 {
            RecvResult::Inspect
        } else if n < 0 && interrupted {
            RecvResult::Retry
        } else {
            RecvResult::Closed
        }),
{
    if n > 0 {
        RecvResult::Inspect
    } else if n < 0 && interrupted {
        RecvResult::Retry
    } else {
        RecvResult::Closed
    }
}

/// The header of a control message: level, type and length.
pub type ControlHeader = (i32, i32, usize);

/// Whether a control message carries a socket: it has the wanted level and type and is long enough.
pub open spec fn carries(h: ControlHeader, wanted: ControlHeader) -> bool {
    h.0 == wanted.0 && h.1 == wanted.1 && h.2 >= wanted.2
}

/// The first control message that carries a socket.
pub fn first_with_socket(headers: &[ControlHeader], wanted: ControlHeader) -> (i: Option<usize>)
    ensures
        i matches Some(k) ==> k < headers.len() && carries(headers@[k as int], wanted) && forall|j: int|
            0 <= j < k ==> !carries(#[trigger] headers@[j], wanted),
        i is None ==> forall|j: int| 0 <= j < headers.len() ==> !carries(#[trigger] headers@[j], wanted),
{
    let mut k: usize = 0;
    while k < headers.len()
        invariant
            k <= headers.len(),
            forall|j: int| 0 <= j < k ==> !carries(#[trigger] headers@[j], wanted),
        decreases headers.len() - k,
    {
        let h: ControlHeader = headers[k];
        if h.0 == wanted.0 && h.1 == wanted.1 && h.2 >= wanted.2 {
            return Some(k);
        }
        k = k + 1;
    }
    None
}

/// How many of `left` bytes are left to write after a write that returned `w`; `None` if nothing more is
/// to be written. An interrupted write is repeated; one that fails or writes nothing ends it.
pub open spec fn left_after(w: int, interrupted: bool, left: int) -> Option<int> {
    if w < 0 && interrupted {
        Some(left)
    } else if w <= 0 || w >= left {
        None
    } else {
        Some(left - w)
    }
}

/// How many bytes are left to write.
pub fn after_write(w: i64, interrupted: bool, left: usize) -> (r: Option<usize>)
    requires
        w <= left,
    ensures
        r is Some <==> left_after(w as int, interrupted, left as int) is Some,
        r is Some ==> r.unwrap() == left_after(w as int, interrupted, left as int).unwrap(),
{
    if w < 0 && interrupted {
        Some(left)
    } else if w <= 0 || w as u64 >= left as u64 {
        None
    } else {
        Some(left - w as usize)
    }
}

/// Writing goes on only with bytes that are not written yet.
pub proof fn law_writing_advances(w: int, interrupted: bool, left: int)
    requires
        w <= left,
    ensures
        left_after(w, interrupted, left) matches Some(rest) ==> w >= 0 ==> 0 < rest < left && rest + w
            == left,
        w == left && w > 0 ==> left_after(w, interrupted, left) is None,
{
}

/// The path of a socket as it stands in an address; `None` if it is too long.
pub fn socket_path(path: &[u8]) -> (r: Option<[u8; SUN_PATH_LEN]>)
    ensures
        r is None <==> path.len() >= SUN_PATH_LEN,
        r is Some ==> r.unwrap()@ == path@ + Seq::new((SUN_PATH_LEN - path@.len()) as nat, |i: int| 0u8),
{
    if path.len() >= SUN_PATH_LEN {
        return None;
    }
    let mut out: [u8; SUN_PATH_LEN] = [0u8; SUN_PATH_LEN];
    let mut i: usize = 0;
    while i < path.len()
        invariant
            i <= path.len(),
            path.len() < SUN_PATH_LEN,
            forall|j: int|
                0 <= j < SUN_PATH_LEN ==> #[trigger] out@[j] == (if j < i {
                    path@[j]
                } else {
                    0u8
                }),
        decreases path.len() - i,
    {
        out[i] = path[i];
        i = i + 1;
    }
    assert(out@ =~= path@ + Seq::new((SUN_PATH_LEN - path@.len()) as nat, |i: int| 0u8));
    Some(out)
}

/// Upstreams come in turn: the first is the running number's remainder, and each is followed by the next, the
/// last by the first.
pub proof fn law_turns(start: int, i: int, n: int)
    requires
        0 <= start,
        0 <= i,
        0 < n,
    ensures
        start < n ==> turn(start, 0, n) == start,
        turn(start + n, i, n) == turn(start, i, n),
        turn(start, i + 1, n) == turn(start + 1, i, n),
        0 <= turn(start, i, n) < n,
        turn(start, i + 1, n) == if turn(start, i, n) + 1 < n {
            turn(start, i, n) + 1
        } else {
            0
        },
{
    let a = start + i;
    vstd::arithmetic::div_mod::lemma_small_mod(0nat, n as nat);
    if start < n {
        vstd::arithmetic::div_mod::lemma_small_mod(start as nat, n as nat);
    }
    vstd::arithmetic::div_mod::lemma_mod_add_multiples_vanish(a, n);
    vstd::arithmetic::div_mod::lemma_mod_bound(a, n);
    vstd::arithmetic::div_mod::lemma_fundamental_div_mod(a, n);
    let q = a / n;
    let r = a % n;
    assert(a + n == n + a);
    if r + 1 < n {
        vstd::arithmetic::div_mod::lemma_fundamental_div_mod_converse(a + 1, n, q, r + 1);
    } else {
        assert(n * (q + 1) == n * q + n) by (nonlinear_arith);
        vstd::arithmetic::div_mod::lemma_fundamental_div_mod_converse(a + 1, n, q + 1, 0);
    }
}

/// With `n` upstreams of which the first `k` in turn do not take a client: if the next one does, the client is
/// offered to these `k` and to that one and closed; if there is none left, it is offered to all, refused and
/// closed. Offer `j` goes to the upstream `j` turns behind the running number.
pub proof fn law_client_steps(start: usize, n: usize, takes: spec_fn(int) -> bool, k: int, j: int)
    requires
        0 <= k <= n,
        forall|i: int| 0 <= i < k ==> !takes(#[trigger] turn(start as int, i, n as int)),
        k < n ==> takes(turn(start as int, k, n as int)),
    ensures
        ({
            let steps = steps_from(ClientStep::begin(start, n), start, n, takes);
            &&& k < n ==> steps.len() == k + 2 && steps[k + 1] == ClientStep::Close
            &&& k == n ==> steps.len() == n + 2 && steps[n as int] == ClientStep::Refuse && steps[n + 1]
                == ClientStep::Close
            &&& 0 <= j <= k && j < n ==> steps[j] == ClientStep::Offer(
                j as usize,
                ((start + j) % (n as int)) as usize,
            )
        }),
{
    law_client_is_offered_in_turn(start, n, takes);
    let t = taker(start, n, takes, 0);
    assert(t == k) by {
        if t < k {
            assert(takes(turn(start as int, t, n as int)));
        }
        if k < t {
            assert(!takes(turn(start as int, k, n as int)));
        }
    }
}

/// A socket is sent at once over a connection, and else over a new one. After a failed send it is sent once
/// more over a new connection. Without a connection nothing is sent and none is kept.
pub proof fn law_sending(again: bool)
    ensures
        SendStep::Connect.then_step(true) == SendStep::Send,
        SendStep::Connect.then_step(false) == SendStep::Finish(false, false),
        SendStep::Send.then_step(true) == SendStep::Finish(true, true),
        SendStep::Send.then_step(false).then_step(false) == SendStep::Finish(false, false),
        SendStep::Send.then_step(false).then_step(true).then_step(again) == SendStep::Finish(again, true),
        SendStep::Send.then_step(false) == SendStep::Reconnect,
        SendStep::Reconnect.then_step(true) == SendStep::SendAgain,
{
}

/// Writing goes on with what is left after a part was written, with everything after an interruption, and not
/// at all after everything was written, after a failure, or where nothing more can be written.
pub proof fn law_left_after(w: int, interrupted: bool, left: int)
    requires
        w <= left,
        0 <= left,
    ensures
        0 < w < left ==> left_after(w, interrupted, left) == Some(left - w),
        w < 0 && interrupted ==> left_after(w, interrupted, left) == Some(left),
        w < 0 && !interrupted ==> left_after(w, interrupted, left) is None,
        w == 0 || w == left ==> w >= 0 ==> left_after(w, interrupted, left) is None,
{
}

/// A control message carries a socket if it has the level and the type and is at least as long.
pub proof fn law_carries(level: i32, kind: i32, len: usize, wanted: ControlHeader)
    ensures
        carries((level, kind, len), wanted) <==> level == wanted.0 && kind == wanted.1 && len >= wanted.2,
        SUN_PATH_LEN == 108,
        WAIT_ROUNDS == 200,
{
}

} // verus!
