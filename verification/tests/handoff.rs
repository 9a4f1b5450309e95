use rinha::handoff::{
    after_recv, after_round, after_send, after_write, first_with_socket, pick, socket_path, ClientStep,
    RecvResult, SendResult, SendStep, WaitNext,
};

#[test]
fn round_robin() {
    let order: Vec<usize> = (0..3).map(|i| pick(7, i, 3)).collect();
    assert_eq!(order, vec![1, 2, 0]);
    let mut seen: Vec<usize> = (0..5).map(|i| pick(usize::MAX, i, 5)).collect();
    assert_eq!(seen[0], usize::MAX % 5);
    seen.sort();
    assert_eq!(seen, vec![0, 1, 2, 3, 4]);
}

#[test]
fn waiting_for_upstreams() {
    assert_eq!(after_round(0, 2, 2), WaitNext::Ready);
    assert_eq!(after_round(0, 1, 2), WaitNext::Sleep);
    assert_eq!(after_round(199, 1, 2), WaitNext::Sleep);
    assert_eq!(after_round(199, 2, 2), WaitNext::Ready);
    assert_eq!(after_round(200, 1, 2), WaitNext::GiveUp);
}

fn run(connected: bool, answers: &[bool]) -> (SendStep, usize) {
    let mut step = SendStep::first(connected);
    let mut used = 0;
    while !matches!(step, SendStep::Finish(_, _)) {
        step = step.next(answers[used]);
        used += 1;
    }
    (step, used)
}

#[test]
fn sending_reconnects_once() {
    assert_eq!(run(true, &[true]), (SendStep::Finish(true, true), 1));
    assert_eq!(run(false, &[true, true]), (SendStep::Finish(true, true), 2));
    assert_eq!(run(false, &[false]), (SendStep::Finish(false, false), 1));
    assert_eq!(run(true, &[false, true, true]), (SendStep::Finish(true, true), 3));
    assert_eq!(run(true, &[false, false]), (SendStep::Finish(false, false), 2));
    assert_eq!(run(false, &[true, false, true, false]), (SendStep::Finish(false, true), 4));
    assert_eq!(SendStep::Finish(true, false).next(false), SendStep::Finish(true, false));
}

#[test]
fn calls_that_are_interrupted() {
    assert_eq!(after_send(1, false), SendResult::Sent);
    assert_eq!(after_send(-1, true), SendResult::Retry);
    assert_eq!(after_send(-1, false), SendResult::Failed);
    assert_eq!(after_send(0, true), SendResult::Failed);
    assert_eq!(after_recv(1, false), RecvResult::Inspect);
    assert_eq!(after_recv(0, true), RecvResult::Closed);
    assert_eq!(after_recv(-1, true), RecvResult::Retry);
    assert_eq!(after_recv(-1, false), RecvResult::Closed);
}

#[test]
fn writing_everything() {
    assert_eq!(after_write(3, false, 10), Some(7));
    assert_eq!(after_write(10, false, 10), None);
    assert_eq!(after_write(0, true, 10), None);
    assert_eq!(after_write(-1, true, 10), Some(10));
    assert_eq!(after_write(-1, false, 10), None);
}

#[test]
fn control_messages() {
    let wanted = (1, 1, 20usize);
    assert_eq!(first_with_socket(&[], wanted), None);
    assert_eq!(first_with_socket(&[(1, 2, 20), (1, 1, 19), (1, 1, 24), (1, 1, 20)], wanted), Some(2));
    assert_eq!(first_with_socket(&[(0, 1, 20)], wanted), None);
}

#[test]
fn socket_paths() {
    let path = socket_path(b"/run/api.sock").unwrap();
    assert_eq!(&path[..13], b"/run/api.sock");
    assert!(path[13..].iter().all(|&b| b == 0));
    assert!(socket_path(&[b'x'; 107]).is_some());
    assert!(socket_path(&[b'x'; 108]).is_none());
}

fn hand_over(start: usize, takes: &[bool]) -> Vec<ClientStep> {
    let n = takes.len();
    let mut steps = Vec::new();
    let mut step = ClientStep::first(start, n);
    while step != ClientStep::Done {
        steps.push(step);
        let taken = match step {
            ClientStep::Offer(_, u) => takes[u],
            _ => false,
        };
        step = step.next(start, n, taken);
    }
    steps
}

#[test]
fn clients_are_offered_up_to_the_first_taker() {
    assert_eq!(hand_over(4, &[true, true, true]), vec![ClientStep::Offer(0, 1), ClientStep::Close]);
    assert_eq!(
        hand_over(4, &[true, false, false]),
        vec![
            ClientStep::Offer(0, 1),
            ClientStep::Offer(1, 2),
            ClientStep::Offer(2, 0),
            ClientStep::Close
        ]
    );
    assert_eq!(
        hand_over(2, &[false, false, false]),
        vec![
            ClientStep::Offer(0, 2),
            ClientStep::Offer(1, 0),
            ClientStep::Offer(2, 1),
            ClientStep::Refuse,
            ClientStep::Close
        ]
    );
    assert_eq!(hand_over(9, &[]), vec![ClientStep::Refuse, ClientStep::Close]);
    assert_eq!(ClientStep::Done.next(0, 1, true), ClientStep::Done);
}
