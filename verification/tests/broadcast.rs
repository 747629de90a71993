use wordcast::broadcast::{Action, Broadcaster, ReadProbe, WriteAttempt};

/// A simulated subscriber: what it has received, and whether its connection
/// is closed (a closed one reports end of stream on the liveness read).
struct SimPeer {
    id: u64,
    closed: bool,
    received: Vec<String>,
}

/// Runs one full poll against the simulated peers, playing the socket side:
/// a healthy peer's read would block and its write takes the whole payload;
/// a closed peer's read reports zero bytes. Returns true when a broadcast
/// was attempted (the candidate differed from the last value sent), and
/// moves pruned peers to `dropped`.
fn run_poll(
    bc: &mut Broadcaster,
    word: &str,
    peers: &mut Vec<SimPeer>,
    dropped: &mut Vec<SimPeer>,
) -> bool {
    let w: Vec<u8> = word.as_bytes().to_vec();
    let mut act = match bc.begin_poll(&w) {
        None => return false,
        Some(a) => a,
    };
    loop {
        match act {
            Action::Probe { peer } => {
                let outcome = if peers[peer].closed {
                    ReadProbe::Data { count: 0 }
                } else {
                    ReadProbe::WouldBlock
                };
                act = bc.on_probe(outcome);
            }
            Action::Write { peer } => {
                let payload = bc.payload_bytes().clone();
                let text = String::from_utf8(payload.clone()).unwrap();
                peers[peer].received.push(text);
                act = bc.on_write(WriteAttempt::Wrote { count: payload.len() });
            }
            Action::Finish { doomed } => {
                for i in doomed {
                    dropped.push(peers.remove(i));
                }
                return true;
            }
        }
    }
}

fn connect(bc: &mut Broadcaster, peers: &mut Vec<SimPeer>) {
    let id = bc.register_peer().unwrap();
    peers.push(SimPeer { id, closed: false, received: Vec::new() });
}

#[test]
fn subscriber_sees_each_change_once_in_order() {
    let mut bc = Broadcaster::new();
    let mut peers = Vec::new();
    let mut dropped = Vec::new();
    connect(&mut bc, &mut peers);
    for word in ["alpha", "beta", "beta", "gamma"] {
        run_poll(&mut bc, word, &mut peers, &mut dropped);
    }
    assert_eq!(peers[0].received, vec!["alpha\n", "beta\n", "gamma\n"]);
    assert!(dropped.is_empty());
}

#[test]
fn duplicate_poll_writes_nothing() {
    let mut bc = Broadcaster::new();
    let mut peers = Vec::new();
    let mut dropped = Vec::new();
    connect(&mut bc, &mut peers);
    assert!(run_poll(&mut bc, "same", &mut peers, &mut dropped));
    let seen = peers[0].received.len();
    assert!(!run_poll(&mut bc, "same", &mut peers, &mut dropped));
    assert_eq!(peers[0].received.len(), seen);
    assert_eq!(bc.peer_count(), 1);
}

#[test]
fn closed_subscriber_removed_within_one_poll() {
    let mut bc = Broadcaster::new();
    let mut peers = Vec::new();
    let mut dropped = Vec::new();
    connect(&mut bc, &mut peers);
    connect(&mut bc, &mut peers);
    run_poll(&mut bc, "first", &mut peers, &mut dropped);
    assert_eq!(bc.peer_count(), 2);
    peers[0].closed = true;
    let closed_id = peers[0].id;
    run_poll(&mut bc, "second", &mut peers, &mut dropped);
    assert_eq!(bc.peer_count(), 1);
    assert_eq!(dropped.len(), 1);
    assert_eq!(dropped[0].id, closed_id);
    // The survivor still got the value; the closed one got nothing new.
    assert_eq!(peers[0].received, vec!["first\n", "second\n"]);
    assert_eq!(dropped[0].received, vec!["first\n"]);
}

#[test]
fn quiet_subscriber_keeps_receiving() {
    // A peer that never sends data and never closes: every liveness read
    // would block, and it must still see every change.
    let mut bc = Broadcaster::new();
    let mut peers = Vec::new();
    let mut dropped = Vec::new();
    connect(&mut bc, &mut peers);
    let words = ["a", "b", "c", "d", "e"];
    for word in words {
        run_poll(&mut bc, word, &mut peers, &mut dropped);
    }
    assert_eq!(bc.peer_count(), 1);
    assert_eq!(peers[0].received.len(), words.len());
}

#[test]
fn three_subscribers_dedup_and_drop() {
    // Value changes A -> B -> B -> C; the second subscriber disconnects
    // between B and C.
    let mut bc = Broadcaster::new();
    let mut peers = Vec::new();
    let mut dropped = Vec::new();
    for _ in 0..3 {
        connect(&mut bc, &mut peers);
    }
    assert!(run_poll(&mut bc, "A", &mut peers, &mut dropped));
    assert!(run_poll(&mut bc, "B", &mut peers, &mut dropped));
    assert!(!run_poll(&mut bc, "B", &mut peers, &mut dropped));
    peers[1].closed = true;
    assert!(run_poll(&mut bc, "C", &mut peers, &mut dropped));
    assert_eq!(bc.peer_count(), 2);
    assert_eq!(peers[0].received, vec!["A\n", "B\n", "C\n"]);
    assert_eq!(peers[1].received, vec!["A\n", "B\n", "C\n"]);
    assert_eq!(dropped[0].received, vec!["A\n", "B\n"]);
}

#[test]
fn late_subscriber_gets_only_the_next_change() {
    let mut bc = Broadcaster::new();
    let mut peers = Vec::new();
    let mut dropped = Vec::new();
    // With no peer, the poll still records the value as sent.
    assert!(!run_poll(&mut bc, "early", &mut peers, &mut dropped));
    connect(&mut bc, &mut peers);
    // The same value again: suppressed even for the newcomer.
    assert!(!run_poll(&mut bc, "early", &mut peers, &mut dropped));
    assert_eq!(peers[0].received.len(), 0);
    assert!(run_poll(&mut bc, "later", &mut peers, &mut dropped));
    assert_eq!(peers[0].received, vec!["later\n"]);
}

#[test]
fn partial_write_drops_peer() {
    let mut bc = Broadcaster::new();
    let mut peers = Vec::new();
    connect(&mut bc, &mut peers);
    let w: Vec<u8> = b"word".to_vec();
    let act = bc.begin_poll(&w).unwrap();
    assert!(matches!(act, Action::Probe { peer: 0 }));
    let act = bc.on_probe(ReadProbe::WouldBlock);
    assert!(matches!(act, Action::Write { peer: 0 }));
    // The payload is "word\n": five bytes. Four is a partial write.
    let act = bc.on_write(WriteAttempt::Wrote { count: 4 });
    match act {
        Action::Finish { doomed } => assert_eq!(doomed, vec![0]),
        _ => panic!("poll should be over"),
    }
    assert_eq!(bc.peer_count(), 0);
}

#[test]
fn data_on_probe_keeps_peer() {
    let mut bc = Broadcaster::new();
    let mut peers = Vec::new();
    connect(&mut bc, &mut peers);
    let w: Vec<u8> = b"x".to_vec();
    bc.begin_poll(&w).unwrap();
    let act = bc.on_probe(ReadProbe::Data { count: 3 });
    assert!(matches!(act, Action::Write { peer: 0 }));
    let act = bc.on_write(WriteAttempt::Wrote { count: 2 });
    assert!(matches!(act, Action::Finish { .. }));
    assert_eq!(bc.peer_count(), 1);
}

#[test]
fn eof_or_error_on_probe_drops_peer() {
    let mut bc = Broadcaster::new();
    let mut peers = Vec::new();
    connect(&mut bc, &mut peers);
    connect(&mut bc, &mut peers);
    let w: Vec<u8> = b"x".to_vec();
    bc.begin_poll(&w).unwrap();
    // First peer: end of stream. Second peer: hard error. Both go.
    let act = bc.on_probe(ReadProbe::Data { count: 0 });
    assert!(matches!(act, Action::Probe { peer: 1 }));
    let act = bc.on_probe(ReadProbe::Failed);
    match act {
        Action::Finish { doomed } => assert_eq!(doomed, vec![1, 0]),
        _ => panic!("poll should be over"),
    }
    assert_eq!(bc.peer_count(), 0);
}
