//! The broadcast state machine.
//!
//! `Broadcaster` owns everything about a poll that can be decided without a
//! socket: the set of connected peers (as identities), the last payload sent,
//! the dedup gate, the liveness classification of reads and writes, and the
//! pruning of dead peers. The caller owns the sockets; it drives one poll by
//! calling `begin_poll` and then answering each returned `Action` with the
//! outcome of the corresponding non-blocking socket operation, until the
//! machine returns `Action::Finish`.
//!
//! One poll sends at most one payload: the candidate word with a line feed
//! appended. If that payload equals the last one sent, nothing is probed and
//! nothing is written. Otherwise every peer is given a liveness read and, if
//! it passes, a write of the whole payload; peers that fail either step are
//! removed at the end of the poll, and the payload becomes the last one sent.

use vstd::prelude::*;

verus! {

/// Outcome of the non-blocking liveness read on one peer.
#[derive(Clone, Copy, PartialEq, Eq, Structural, Debug)]
pub enum ReadProbe {
    /// The read returned this many bytes; zero bytes means end of stream.
    Data { count: usize },
    /// The read would have blocked: the peer is quiet but alive.
    WouldBlock,
    /// The read failed (reset, closed, any other error).
    Failed,
}

/// Outcome of the non-blocking write of the payload to one peer.
#[derive(Clone, Copy, PartialEq, Eq, Structural, Debug)]
pub enum WriteAttempt {
    /// The write accepted this many bytes.
    Wrote { count: usize },
    /// The write failed outright.
    Failed,
}

/// A peer passes the liveness probe when the read yielded data or would have
/// blocked; end of stream (a read of zero bytes) and every error fail it.
pub open spec fn probe_alive(p: ReadProbe) -> bool {
    match p {
        ReadProbe::Data { count } => count >= 1,
        ReadProbe::WouldBlock => true,
        ReadProbe::Failed => false,
    }
}

/// A write counts only when the whole payload went out in the one attempt.
pub open spec fn write_ok(w: WriteAttempt, payload_len: nat) -> bool {
    match w {
        WriteAttempt::Wrote { count } => count == payload_len,
        WriteAttempt::Failed => false,
    }
}

/// The wire payload of a candidate word: the word with a line feed appended.
pub open spec fn spec_payload(word: Seq<u8>) -> Seq<u8> {
    word.push(10u8)
}

/// What the caller must do next with its sockets.
pub enum Action {
    /// Attempt the non-blocking liveness read on the peer at this index and
    /// report the outcome through `on_probe`.
    Probe { peer: usize },
    /// Attempt the non-blocking write of the payload to the peer at this
    /// index and report the outcome through `on_write`.
    Write { peer: usize },
    /// The poll is over. Close and drop the peers at these indices; they are
    /// given in descending order, so removing them one by one never shifts an
    /// index that is still to be removed.
    Finish { doomed: Vec<usize> },
}

enum Phase {
    Idle,
    Probing { idx: usize },
    Writing { idx: usize },
}

/// The broadcaster: the peer set, the last payload sent, and the progress of
/// the poll in hand, if one is running.
pub struct Broadcaster {
    peers: Vec<u64>,
    next_id: u64,
    last_sent: Option<Vec<u8>>,
    payload: Vec<u8>,
    doomed: Vec<usize>,
    phase: Phase,
}

/// `d` holds strictly increasing values.
pub open spec fn ascending(d: Seq<usize>) -> bool {
    forall|a: int, b: int| 0 <= a < b < d.len() ==> d[a] < d[b]
}

/// Some entry of `d` equals `i`.
pub open spec fn has_index(d: Seq<usize>, i: int) -> bool {
    exists|k: int| 0 <= k < d.len() && d[k] == i
}

/// The ids at positions of `ids` not listed in `d`, from position `i` on,
/// in their original order.
pub open spec fn keep_except(ids: Seq<u64>, d: Seq<usize>, i: int) -> Seq<u64>
    decreases ids.len() - i,
{
    if i >= ids.len() {
        Seq::empty()
    } else if has_index(d, i) {
        keep_except(ids, d, i + 1)
    } else {
        seq![ids[i]] + keep_except(ids, d, i + 1)
    }
}

impl Broadcaster {
    /// Identities of the connected peers, in order. Identities are unique
    /// for the lifetime of the broadcaster: one that was removed never
    /// comes back.
    pub closed spec fn peer_ids(self) -> Seq<u64> {
        self.peers@
    }

    /// The last payload pushed to every live peer, `None` before the first
    /// broadcast.
    pub closed spec fn last(self) -> Option<Seq<u8>> {
        match self.last_sent {
            Some(v) => Some(v@),
            None => None,
        }
    }

    /// No poll is in progress.
    pub closed spec fn is_idle(self) -> bool {
        self.phase is Idle
    }

    /// A poll is waiting for the liveness read of the current peer.
    pub closed spec fn is_probing(self) -> bool {
        self.phase is Probing
    }

    /// A poll is waiting for the write to the current peer.
    pub closed spec fn is_writing(self) -> bool {
        self.phase is Writing
    }

    /// Index of the peer the running poll is looking at.
    pub closed spec fn cur(self) -> int {
        match self.phase {
            Phase::Idle => -1,
            Phase::Probing { idx } => idx as int,
            Phase::Writing { idx } => idx as int,
        }
    }

    /// Payload of the running poll.
    pub closed spec fn cur_payload(self) -> Seq<u8> {
        self.payload@
    }

    /// Peer indices already marked for removal by the running poll, in
    /// increasing order.
    pub closed spec fn doomed_ixs(self) -> Seq<usize> {
        self.doomed@
    }

    /// A fresh identity is still available.
    pub closed spec fn can_register(self) -> bool {
        self.next_id < u64::MAX
    }

    pub closed spec fn wf(self) -> bool {
        &&& (forall|a: int, b: int|
            0 <= a < b < self.peers@.len() ==> self.peers@[a] < self.peers@[b])
        &&& (forall|a: int| 0 <= a < self.peers@.len() ==> self.peers@[a] < self.next_id)
        &&& (self.phase is Idle ==> self.doomed@.len() == 0)
        &&& (!(self.phase is Idle) ==> {
            &&& 0 <= self.cur() < self.peers@.len()
            &&& ascending(self.doomed@)
            &&& (forall|k: int| 0 <= k < self.doomed@.len() ==> self.doomed@[k] < self.cur())
        })
    }

    pub fn new() -> (b: Broadcaster)
        ensures
            b.wf(),
            b.is_idle(),
            b.peer_ids() == Seq::<u64>::empty(),
            b.last() == None::<Seq<u8>>,
            b.can_register(),
    {
        Broadcaster {
            peers: Vec::new(),
            next_id: 0,
            last_sent: None,
            payload: Vec::new(),
            doomed: Vec::new(),
            phase: Phase::Idle,
        }
    }

    /// Adds one freshly accepted peer to the set. The caller has already put
    /// the connection into non-blocking mode. Returns the peer's identity,
    /// or `None` in the (practically unreachable) case that the identity
    /// space is used up, in which case nothing changes and the caller drops
    /// the connection.
    pub fn register_peer(&mut self) -> (id: Option<u64>)
        requires
            old(self).wf(),
            old(self).is_idle(),
        ensures
            final(self).wf(),
            final(self).is_idle(),
            final(self).last() == old(self).last(),
            id is Some <==> old(self).can_register(),
            (id matches Some(fresh) ==> {
                &&& final(self).peer_ids() == old(self).peer_ids().push(fresh)
                &&& !old(self).peer_ids().contains(fresh)
            }),
            id is None ==> *final(self) == *old(self),
    {
        if self.next_id == u64::MAX {
            return None;
        }
        let id = self.next_id;
        self.next_id = self.next_id + 1;
        self.peers.push(id);
        proof {
            assert forall|a: int| 0 <= a < old(self).peers@.len() implies old(self).peers@[a]
                != id by {
                assert(old(self).peers@[a] < id);
            }
            assert(!old(self).peers@.contains(id));
        }
        Some(id)
    }

    /// Opens one poll with a candidate word. When the payload equals the
    /// last one sent, the poll is already over and nothing at all has
    /// happened: no probe, no write. When there is no peer, the payload is
    /// recorded as sent and the poll is over. Otherwise the caller must
    /// probe the first peer.
    pub fn begin_poll(&mut self, word: &Vec<u8>) -> (act: Option<Action>)
        requires
            old(self).wf(),
            old(self).is_idle(),
        ensures
            final(self).wf(),
            ({
                let p = spec_payload(word@);
                if old(self).last() == Some(p) {
                    &&& act is None
                    &&& *final(self) == *old(self)
                } else if old(self).peer_ids().len() == 0 {
                    &&& act is None
                    &&& final(self).is_idle()
                    &&& final(self).peer_ids() == old(self).peer_ids()
                    &&& final(self).last() == Some(p)
                } else {
                    &&& act == Some(Action::Probe { peer: 0 })
                    &&& final(self).is_probing()
                    &&& final(self).cur() == 0
                    &&& final(self).cur_payload() == p
                    &&& final(self).doomed_ixs() == Seq::<usize>::empty()
                    &&& final(self).peer_ids() == old(self).peer_ids()
                    &&& final(self).last() == old(self).last()
                }
            }),
    {
        let mut p = copy_bytes(word);
        p.push(10u8);
        let same = match &self.last_sent {
            None => false,
            Some(lw) => bytes_eq(lw, &p),
        };
        if same {
            return None;
        }
        if self.peers.len() == 0 {
            self.last_sent = Some(p);
            return None;
        }
        self.payload = p;
        self.doomed = Vec::new();
        self.phase = Phase::Probing { idx: 0 };
        Some(Action::Probe { peer: 0 })
    }

    /// Feeds the outcome of the liveness read on the current peer back into
    /// the poll. A peer whose read yielded data or would have blocked stays
    /// alive and is written to next; any other outcome condemns it, the
    /// write is skipped, and the poll moves on.
    pub fn on_probe(&mut self, outcome: ReadProbe) -> (act: Action)
        requires
            old(self).wf(),
            old(self).is_probing(),
        ensures
            final(self).wf(),
            probe_alive(outcome) ==> {
                &&& final(self).is_writing()
                &&& final(self).cur() == old(self).cur()
                &&& final(self).peer_ids() == old(self).peer_ids()
                &&& final(self).last() == old(self).last()
                &&& final(self).cur_payload() == old(self).cur_payload()
                &&& final(self).doomed_ixs() == old(self).doomed_ixs()
                &&& act == (Action::Write { peer: old(self).cur() as usize })
            },
            !probe_alive(outcome) ==> step_post(*old(self), *final(self), act, true),
    {
        let alive = match outcome {
            ReadProbe::Data { count } => count >= 1,
            ReadProbe::WouldBlock => true,
            ReadProbe::Failed => false,
        };
        if alive {
            let i = match &self.phase {
                Phase::Probing { idx } => *idx,
                Phase::Idle => 0,
                Phase::Writing { idx } => *idx,
            };
            self.phase = Phase::Writing { idx: i };
            Action::Write { peer: i }
        } else {
            self.step_next(true)
        }
    }

    /// Feeds the outcome of the write to the current peer back into the
    /// poll. Anything short of the whole payload in one attempt condemns the
    /// peer; the poll moves on either way.
    pub fn on_write(&mut self, outcome: WriteAttempt) -> (act: Action)
        requires
            old(self).wf(),
            old(self).is_writing(),
        ensures
            final(self).wf(),
            step_post(
                *old(self),
                *final(self),
                act,
                !write_ok(outcome, old(self).cur_payload().len()),
            ),
    {
        let full = match outcome {
            WriteAttempt::Wrote { count } => count == self.payload.len(),
            WriteAttempt::Failed => false,
        };
        self.step_next(!full)
    }

    /// Settles the verdict on the current peer and advances the poll: on to
    /// the next peer, or, past the last one, pruning and commit.
    fn step_next(&mut self, doom: bool) -> (act: Action)
        requires
            old(self).wf(),
            !old(self).is_idle(),
        ensures
            final(self).wf(),
            step_post(*old(self), *final(self), act, doom),
    {
        let i = match &self.phase {
            Phase::Probing { idx } => *idx,
            Phase::Writing { idx } => *idx,
            Phase::Idle => 0,
        };
        proof {
            assert(i as int == old(self).cur());
            assert(i < self.peers.len());
        }
        if doom {
            self.doomed.push(i);
        }
        if i + 1 < self.peers.len() {
            self.phase = Phase::Probing { idx: i + 1 };
            Action::Probe { peer: i + 1 }
        } else {
            proof {
                assert(ascending(self.doomed@)) by {
                    if doom {
                        assert forall|a: int, b: int|
                            0 <= a < b < self.doomed@.len() implies self.doomed@[a]
                            < self.doomed@[b] by {
                            if b == self.doomed@.len() - 1 {
                                assert(old(self).doomed_ixs()[a] < i);
                            }
                        }
                    }
                }
                lemma_keep_except_ascending(self.peers@, self.doomed@, 0);
                lemma_keep_except_elems(self.peers@, self.doomed@, 0);
            }
            let kept = surviving_peers(&self.peers, &self.doomed);
            proof {
                let ids = self.peers@;
                let d2 = self.doomed@;
                assert forall|a: int| 0 <= a < kept@.len() implies kept@[a] < self.next_id by {
                    let j = choose|j: int|
                        #![trigger ids[j]]
                        0 <= j < ids.len() && !has_index(d2, j) && keep_except(ids, d2, 0)[a]
                            == ids[j];
                    assert(ids[j] < self.next_id);
                }
            }
            self.peers = kept;
            self.last_sent = Some(copy_bytes(&self.payload));
            let desc = reversed(&self.doomed);
            self.doomed = Vec::new();
            self.phase = Phase::Idle;
            Action::Finish { doomed: desc }
        }
    }

    /// Number of connected peers.
    pub fn peer_count(&self) -> (n: usize)
        ensures
            n == self.peer_ids().len(),
    {
        self.peers.len()
    }

    /// Identity of the peer at an index.
    pub fn peer_id_at(&self, i: usize) -> (id: u64)
        requires
            i < self.peer_ids().len(),
        ensures
            id == self.peer_ids()[i as int],
    {
        self.peers[i]
    }

    /// Whether no poll is in progress.
    pub fn idle(&self) -> (b: bool)
        ensures
            b == self.is_idle(),
    {
        match &self.phase {
            Phase::Idle => true,
            Phase::Probing { .. } => false,
            Phase::Writing { .. } => false,
        }
    }

    /// Whether the poll in progress is waiting for a liveness read.
    pub fn probing(&self) -> (b: bool)
        ensures
            b == self.is_probing(),
    {
        match &self.phase {
            Phase::Probing { .. } => true,
            Phase::Idle => false,
            Phase::Writing { .. } => false,
        }
    }

    /// Whether the poll in progress is waiting for a write.
    pub fn writing(&self) -> (b: bool)
        ensures
            b == self.is_writing(),
    {
        match &self.phase {
            Phase::Writing { .. } => true,
            Phase::Idle => false,
            Phase::Probing { .. } => false,
        }
    }

    /// The payload of the poll in progress: what a `Action::Write` action
    /// asks the caller to send.
    pub fn payload_bytes(&self) -> (p: &Vec<u8>)
        requires
            !self.is_idle(),
        ensures
            p@ == self.cur_payload(),
    {
        &self.payload
    }
}

/// How one verdict on the current peer changes the machine: the peer is
/// condemned when `doom` holds; then the poll moves to the next peer or,
/// past the last one, removes the condemned peers, records the payload as
/// sent, and goes idle.
pub open spec fn step_post(pre: Broadcaster, post: Broadcaster, act: Action, doom: bool) -> bool {
    let i = pre.cur();
    let d2 = if doom {
        pre.doomed_ixs().push(i as usize)
    } else {
        pre.doomed_ixs()
    };
    if i + 1 < pre.peer_ids().len() {
        &&& post.is_probing()
        &&& post.cur() == i + 1
        &&& post.doomed_ixs() == d2
        &&& post.peer_ids() == pre.peer_ids()
        &&& post.last() == pre.last()
        &&& post.cur_payload() == pre.cur_payload()
        &&& act == (Action::Probe { peer: (i + 1) as usize })
    } else {
        &&& post.is_idle()
        &&& post.peer_ids() == keep_except(pre.peer_ids(), d2, 0)
        &&& post.last() == Some(pre.cur_payload())
        &&& (act matches Action::Finish { doomed } && doomed@ == d2.reverse())
    }
}

/// Every element of `keep_except(ids, d, i)` is an `ids[j]` whose index `j`
/// lies at or past `i` and is not listed in `d`.
proof fn lemma_keep_except_elems(ids: Seq<u64>, d: Seq<usize>, i: int)
    ensures
        forall|k: int| #![trigger keep_except(ids, d, i)[k]]
            0 <= k < keep_except(ids, d, i).len() ==> exists|j: int|
                #![trigger ids[j]]
                i <= j < ids.len() && !has_index(d, j) && keep_except(ids, d, i)[k] == ids[j],
    decreases ids.len() - i,
{
    if i >= ids.len() {
    } else if has_index(d, i) {
        lemma_keep_except_elems(ids, d, i + 1);
        assert forall|k: int| #![trigger keep_except(ids, d, i)[k]]
            0 <= k < keep_except(ids, d, i).len() implies exists|j: int|
            #![trigger ids[j]]
            i <= j < ids.len() && !has_index(d, j) && keep_except(ids, d, i)[k] == ids[j] by {
            let j = choose|j: int|
                i + 1 <= j < ids.len() && !has_index(d, j) && #[trigger] keep_except(ids, d, i + 1)[k]
                    == ids[j];
            assert(i <= j < ids.len() && !has_index(d, j) && keep_except(ids, d, i)[k] == ids[j]);
        }
    } else {
        lemma_keep_except_elems(ids, d, i + 1);
        assert forall|k: int| #![trigger keep_except(ids, d, i)[k]]
            0 <= k < keep_except(ids, d, i).len() implies exists|j: int|
            #![trigger ids[j]]
            i <= j < ids.len() && !has_index(d, j) && keep_except(ids, d, i)[k] == ids[j] by {
            if k == 0 {
                assert(keep_except(ids, d, i)[0] == ids[i]);
            } else {
                assert(keep_except(ids, d, i)[k] == keep_except(ids, d, i + 1)[k - 1]);
                let j = choose|j: int|
                    i + 1 <= j < ids.len() && !has_index(d, j) && #[trigger] keep_except(ids, d, i + 1)[k - 1]
                        == ids[j];
                assert(i <= j < ids.len() && !has_index(d, j) && keep_except(ids, d, i)[k]
                    == ids[j]);
            }
        }
    }
}

/// Pruning keeps the surviving ids in strictly increasing order.
proof fn lemma_keep_except_ascending(ids: Seq<u64>, d: Seq<usize>, i: int)
    requires
        0 <= i,
        forall|a: int, b: int| 0 <= a < b < ids.len() ==> ids[a] < ids[b],
    ensures
        forall|a: int, b: int|
            0 <= a < b < keep_except(ids, d, i).len() ==> keep_except(ids, d, i)[a] < keep_except(
                ids,
                d,
                i,
            )[b],
    decreases ids.len() - i,
{
    if i >= ids.len() {
    } else if has_index(d, i) {
        lemma_keep_except_ascending(ids, d, i + 1);
    } else {
        lemma_keep_except_ascending(ids, d, i + 1);
        lemma_keep_except_elems(ids, d, i + 1);
        let s = keep_except(ids, d, i);
        let rest = keep_except(ids, d, i + 1);
        assert forall|a: int, b: int| 0 <= a < b < s.len() implies s[a] < s[b] by {
            if a == 0 {
                assert(s[b] == rest[b - 1]);
                assert(0 <= b - 1 < rest.len());
                assert(keep_except(ids, d, i + 1)[b - 1] == rest[b - 1]);
                let j = choose|j: int|
                    i + 1 <= j < ids.len() && !has_index(d, j) && keep_except(ids, d, i + 1)[b - 1]
                        == #[trigger] ids[j];
                assert(i + 1 <= j < ids.len() && keep_except(ids, d, i + 1)[b - 1] == ids[j]);
                assert(ids[i] < ids[j]);
            } else {
                assert(s[a] == rest[a - 1] && s[b] == rest[b - 1]);
            }
        }
    }
}

/// A peer whose index was condemned during a poll is gone from the pruned
/// peer set: with the ids strictly increasing, an id occurs only at its own
/// index, and that index is skipped.
pub proof fn lemma_pruned_peer_removed(ids: Seq<u64>, d: Seq<usize>, j: int)
    requires
        forall|a: int, b: int| 0 <= a < b < ids.len() ==> ids[a] < ids[b],
        0 <= j < ids.len(),
        has_index(d, j),
    ensures
        !keep_except(ids, d, 0).contains(ids[j]),
{
    lemma_keep_except_elems(ids, d, 0);
    if keep_except(ids, d, 0).contains(ids[j]) {
        let k = choose|k: int|
            0 <= k < keep_except(ids, d, 0).len() && keep_except(ids, d, 0)[k] == ids[j];
        let j2 = choose|j2: int|
            0 <= j2 < ids.len() && !has_index(d, j2) && keep_except(ids, d, 0)[k] == #[trigger] ids[j2];
        if j2 < j {
            assert(ids[j2] < ids[j]);
        } else if j < j2 {
            assert(ids[j] < ids[j2]);
        }
    }
}

/// A peer whose index was never condemned during a poll survives the
/// pruning.
pub proof fn lemma_live_peer_kept(ids: Seq<u64>, d: Seq<usize>, j: int)
    requires
        0 <= j < ids.len(),
        !has_index(d, j),
    ensures
        keep_except(ids, d, 0).contains(ids[j]),
{
    lemma_live_peer_kept_from(ids, d, 0, j);
}

proof fn lemma_live_peer_kept_from(ids: Seq<u64>, d: Seq<usize>, i: int, j: int)
    requires
        0 <= i <= j < ids.len(),
        !has_index(d, j),
    ensures
        keep_except(ids, d, i).contains(ids[j]),
    decreases j - i,
{
    if i == j {
        assert(keep_except(ids, d, i)[0] == ids[j]);
    } else if has_index(d, i) {
        lemma_live_peer_kept_from(ids, d, i + 1, j);
    } else {
        lemma_live_peer_kept_from(ids, d, i + 1, j);
        let rest = keep_except(ids, d, i + 1);
        let k = choose|k: int| 0 <= k < rest.len() && rest[k] == ids[j];
        assert(keep_except(ids, d, i)[k + 1] == ids[j]);
    }
}

/// Every payload a subscriber receives when it is connected from the first
/// poll on and stays healthy: one entry per poll whose payload differs from
/// the value sent just before it, in poll order.
pub open spec fn delivered(prev: Option<Seq<u8>>, words: Seq<Seq<u8>>) -> Seq<Seq<u8>>
    decreases words.len(),
{
    if words.len() == 0 {
        Seq::empty()
    } else {
        let p = spec_payload(words[0]);
        if prev == Some(p) {
            delivered(prev, words.drop_first())
        } else {
            seq![p] + delivered(Some(p), words.drop_first())
        }
    }
}

/// The value that stands as "last sent" after a run of polls: the payload of
/// the final poll, or the starting value when there was no poll. (A poll
/// leaves this value in place exactly when it was already equal to the
/// poll's payload.)
pub open spec fn last_after(prev: Option<Seq<u8>>, words: Seq<Seq<u8>>) -> Option<Seq<u8>> {
    if words.len() == 0 {
        prev
    } else {
        Some(spec_payload(words.last()))
    }
}

/// One poll delivers its payload exactly when the payload differs from the
/// last value sent: the step `begin_poll` takes.
pub proof fn lemma_delivered_one_poll(prev: Option<Seq<u8>>, w: Seq<u8>)
    ensures
        delivered(prev, seq![w]) == if prev == Some(spec_payload(w)) {
            Seq::<Seq<u8>>::empty()
        } else {
            seq![spec_payload(w)]
        },
{
    let ws = seq![w];
    let p = spec_payload(w);
    assert(ws[0] == w);
    assert(ws.drop_first() =~= Seq::<Seq<u8>>::empty());
    assert(delivered(prev, Seq::<Seq<u8>>::empty()) == Seq::<Seq<u8>>::empty());
    assert(delivered(Some(p), Seq::<Seq<u8>>::empty()) == Seq::<Seq<u8>>::empty());
    if prev == Some(p) {
        assert(delivered(prev, ws) == delivered(prev, ws.drop_first()));
    } else {
        assert(delivered(prev, ws) == seq![p] + delivered(Some(p), ws.drop_first()));
        assert(seq![p] + Seq::<Seq<u8>>::empty() =~= seq![p]);
    }
}

/// A run of polls delivers its prefix's stream followed by what the last
/// poll delivers, starting from the value the prefix left behind: the
/// delivered stream composes poll by poll.
pub proof fn lemma_delivered_split(prev: Option<Seq<u8>>, words: Seq<Seq<u8>>, w: Seq<u8>)
    ensures
        delivered(prev, words.push(w)) == delivered(prev, words) + delivered(
            last_after(prev, words),
            seq![w],
        ),
    decreases words.len(),
{
    if words.len() == 0 {
        assert(words.push(w) =~= seq![w]);
        assert(delivered(prev, words.push(w)) =~= delivered(prev, words) + delivered(
            last_after(prev, words),
            seq![w],
        ));
    } else {
        let p0 = spec_payload(words[0]);
        let tail = words.drop_first();
        assert(words.push(w).drop_first() =~= tail.push(w));
        assert(words.push(w)[0] == words[0]);
        assert(tail.len() > 0 ==> tail.last() == words.last());
        if prev == Some(p0) {
            lemma_delivered_split(prev, tail, w);
            assert(last_after(prev, tail) == last_after(prev, words));
            assert(delivered(prev, words.push(w)) == delivered(prev, tail.push(w)));
            assert(delivered(prev, words) == delivered(prev, tail));
        } else {
            lemma_delivered_split(Some(p0), tail, w);
            assert(last_after(Some(p0), tail) == last_after(prev, words));
            assert(delivered(prev, words.push(w)) == seq![p0] + delivered(
                Some(p0),
                tail.push(w),
            ));
            assert(delivered(prev, words) == seq![p0] + delivered(Some(p0), tail));
            assert((seq![p0] + delivered(Some(p0), tail)) + delivered(
                last_after(prev, words),
                seq![w],
            ) =~= seq![p0] + (delivered(Some(p0), tail) + delivered(
                last_after(prev, words),
                seq![w],
            )));
        }
    }
}

/// What a subscriber receives never repeats: no two consecutive entries of
/// the delivered stream are equal, whatever the candidate words were.
pub proof fn lemma_no_adjacent_repeats(prev: Option<Seq<u8>>, words: Seq<Seq<u8>>)
    ensures
        forall|i: int| #![trigger delivered(prev, words)[i]]
            0 <= i < delivered(prev, words).len() - 1 ==> delivered(prev, words)[i] != delivered(
                prev,
                words,
            )[i + 1],
    decreases words.len(),
{
    if words.len() == 0 {
    } else {
        let p = spec_payload(words[0]);
        if prev == Some(p) {
            lemma_no_adjacent_repeats(prev, words.drop_first());
        } else {
            lemma_no_adjacent_repeats(Some(p), words.drop_first());
            lemma_delivered_first_differs(p, words.drop_first());
            let s = delivered(prev, words);
            let rest = delivered(Some(p), words.drop_first());
            assert forall|i: int| #![trigger s[i]] 0 <= i < s.len() - 1 implies s[i] != s[i + 1] by {
                if i == 0 {
                    assert(s[0] == p && s[1] == rest[0]);
                } else {
                    assert(s[i] == rest[i - 1] && s[i + 1] == rest[i]);
                }
            }
        }
    }
}

/// The first payload delivered after `prev` was sent differs from `prev`.
proof fn lemma_delivered_first_differs(prev: Seq<u8>, words: Seq<Seq<u8>>)
    ensures
        delivered(Some(prev), words).len() > 0 ==> delivered(Some(prev), words)[0] != prev,
    decreases words.len(),
{
    if words.len() == 0 {
    } else {
        let p = spec_payload(words[0]);
        if p == prev {
            lemma_delivered_first_differs(prev, words.drop_first());
        }
    }
}

/// Appending the line feed keeps distinct words distinct.
proof fn lemma_payload_injective(a: Seq<u8>, b: Seq<u8>)
    requires
        spec_payload(a) == spec_payload(b),
    ensures
        a == b,
{
    assert(spec_payload(a).drop_last() =~= a);
    assert(spec_payload(b).drop_last() =~= b);
}

/// When consecutive candidate words always differ, and the first differs
/// from what was last sent, the healthy subscriber receives every candidate,
/// in order, exactly once.
pub proof fn lemma_all_changes_delivered(prev: Option<Seq<u8>>, words: Seq<Seq<u8>>)
    requires
        words.len() > 0 ==> prev != Some(spec_payload(words[0])),
        forall|i: int| #![trigger words[i]] 0 <= i < words.len() - 1 ==> words[i] != words[i + 1],
    ensures
        delivered(prev, words) == words.map_values(|w: Seq<u8>| spec_payload(w)),
    decreases words.len(),
{
    if words.len() == 0 {
        assert(delivered(prev, words) =~= words.map_values(|w: Seq<u8>| spec_payload(w)));
    } else {
        let p = spec_payload(words[0]);
        let tail = words.drop_first();
        if tail.len() > 0 && p == spec_payload(tail[0]) {
            lemma_payload_injective(words[0], tail[0]);
            assert(words[0] == words[1]);
        }
        assert forall|i: int| #![trigger tail[i]] 0 <= i < tail.len() - 1 implies tail[i] != tail[i + 1] by {
            assert(tail[i] == words[i + 1] && tail[i + 1] == words[i + 2]);
        }
        lemma_all_changes_delivered(Some(p), tail);
        assert(delivered(prev, words) =~= words.map_values(|w: Seq<u8>| spec_payload(w))) by {
            assert(delivered(prev, words) == seq![p] + delivered(Some(p), tail));
            assert forall|i: int| 0 <= i < words.len() implies delivered(prev, words)[i]
                == spec_payload(words[i]) by {
                if i > 0 {
                    assert(delivered(prev, words)[i] == delivered(Some(p), tail)[i - 1]);
                    assert(delivered(Some(p), tail)[i - 1] == tail.map_values(
                        |w: Seq<u8>| spec_payload(w),
                    )[i - 1]);
                    assert(tail[i - 1] == words[i]);
                }
            }
        }
    }
}

fn copy_bytes(v: &Vec<u8>) -> (r: Vec<u8>)
    ensures
        r@ == v@,
{
    let mut r: Vec<u8> = Vec::new();
    let mut i: usize = 0;
    while i < v.len()
        invariant
            i <= v.len(),
            r@ == v@.subrange(0, i as int),
        decreases v.len() - i,
    {
        r.push(v[i]);
        assert(r@ =~= v@.subrange(0, i as int + 1));
        i = i + 1;
    }
    assert(r@ =~= v@);
    r
}

fn bytes_eq(a: &Vec<u8>, b: &Vec<u8>) -> (r: bool)
    ensures
        r == (a@ == b@),
{
    if a.len() != b.len() {
        return false;
    }
    let mut i: usize = 0;
    while i < a.len()
        invariant
            a@.len() == b@.len(),
            i <= a.len(),
            forall|k: int| 0 <= k < i ==> a@[k] == b@[k],
        decreases a.len() - i,
    {
        if a[i] != b[i] {
            return false;
        }
        i = i + 1;
    }
    proof {
        assert(a@ =~= b@);
    }
    true
}

fn reversed(d: &Vec<usize>) -> (r: Vec<usize>)
    ensures
        r@ == d@.reverse(),
{
    let mut r: Vec<usize> = Vec::new();
    let mut i: usize = d.len();
    while i > 0
        invariant
            i <= d.len(),
            r@.len() == d.len() - i,
            forall|k: int| 0 <= k < r@.len() ==> r@[k] == d@[d@.len() - 1 - k],
        decreases i,
    {
        i = i - 1;
        r.push(d[i]);
    }
    proof {
        assert(r@ =~= d@.reverse());
    }
    r
}

/// The peers of `ids` that survive pruning: those whose index is not listed
/// in `d`. Requires the ids strictly increasing (as the broadcaster keeps
/// them) and the doomed indices strictly increasing and in range.
fn surviving_peers(ids: &Vec<u64>, d: &Vec<usize>) -> (kept: Vec<u64>)
    requires
        forall|a: int, b: int| 0 <= a < b < ids@.len() ==> ids@[a] < ids@[b],
        ascending(d@),
        forall|k: int| 0 <= k < d@.len() ==> d@[k] < ids@.len(),
    ensures
        kept@ == keep_except(ids@, d@, 0),
{
    let mut kept: Vec<u64> = Vec::new();
    let mut di: usize = 0;
    let mut i: usize = 0;
    proof {
        assert(kept@ + keep_except(ids@, d@, 0) =~= keep_except(ids@, d@, 0));
    }
    while i < ids.len()
        invariant
            i <= ids.len(),
            di <= d@.len(),
            ascending(d@),
            forall|k: int| 0 <= k < d@.len() ==> d@[k] < ids@.len(),
            forall|k: int| 0 <= k < di ==> d@[k] < i,
            forall|k: int| di <= k < d@.len() ==> d@[k] >= i,
            keep_except(ids@, d@, 0) == kept@ + keep_except(ids@, d@, i as int),
        decreases ids.len() - i,
    {
        if di < d.len() && d[di] == i {
            proof {
                assert(has_index(d@, i as int));
                assert(keep_except(ids@, d@, i as int) == keep_except(ids@, d@, i as int + 1));
                assert forall|k: int| di + 1 <= k < d@.len() implies d@[k] >= i + 1 by {
                    assert(d@[di as int] < d@[k]);
                }
            }
            di = di + 1;
        } else {
            proof {
                assert(!has_index(d@, i as int)) by {
                    if has_index(d@, i as int) {
                        let k = choose|k: int| 0 <= k < d@.len() && d@[k] == i;
                        if k < di {
                            assert(d@[k] < i);
                        } else {
                            assert(d@[k] >= i);
                            if di < d@.len() {
                                if k > di {
                                    assert(d@[di as int] < d@[k]);
                                }
                            }
                        }
                    }
                }
                assert(keep_except(ids@, d@, i as int) == seq![ids@[i as int]] + keep_except(
                    ids@,
                    d@,
                    i as int + 1,
                ));
            }
            kept.push(ids[i]);
            proof {
                assert(keep_except(ids@, d@, 0) =~= kept@ + keep_except(ids@, d@, i as int + 1));
            }
        }
        i = i + 1;
    }
    proof {
        assert(kept@ =~= keep_except(ids@, d@, 0));
    }
    kept
}

} // verus!
