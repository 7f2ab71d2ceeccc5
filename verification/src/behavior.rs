//! The PBFT behaviour: peer bookkeeping, the outbound action queue, and the
//! three-phase replica state machine driving the log in [`crate::state`].

use vstd::prelude::*;
use vstd::arithmetic::div_mod::lemma_fundamental_div_mod;
use crate::message::{
    Commit, PrePrepare, PrePrepareSequence, Prepare, PrepareView, CommitView, PrePrepareView,
    ProtocolError, Request, bytes_eq, copy_bytes, digest_of,
};
use crate::codec::spec_encode_request;
use crate::state::State;

verus! {

/// Static protocol configuration.
pub struct Config {
    /// Total number of replicas; at least 1.
    pub n: u64,
    /// The fault bound `f = (n - 1) / 3`.
    pub f: u64,
    /// Low watermark: sequence numbers below it are refused.
    pub h: u64,
    /// High watermark: sequence numbers above it are refused.
    pub high: u64,
}

impl Config {
    pub open spec fn wf(self) -> bool {
        &&& self.n >= 1
        &&& self.f == (self.n - 1) as u64 / 3
        &&& 2 * self.f < u64::MAX
    }

    /// A configuration for `n` replicas with watermark window `[h, high]`.
    /// Without a checkpoint subsystem, `h = 0` and `high = u64::MAX`.
    pub fn new(n: u64, h: u64, high: u64) -> (r: Config)
        requires
            n >= 1,
        ensures
            r.wf(),
            r.n == n,
            r.h == h,
            r.high == high,
    {
        let f = (n - 1) / 3;
        proof {
            lemma_fundamental_div_mod((n - 1) as int, 3);
        }
        Config { n, f, h, high }
    }

    /// The fault bound.
    pub fn f(&self) -> (r: u64)
        ensures
            r == self.f,
    {
        self.f
    }
}

/// The application-level acknowledgement of an inbound protocol message:
/// "OK", or the error the message was rejected with.
#[derive(Clone, Copy, PartialEq, Eq, Structural, Debug)]
pub enum ResponseTag {
    Accepted,
    Rejected(ProtocolError),
}

/// An instruction for the per-connection handler of the substrate.
pub enum PbftHandlerIn {
    PrePrepareRequest(PrePrepare),
    PrepareRequest(Prepare),
    CommitRequest(Commit),
    /// Acknowledgement of an inbound PRE-PREPARE on the given connection.
    PrePrepareResponse(ResponseTag, u64),
    /// Acknowledgement of an inbound PREPARE on the given connection.
    PrepareResponse(ResponseTag, u64),
    /// Acknowledgement of an inbound COMMIT on the given connection.
    CommitResponse(ResponseTag, u64),
}

/// An inbound event from the substrate, tagged with its connection.
pub enum PbftHandlerEvent {
    ProcessPrePrepareRequest { request: PrePrepare, connection_id: u64 },
    ProcessPrepareRequest { request: Prepare, connection_id: u64 },
    ProcessCommitRequest { request: Commit, connection_id: u64 },
    /// A peer's acknowledgement of a message this replica sent.
    Response { response: Vec<u8> },
}

/// An action handed to the substrate: dial a peer, or send it an event.
pub enum NetworkAction {
    DialPeer { peer_id: u64 },
    SendEvent { peer_id: u64, event: PbftHandlerIn },
}

/// Whether `a` sends PREPARE `p` to `peer`.
pub open spec fn sends_prepare_to(a: NetworkAction, peer: u64, p: PrepareView) -> bool {
    match a {
        NetworkAction::SendEvent { peer_id, event } => peer_id == peer && match event {
            PbftHandlerIn::PrepareRequest(q) => q@ == p,
            _ => false,
        },
        NetworkAction::DialPeer { .. } => false,
    }
}

/// Whether `a` sends COMMIT `c` to `peer`.
pub open spec fn sends_commit_to(a: NetworkAction, peer: u64, c: CommitView) -> bool {
    match a {
        NetworkAction::SendEvent { peer_id, event } => peer_id == peer && match event {
            PbftHandlerIn::CommitRequest(q) => q@ == c,
            _ => false,
        },
        NetworkAction::DialPeer { .. } => false,
    }
}

/// Whether `a` sends PRE-PREPARE `p` to `peer`.
pub open spec fn sends_pre_prepare_to(a: NetworkAction, peer: u64, p: PrePrepareView) -> bool {
    match a {
        NetworkAction::SendEvent { peer_id, event } => peer_id == peer && match event {
            PbftHandlerIn::PrePrepareRequest(q) => q@ == p,
            _ => false,
        },
        NetworkAction::DialPeer { .. } => false,
    }
}

/// `b` carries on from `a`: `a` is a prefix of `b`.
pub open spec fn queue_extends(a: Seq<NetworkAction>, b: Seq<NetworkAction>) -> bool {
    a.len() <= b.len() && forall|k: int| #![trigger b[k]] 0 <= k < a.len() ==> b[k] == a[k]
}

/// The accepted log only grows: logged slots keep their digest and request,
/// votes are never withdrawn, and execution frontiers never retreat.
pub open spec fn log_extends(a: State, b: State) -> bool {
    &&& forall|v: u64, n: u64|
        #[trigger] a.has_slot(v, n) ==> b.has_slot(v, n) && b.slot_digest(v, n) == a.slot_digest(
            v,
            n,
        ) && b.slot_request(v, n) == a.slot_request(v, n) && b.prepare_count(v, n)
            >= a.prepare_count(v, n) && b.commit_count(v, n) >= a.commit_count(v, n)
    &&& forall|v: u64| #[trigger] b.executed_through(v) >= a.executed_through(v)
    &&& b.executions@.len() >= a.executions@.len()
    &&& forall|k: int|
        #![trigger b.executions@[k]]
        0 <= k < a.executions@.len() ==> b.executions@[k] == a.executions@[k]
}

proof fn lemma_log_extends_trans(a: State, b: State, c: State)
    requires
        log_extends(a, b),
        log_extends(b, c),
    ensures
        log_extends(a, c),
{
    assert forall|v: u64, n: u64| #[trigger] a.has_slot(v, n) implies c.has_slot(v, n)
        && c.slot_digest(v, n) == a.slot_digest(v, n) && c.slot_request(v, n) == a.slot_request(
        v,
        n,
    ) && c.prepare_count(v, n) >= a.prepare_count(v, n) && c.commit_count(v, n)
        >= a.commit_count(v, n) by {
        assert(b.has_slot(v, n));
    }
    assert forall|v: u64| #[trigger] c.executed_through(v) >= a.executed_through(v) by {
        assert(b.executed_through(v) >= a.executed_through(v));
    }
    assert forall|k: int|
        #![trigger c.executions@[k]]
        0 <= k < a.executions@.len() implies c.executions@[k] == a.executions@[k] by {
        assert(b.executions@[k] == a.executions@[k]);
    }
}

/// Emitted by the behaviour to the outer swarm; carries nothing yet.
#[derive(Debug)]
pub struct PbftEvent;

/// Opaque failure marker of the behaviour.
#[derive(Debug)]
pub struct PbftFailure;

impl PbftFailure {
    /// A short description of the failure.
    pub fn message(&self) -> (r: &'static str) {
        "pbft failure"
    }
}

/// Whether `(peer, addr)` stands in the address book `book`.
pub open spec fn book_has(book: Seq<(u64, Vec<u8>)>, peer: u64, addr: Seq<u8>) -> bool {
    exists|i: int| 0 <= i < book.len() && book[i].0 == peer && book[i].1@ == addr
}

/// The PBFT behaviour of one replica.
pub struct Pbft {
    /// This replica's identity.
    pub local_id: u64,
    pub config: Config,
    /// Known `(peer, address)` pairs; no duplicates.
    pub addresses: Vec<(u64, Vec<u8>)>,
    /// Currently connected peers; no duplicates.
    pub connected_peers: Vec<u64>,
    /// FIFO of actions for the substrate, drained by [`Pbft::poll`].
    pub queued_events: Vec<NetworkAction>,
    /// The protocol state (log, view, exactly-once filter, replies).
    pub state: State,
    /// The primary's sequence allocator.
    pub pre_prepare_sequence: PrePrepareSequence,
}

impl Pbft {
    /// Structural well-formedness: configuration and state are well-formed
    /// and peer bookkeeping is duplicate-free.
    pub open spec fn base_wf(self) -> bool {
        &&& self.config.wf()
        &&& self.state.wf()
        &&& forall|i: int, j: int|
            0 <= i < j < self.connected_peers@.len() ==> (#[trigger] self.connected_peers@[i]) != (
            #[trigger] self.connected_peers@[j])
        &&& forall|i: int, j: int|
            0 <= i < j < self.addresses@.len() ==> !((#[trigger] self.addresses@[i]).0 == (
            #[trigger] self.addresses@[j]).0 && self.addresses@[i].1@ == self.addresses@[j].1@)
    }

    /// Well-formedness: structurally well-formed, and execution is at its
    /// fixpoint (no slot after the frontier of the current view is
    /// committed-local).
    pub open spec fn wf(self) -> bool {
        &&& self.base_wf()
        &&& self.state.executed_through(self.state.current_view) < u64::MAX
            ==> !self.state.spec_committed_local(
            self.state.current_view,
            (self.state.executed_through(self.state.current_view) + 1) as u64,
            self.config.f,
        )
    }

    /// A fresh behaviour for replica `local_id` under `config`.
    pub fn new(local_id: u64, config: Config) -> (r: Pbft)
        requires
            config.wf(),
        ensures
            r.wf(),
            r.local_id == local_id,
            r.config == config,
            r.addresses@.len() == 0,
            r.connected_peers@.len() == 0,
            r.queued_events@.len() == 0,
            r.state.slots@.len() == 0,
            r.state.current_view == 0,
            r.state.replies@.len() == 0,
            r.state.executions@.len() == 0,
            r.pre_prepare_sequence.spec_value() == 0,
    {
        let state = State::new();
        let r = Pbft {
            local_id,
            config,
            addresses: Vec::new(),
            connected_peers: Vec::new(),
            queued_events: Vec::new(),
            state,
            pre_prepare_sequence: PrePrepareSequence::new(),
        };
        proof {
            assert(!r.state.has_slot(r.state.current_view, 1u64));
        }
        r
    }

    /// Whether `peer_id` is currently connected.
    pub fn has_peer(&self, peer_id: u64) -> (r: bool)
        ensures
            r == self.connected_peers@.contains(peer_id),
    {
        crate::state::vec_contains_u64(&self.connected_peers, peer_id)
    }

    /// Marks `peer_id` as connected.
    pub fn inject_connected(&mut self, peer_id: u64)
        requires
            old(self).wf(),
        ensures
            final(self).wf(),
            final(self).connected_peers@.contains(peer_id),
            forall|p: u64|
                #[trigger] final(self).connected_peers@.contains(p) == (old(self).connected_peers@.contains(p) || p == peer_id),
            final(self).local_id == old(self).local_id,
            final(self).config == old(self).config,
            final(self).addresses == old(self).addresses,
            final(self).queued_events == old(self).queued_events,
            final(self).state == old(self).state,
            final(self).pre_prepare_sequence == old(self).pre_prepare_sequence,
    {
        let ghost old_peers = self.connected_peers@;
        if !crate::state::vec_contains_u64(&self.connected_peers, peer_id) {
            self.connected_peers.push(peer_id);
            proof {
                assert(self.connected_peers@[old_peers.len() as int] == peer_id);
                assert forall|p: u64| #[trigger] self.connected_peers@.contains(p) == (
                old_peers.contains(p) || p == peer_id) by {
                    if old_peers.contains(p) {
                        let w = choose|w: int| 0 <= w < old_peers.len() && old_peers[w] == p;
                        assert(self.connected_peers@[w] == p);
                    }
                    if self.connected_peers@.contains(p) {
                        let w = choose|w: int|
                            0 <= w < self.connected_peers@.len() && self.connected_peers@[w] == p;
                        if w < old_peers.len() {
                            assert(old_peers[w] == p);
                        }
                    }
                }
            }
        }
    }

    /// Marks `peer_id` as disconnected.
    pub fn inject_disconnected(&mut self, peer_id: u64)
        requires
            old(self).wf(),
        ensures
            final(self).wf(),
            !final(self).connected_peers@.contains(peer_id),
            forall|p: u64|
                p != peer_id ==> #[trigger] final(self).connected_peers@.contains(p) == old(self).connected_peers@.contains(p),
            final(self).local_id == old(self).local_id,
            final(self).config == old(self).config,
            final(self).addresses == old(self).addresses,
            final(self).queued_events == old(self).queued_events,
            final(self).state == old(self).state,
            final(self).pre_prepare_sequence == old(self).pre_prepare_sequence,
    {
        let ghost old_peers = self.connected_peers@;
        let mut i: usize = 0;
        while i < self.connected_peers.len()
            invariant
                old(self).wf(),
                old_peers == old(self).connected_peers@,
                self.connected_peers@ == old_peers,
                i <= old_peers.len(),
                forall|j: int| 0 <= j < i ==> old_peers[j] != peer_id,
                *self == *old(self),
            decreases old_peers.len() - i,
        {
            if self.connected_peers[i] == peer_id {
                self.connected_peers.remove(i);
                proof {
                    let peers = self.connected_peers@;
                    assert(peers == old_peers.remove(i as int));
                    assert forall|p: u64|
                        p != peer_id implies #[trigger] peers.contains(p) == old_peers.contains(
                        p,
                    ) by {
                        if old_peers.contains(p) {
                            let w = choose|w: int| 0 <= w < old_peers.len() && old_peers[w] == p;
                            if w < i {
                                assert(peers[w] == p);
                            } else if w > i {
                                assert(peers[w - 1] == p);
                            }
                        }
                        if peers.contains(p) {
                            let w = choose|w: int| 0 <= w < peers.len() && peers[w] == p;
                            if w < i {
                                assert(old_peers[w] == p);
                            } else {
                                assert(old_peers[w + 1] == p);
                            }
                        }
                    }
                    assert forall|p: u64| !(#[trigger] self.connected_peers@.contains(p)) || p
                        != peer_id by {
                        if self.connected_peers@.contains(p) && p == peer_id {
                            let w = choose|w: int| 0 <= w < peers.len() && peers[w] == p;
                            if w < i {
                                assert(old_peers[w] == peer_id);
                            } else {
                                assert(old_peers[w + 1] == peer_id);
                                assert(old_peers[i as int] == peer_id);
                                assert(i < w + 1 < old_peers.len());
                            }
                        }
                    }
                    assert forall|a: int, b: int| 0 <= a < b < peers.len() implies peers[a]
                        != peers[b] by {
                        let oa: int = if a < i { a } else { a + 1 };
                        let ob: int = if b < i { b } else { b + 1 };
                        assert(peers[a] == old_peers[oa]);
                        assert(peers[b] == old_peers[ob]);
                        assert(old_peers[oa] != old_peers[ob]);
                    }
                }
                return ;
            }
            i = i + 1;
        }
        proof {
            assert(forall|j: int| 0 <= j < old_peers.len() ==> old_peers[j] != peer_id);
        }
    }

    /// Whether `(peer, addr)` stands in the address book.
    pub open spec fn has_address(self, peer: u64, addr: Seq<u8>) -> bool {
        book_has(self.addresses@, peer, addr)
    }

    /// Records an address for `peer` and asks the substrate to dial it.
    pub fn add_peer(&mut self, peer_id: u64, address: Vec<u8>)
        requires
            old(self).wf(),
        ensures
            final(self).wf(),
            final(self).queued_events@ == old(self).queued_events@.push(
                NetworkAction::DialPeer { peer_id },
            ),
            final(self).has_address(peer_id, address@),
            forall|p: u64, a: Seq<u8>|
                #[trigger] final(self).has_address(p, a) == (old(self).has_address(p, a) || (p
                    == peer_id && a == address@)),
            final(self).state == old(self).state,
            final(self).connected_peers == old(self).connected_peers,
            final(self).local_id == old(self).local_id,
            final(self).config == old(self).config,
            final(self).pre_prepare_sequence == old(self).pre_prepare_sequence,
    {
        let ghost book0 = self.addresses@;
        let mut i: usize = 0;
        let mut found = false;
        while i < self.addresses.len() && !found
            invariant
                *self == *old(self),
                book0 == self.addresses@,
                i <= book0.len(),
                !found ==> forall|j: int|
                    0 <= j < i ==> !((#[trigger] book0[j]).0 == peer_id && book0[j].1@
                        == address@),
                found ==> old(self).has_address(peer_id, address@),
            decreases book0.len() - i,
        {
            if self.addresses[i].0 == peer_id && bytes_eq(&self.addresses[i].1, &address) {
                found = true;
                proof {
                    assert(book0[i as int].0 == peer_id && book0[i as int].1@ == address@);
                }
            }
            i = i + 1;
        }
        if !found {
            proof {
                assert(forall|j: int|
                    0 <= j < book0.len() ==> !((#[trigger] book0[j]).0 == peer_id && book0[j].1@
                        == address@));
            }
            self.addresses.push((peer_id, address));
        }
        let ghost book1 = self.addresses@;
        proof {
            assert forall|p: u64, a: Seq<u8>| #[trigger] book_has(book1, p, a) == (book_has(
                book0,
                p,
                a,
            ) || (p == peer_id && a == address@)) by {
                if !found {
                    assert(book1[book0.len() as int].0 == peer_id && book1[book0.len() as int].1@
                        == address@);
                    if book_has(book0, p, a) {
                        let w = choose|w: int|
                            0 <= w < book0.len() && (#[trigger] book0[w]).0 == p && book0[w].1@
                                == a;
                        assert(book1[w].0 == p && book1[w].1@ == a);
                    }
                    if book_has(book1, p, a) {
                        let w = choose|w: int|
                            0 <= w < book1.len() && (#[trigger] book1[w]).0 == p && book1[w].1@
                                == a;
                        if w < book0.len() {
                            assert(book0[w].0 == p && book0[w].1@ == a);
                        }
                    }
                } else {
                    assert(book1 == book0);
                    if p == peer_id && a == address@ {
                        assert(book_has(book0, p, a));
                    }
                }
            }
            assert forall|x: int, y: int| 0 <= x < y < book1.len() implies !((
            #[trigger] book1[x]).0 == (#[trigger] book1[y]).0 && book1[x].1@ == book1[y].1@) by {
                if y < book0.len() {
                    assert(!(book0[x].0 == book0[y].0 && book0[x].1@ == book0[y].1@));
                } else {
                    assert(!found);
                    assert(!(book0[x].0 == peer_id && book0[x].1@ == address@));
                }
            }
        }
        self.queued_events.push(NetworkAction::DialPeer { peer_id });
        proof {
            assert(self.addresses@ == book1);
            assert(book_has(book1, peer_id, address@));
            assert(self.queued_events@ =~= old(self).queued_events@.push(
                NetworkAction::DialPeer { peer_id },
            ));
        }
    }

    /// The known addresses of `peer_id`, in book order.
    pub fn addresses_of_peer(&self, peer_id: u64) -> (r: Vec<Vec<u8>>)
        requires
            self.wf(),
        ensures
            forall|k: int|
                #![trigger r@[k]]
                0 <= k < r@.len() ==> self.has_address(peer_id, r@[k]@),
            forall|a: Seq<u8>|
                self.has_address(peer_id, a) ==> exists|k: int| 0 <= k < r@.len() && r@[k]@ == a,
    {
        let mut out: Vec<Vec<u8>> = Vec::new();
        let ghost mut srcs: Seq<int> = Seq::empty();
        let mut i: usize = 0;
        while i < self.addresses.len()
            invariant
                i <= self.addresses@.len(),
                out@.len() == srcs.len(),
                forall|k: int|
                    #![trigger srcs[k]]
                    0 <= k < srcs.len() ==> 0 <= srcs[k] < i && self.addresses@[srcs[k]].0
                        == peer_id && self.addresses@[srcs[k]].1@ == out@[k]@,
                forall|t: int|
                    #![trigger self.addresses@[t]]
                    0 <= t < i && self.addresses@[t].0 == peer_id ==> exists|k: int|
                        #![trigger out@[k]]
                        0 <= k < out@.len() && out@[k]@ == self.addresses@[t].1@,
            decreases self.addresses@.len() - i,
        {
            let ghost out0 = out@;
            let ghost ii = i as int;
            let matched = self.addresses[i].0 == peer_id;
            if matched {
                let a = copy_bytes(&self.addresses[i].1);
                out.push(a);
                proof {
                    srcs = srcs.push(ii);
                }
            }
            i = i + 1;
            proof {
                assert forall|t: int|
                    #![trigger self.addresses@[t]]
                    0 <= t < i && self.addresses@[t].0 == peer_id implies exists|k: int|
                    #![trigger out@[k]]
                    0 <= k < out@.len() && out@[k]@ == self.addresses@[t].1@ by {
                    if t < ii {
                        let k = choose|k: int|
                            #![trigger out0[k]]
                            0 <= k < out0.len() && out0[k]@ == self.addresses@[t].1@;
                        assert(out@[k]@ == self.addresses@[t].1@);
                    } else {
                        assert(matched);
                        assert(out@[out@.len() - 1]@ == self.addresses@[ii].1@);
                    }
                }
            }
        }
        proof {
            assert forall|k: int| 0 <= k < out@.len() implies self.has_address(
                peer_id,
                out@[k]@,
            ) by {
                assert(self.addresses@[srcs[k]].0 == peer_id && self.addresses@[srcs[k]].1@
                    == out@[k]@);
            }
        }
        out
    }

    /// Queues `prepare` for every connected peer, in peer order.
    fn broadcast_prepare(&mut self, prepare: &Prepare)
        ensures
            final(self).queued_events@.len() == old(self).queued_events@.len() + old(self).connected_peers@.len(),
            final(self).queued_events@.subrange(0, old(self).queued_events@.len() as int) == old(self).queued_events@,
            forall|k: int|
                0 <= k < old(self).connected_peers@.len() ==> sends_prepare_to(
                    #[trigger] final(self).queued_events@[old(self).queued_events@.len() + k],
                    old(self).connected_peers@[k],
                    prepare@,
                ),
            final(self).state == old(self).state,
            final(self).connected_peers == old(self).connected_peers,
            final(self).addresses == old(self).addresses,
            final(self).local_id == old(self).local_id,
            final(self).config == old(self).config,
            final(self).pre_prepare_sequence == old(self).pre_prepare_sequence,
    {
        let ghost q0 = self.queued_events@;
        let mut i: usize = 0;
        while i < self.connected_peers.len()
            invariant
                q0 == old(self).queued_events@,
                i <= self.connected_peers@.len(),
                self.connected_peers == old(self).connected_peers,
                self.queued_events@.len() == q0.len() + i,
                self.queued_events@.subrange(0, q0.len() as int) == q0,
                forall|k: int|
                    0 <= k < i ==> sends_prepare_to(
                        #[trigger] self.queued_events@[q0.len() + k],
                        self.connected_peers@[k],
                        prepare@,
                    ),
                self.state == old(self).state,
                self.addresses == old(self).addresses,
                self.local_id == old(self).local_id,
                self.config == old(self).config,
                self.pre_prepare_sequence == old(self).pre_prepare_sequence,
            decreases self.connected_peers@.len() - i,
        {
            let peer = self.connected_peers[i];
            self.queued_events.push(
                NetworkAction::SendEvent {
                    peer_id: peer,
                    event: PbftHandlerIn::PrepareRequest(prepare.duplicate()),
                },
            );
            proof {
                assert(self.queued_events@.subrange(0, q0.len() as int) =~= q0);
            }
            i = i + 1;
        }
    }

    /// Queues `commit` for every connected peer, in peer order.
    fn broadcast_commit(&mut self, commit: &Commit)
        ensures
            final(self).queued_events@.len() == old(self).queued_events@.len() + old(self).connected_peers@.len(),
            final(self).queued_events@.subrange(0, old(self).queued_events@.len() as int) == old(self).queued_events@,
            forall|k: int|
                0 <= k < old(self).connected_peers@.len() ==> sends_commit_to(
                    #[trigger] final(self).queued_events@[old(self).queued_events@.len() + k],
                    old(self).connected_peers@[k],
                    commit@,
                ),
            final(self).state == old(self).state,
            final(self).connected_peers == old(self).connected_peers,
            final(self).addresses == old(self).addresses,
            final(self).local_id == old(self).local_id,
            final(self).config == old(self).config,
            final(self).pre_prepare_sequence == old(self).pre_prepare_sequence,
    {
        let ghost q0 = self.queued_events@;
        let mut i: usize = 0;
        while i < self.connected_peers.len()
            invariant
                q0 == old(self).queued_events@,
                i <= self.connected_peers@.len(),
                self.connected_peers == old(self).connected_peers,
                self.queued_events@.len() == q0.len() + i,
                self.queued_events@.subrange(0, q0.len() as int) == q0,
                forall|k: int|
                    0 <= k < i ==> sends_commit_to(
                        #[trigger] self.queued_events@[q0.len() + k],
                        self.connected_peers@[k],
                        commit@,
                    ),
                self.state == old(self).state,
                self.addresses == old(self).addresses,
                self.local_id == old(self).local_id,
                self.config == old(self).config,
                self.pre_prepare_sequence == old(self).pre_prepare_sequence,
            decreases self.connected_peers@.len() - i,
        {
            let peer = self.connected_peers[i];
            self.queued_events.push(
                NetworkAction::SendEvent {
                    peer_id: peer,
                    event: PbftHandlerIn::CommitRequest(commit.duplicate()),
                },
            );
            proof {
                assert(self.queued_events@.subrange(0, q0.len() as int) =~= q0);
            }
            i = i + 1;
        }
    }

    /// Queues `pre_prepare` for every connected peer, in peer order.
    fn broadcast_pre_prepare(&mut self, pre_prepare: &PrePrepare)
        ensures
            final(self).queued_events@.len() == old(self).queued_events@.len() + old(self).connected_peers@.len(),
            final(self).queued_events@.subrange(0, old(self).queued_events@.len() as int) == old(self).queued_events@,
            forall|k: int|
                0 <= k < old(self).connected_peers@.len() ==> sends_pre_prepare_to(
                    #[trigger] final(self).queued_events@[old(self).queued_events@.len() + k],
                    old(self).connected_peers@[k],
                    pre_prepare@,
                ),
            final(self).state == old(self).state,
            final(self).connected_peers == old(self).connected_peers,
            final(self).addresses == old(self).addresses,
            final(self).local_id == old(self).local_id,
            final(self).config == old(self).config,
            final(self).pre_prepare_sequence == old(self).pre_prepare_sequence,
    {
        let ghost q0 = self.queued_events@;
        let mut i: usize = 0;
        while i < self.connected_peers.len()
            invariant
                q0 == old(self).queued_events@,
                i <= self.connected_peers@.len(),
                self.connected_peers == old(self).connected_peers,
                self.queued_events@.len() == q0.len() + i,
                self.queued_events@.subrange(0, q0.len() as int) == q0,
                forall|k: int|
                    0 <= k < i ==> sends_pre_prepare_to(
                        #[trigger] self.queued_events@[q0.len() + k],
                        self.connected_peers@[k],
                        pre_prepare@,
                    ),
                self.state == old(self).state,
                self.addresses == old(self).addresses,
                self.local_id == old(self).local_id,
                self.config == old(self).config,
                self.pre_prepare_sequence == old(self).pre_prepare_sequence,
            decreases self.connected_peers@.len() - i,
        {
            let peer = self.connected_peers[i];
            self.queued_events.push(
                NetworkAction::SendEvent {
                    peer_id: peer,
                    event: PbftHandlerIn::PrePrepareRequest(pre_prepare.duplicate()),
                },
            );
            proof {
                assert(self.queued_events@.subrange(0, q0.len() as int) =~= q0);
            }
            i = i + 1;
        }
    }

    /// The prepared predicate at this replica (threshold `2f`).
    pub fn prepared(&self, view: u64, sequence_number: u64) -> (r: bool)
        requires
            self.wf(),
        ensures
            r == self.state.spec_prepared(view, sequence_number, self.config.f),
    {
        self.state.prepared(view, sequence_number, self.config.f)
    }

    /// The committed predicate: prepared, with at least `f + 1` matching
    /// COMMIT votes — evidence that the request commits somewhere in the
    /// cluster. The local decision uses `committed_local` instead.
    pub fn committed(&self, view: u64, sequence_number: u64) -> (r: bool)
        requires
            self.wf(),
        ensures
            r == (self.state.spec_prepared(view, sequence_number, self.config.f)
                && self.state.commit_count(view, sequence_number) >= self.config.f + 1),
    {
        if !self.state.prepared(view, sequence_number, self.config.f) {
            return false;
        }
        match self.state.get_pre_prepare_by_key(view, sequence_number) {
            Some(stored) => {
                let c = self.state.count_commits(view, sequence_number, &stored.digest);
                c as u64 >= self.config.f + 1
            }
            None => vstd::pervasive::unreached(),
        }
    }

    /// The committed-local predicate at this replica (threshold `2f + 1`).
    pub fn committed_local(&self, view: u64, sequence_number: u64) -> (r: bool)
        requires
            self.wf(),
        ensures
            r == self.state.spec_committed_local(view, sequence_number, self.config.f),
    {
        self.state.committed_local(view, sequence_number, self.config.f)
    }

    /// Validates a PRE-PREPARE: V1 the signature verdict, V2 the digest
    /// binds the carried request, V3 the view is current, V4 the sequence
    /// lies in the watermark window, V5 no conflicting digest is logged.
    pub fn validate_pre_prepare(&self, pre_prepare: &PrePrepare, sig_ok: bool) -> (r: Result<
        (),
        ProtocolError,
    >)
        requires
            self.wf(),
        ensures
            r is Ok <==> (sig_ok && pre_prepare@.digest == digest_of(
                spec_encode_request(pre_prepare@.request),
            ) && pre_prepare@.view == self.state.current_view && self.config.h <= pre_prepare@.n
                && pre_prepare@.n <= self.config.high && (self.state.has_slot(
                pre_prepare@.view,
                pre_prepare@.n,
            ) ==> self.state.slot_digest(pre_prepare@.view, pre_prepare@.n)
                == pre_prepare@.digest)),
            match r {
                Ok(_) => true,
                Err(e) => {
                    ||| (e == ProtocolError::InvalidMessage && (!sig_ok || pre_prepare@.digest
                        != digest_of(spec_encode_request(pre_prepare@.request))))
                    ||| (e == ProtocolError::ViewMismatch && sig_ok && pre_prepare@.digest
                        == digest_of(spec_encode_request(pre_prepare@.request))
                        && pre_prepare@.view != self.state.current_view)
                    ||| (e == ProtocolError::OutOfWatermark && sig_ok && pre_prepare@.digest
                        == digest_of(spec_encode_request(pre_prepare@.request))
                        && pre_prepare@.view == self.state.current_view && !(self.config.h
                        <= pre_prepare@.n && pre_prepare@.n <= self.config.high))
                    ||| (e == ProtocolError::ConflictingDigest && sig_ok && pre_prepare@.digest
                        == digest_of(spec_encode_request(pre_prepare@.request))
                        && pre_prepare@.view == self.state.current_view && self.config.h
                        <= pre_prepare@.n && pre_prepare@.n <= self.config.high
                        && self.state.has_slot(pre_prepare@.view, pre_prepare@.n)
                        && self.state.slot_digest(pre_prepare@.view, pre_prepare@.n)
                        != pre_prepare@.digest)
                },
            },
    {
        if !sig_ok {
            return Err(ProtocolError::InvalidMessage);
        }
        if !pre_prepare.validate_digest() {
            return Err(ProtocolError::InvalidMessage);
        }
        if pre_prepare.view != self.state.current_view() {
            return Err(ProtocolError::ViewMismatch);
        }
        if pre_prepare.n < self.config.h || pre_prepare.n > self.config.high {
            return Err(ProtocolError::OutOfWatermark);
        }
        match self.state.get_pre_prepare(pre_prepare) {
            Some(stored) => {
                if !bytes_eq(&stored.digest, &pre_prepare.digest) {
                    return Err(ProtocolError::ConflictingDigest);
                }
            }
            None => {}
        }
        Ok(())
    }

    /// Validates a PREPARE: W1 the signature verdict, W3 the view is
    /// current, W2 a matching PRE-PREPARE of equal digest is logged.
    pub fn validate_prepare(&self, prepare: &Prepare, sig_ok: bool) -> (r: Result<
        (),
        ProtocolError,
    >)
        requires
            self.wf(),
        ensures
            r is Ok <==> (sig_ok && prepare@.view == self.state.current_view
                && self.state.has_slot(prepare@.view, prepare@.n) && self.state.slot_digest(
                prepare@.view,
                prepare@.n,
            ) == prepare@.digest),
            match r {
                Ok(_) => true,
                Err(e) => {
                    ||| (e == ProtocolError::InvalidMessage && !sig_ok)
                    ||| (e == ProtocolError::InvalidMessage && sig_ok && prepare@.view
                        == self.state.current_view && self.state.has_slot(
                        prepare@.view,
                        prepare@.n,
                    ) && self.state.slot_digest(prepare@.view, prepare@.n) != prepare@.digest)
                    ||| (e == ProtocolError::ViewMismatch && sig_ok && prepare@.view
                        != self.state.current_view)
                    ||| (e == ProtocolError::NoMatchingPrePrepare && sig_ok && prepare@.view
                        == self.state.current_view && !self.state.has_slot(
                        prepare@.view,
                        prepare@.n,
                    ))
                },
            },
    {
        if !sig_ok {
            return Err(ProtocolError::InvalidMessage);
        }
        if prepare.view != self.state.current_view() {
            return Err(ProtocolError::ViewMismatch);
        }
        match self.state.get_pre_prepare_by_key(prepare.view, prepare.n) {
            None => Err(ProtocolError::NoMatchingPrePrepare),
            Some(stored) => {
                if bytes_eq(&stored.digest, &prepare.digest) {
                    Ok(())
                } else {
                    Err(ProtocolError::InvalidMessage)
                }
            }
        }
    }

    /// Validates a COMMIT: X1 the signature verdict, X2 the view is current,
    /// X3 the sequence lies in the watermark window.
    pub fn validate_commit(&self, commit: &Commit, sig_ok: bool) -> (r: Result<(), ProtocolError>)
        requires
            self.wf(),
        ensures
            r is Ok <==> (sig_ok && commit@.view == self.state.current_view && self.config.h
                <= commit@.n && commit@.n <= self.config.high),
            match r {
                Ok(_) => true,
                Err(e) => {
                    ||| (e == ProtocolError::InvalidMessage && !sig_ok)
                    ||| (e == ProtocolError::ViewMismatch && sig_ok && commit@.view
                        != self.state.current_view)
                    ||| (e == ProtocolError::OutOfWatermark && sig_ok && commit@.view
                        == self.state.current_view && !(self.config.h <= commit@.n && commit@.n
                        <= self.config.high))
                },
            },
    {
        if !sig_ok {
            return Err(ProtocolError::InvalidMessage);
        }
        if commit.view != self.state.current_view() {
            return Err(ProtocolError::ViewMismatch);
        }
        if commit.n < self.config.h || commit.n > self.config.high {
            return Err(ProtocolError::OutOfWatermark);
        }
        Ok(())
    }

    /// After a vote was recorded for `(v, n)`: on the first transition into
    /// the prepared predicate, records this replica's own COMMIT and
    /// broadcasts it; then executes whatever slots became ready.
    fn progress_slot(&mut self, v: u64, n: u64, prepared_before: bool)
        requires
            old(self).base_wf(),
            v == old(self).state.current_view,
            old(self).state.has_slot(v, n),
            prepared_before ==> old(self).state.spec_prepared(v, n, old(self).config.f),
        ensures
            final(self).wf(),
            log_extends(old(self).state, final(self).state),
            queue_extends(old(self).queued_events@, final(self).queued_events@),
            final(self).state.current_view == old(self).state.current_view,
            final(self).connected_peers == old(self).connected_peers,
            final(self).addresses == old(self).addresses,
            final(self).local_id == old(self).local_id,
            final(self).config == old(self).config,
            final(self).pre_prepare_sequence == old(self).pre_prepare_sequence,
            ((prepared_before || !old(self).state.spec_prepared(v, n, old(self).config.f)) && (
            old(self).state.executed_through(v) == u64::MAX || !old(self).state.spec_committed_local(
                v,
                (old(self).state.executed_through(v) + 1) as u64,
                old(self).config.f,
            ))) ==> *final(self) == *old(self),
            (!prepared_before && old(self).state.spec_prepared(v, n, old(self).config.f)) ==> {
                &&& final(self).state.commit_voted(v, n, old(self).local_id)
                &&& final(self).queued_events@.len() == old(self).queued_events@.len() + old(self).connected_peers@.len()
                &&& forall|k: int|
                    0 <= k < old(self).connected_peers@.len() ==> sends_commit_to(
                        #[trigger] final(self).queued_events@[old(self).queued_events@.len() + k],
                        old(self).connected_peers@[k],
                        CommitView {
                            view: v,
                            n,
                            digest: old(self).state.slot_digest(v, n),
                            replica: old(self).local_id,
                        },
                    )
            },
            (prepared_before || !old(self).state.spec_prepared(v, n, old(self).config.f))
                ==> final(self).queued_events == old(self).queued_events,
            forall|v2: u64, n2: u64, r2: u64|
                #[trigger] old(self).state.prepare_voted(v2, n2, r2) ==> final(self).state.prepare_voted(v2, n2, r2),
            forall|v2: u64, n2: u64|
                old(self).state.has_slot(v2, n2) ==> #[trigger] final(self).state.prepare_count(
                    v2,
                    n2,
                ) == old(self).state.prepare_count(v2, n2),
            forall|v2: u64, n2: u64|
                #[trigger] final(self).state.has_slot(v2, n2) == old(self).state.has_slot(v2, n2),
            crate::state::execution_step(
                old(self).state,
                final(self).state,
                v,
                old(self).local_id,
            ),
    {
        let f = self.config.f;
        if !prepared_before && self.state.prepared(v, n, f) {
            let stored = match self.state.get_pre_prepare_by_key(v, n) {
                Some(p) => p,
                None => vstd::pervasive::unreached(),
            };
            let commit = Commit { view: v, n, digest: stored.digest, replica: self.local_id };
            match self.state.insert_commit(self.local_id, &commit) {
                Ok(_) => {}
                Err(_) => {
                    proof {
                        assert(false);
                    }
                }
            }
            self.broadcast_commit(&commit);
        }
        let ghost mid = *self;
        proof {
            assert(log_extends(old(self).state, mid.state)) by {
                assert forall|v2: u64, n2: u64| #[trigger] old(self).state.has_slot(v2, n2)
                    implies mid.state.has_slot(v2, n2) && mid.state.slot_digest(v2, n2) == old(self).state.slot_digest(v2, n2) && mid.state.slot_request(v2, n2) == old(self).state.slot_request(v2, n2) && mid.state.prepare_count(v2, n2) >= old(self).state.prepare_count(v2, n2) && mid.state.commit_count(v2, n2) >= old(self).state.commit_count(v2, n2) by {
                    if !prepared_before && old(self).state.spec_prepared(v, n, f) {
                        if v2 == v && n2 == n {
                            assert(mid.state.commit_count(v2, n2) >= old(self).state.commit_count(v2, n2));
                        } else {
                            assert(mid.state.commit_count(v2, n2) == old(self).state.commit_count(v2, n2));
                        }
                    } else {
                        assert(mid.state == old(self).state);
                    }
                }
            }
        }
        self.state.advance_execution(v, f, self.local_id);
        proof {
            assert(log_extends(mid.state, self.state)) by {
                assert forall|k: int|
                    #![trigger self.state.executions@[k]]
                    0 <= k < mid.state.executions@.len() implies self.state.executions@[k]
                    == mid.state.executions@[k] by {
                    assert(self.state.executions@.subrange(
                        0,
                        mid.state.executions@.len() as int,
                    )[k] == self.state.executions@[k]);
                }
            }
            lemma_log_extends_trans(old(self).state, mid.state, self.state);
            assert(self.state.slots == mid.state.slots);
            assert(old(self).state.executions == mid.state.executions);
            assert(old(self).state.replies == mid.state.replies);
            assert(old(self).state.executed == mid.state.executed);
            assert(old(self).state.last_replies == mid.state.last_replies);
            assert(crate::state::execution_step(
                old(self).state,
                self.state,
                v,
                self.local_id,
            ));
            assert forall|v2: u64, n2: u64| #[trigger] self.state.has_slot(v2, n2) == old(self).state.has_slot(v2, n2) by {
                assert(mid.state.has_slot(v2, n2) == old(self).state.has_slot(v2, n2));
            }
            assert forall|v2: u64, n2: u64, r2: u64| #[trigger] old(self).state.prepare_voted(
                v2,
                n2,
                r2,
            ) implies self.state.prepare_voted(v2, n2, r2) by {
                assert(mid.state.prepare_voted(v2, n2, r2));
            }
            assert forall|v2: u64, n2: u64| old(self).state.has_slot(v2, n2)
                implies #[trigger] self.state.prepare_count(v2, n2) == old(self).state.prepare_count(v2, n2) by {
                assert(mid.state.prepare_count(v2, n2) == old(self).state.prepare_count(v2, n2));
            }
        }
    }

    /// Handles a PRE-PREPARE: validates it, logs it, records and broadcasts
    /// this replica's own PREPARE, and follows any quorum progress. A
    /// re-delivered PRE-PREPARE already logged with the same digest changes
    /// nothing.
    pub fn process_pre_prepare(&mut self, pre_prepare: PrePrepare, sig_ok: bool) -> (r: Result<
        (),
        ProtocolError,
    >)
        requires
            old(self).wf(),
        ensures
            final(self).wf(),
            log_extends(old(self).state, final(self).state),
            queue_extends(old(self).queued_events@, final(self).queued_events@),
            final(self).state.current_view == old(self).state.current_view,
            final(self).connected_peers == old(self).connected_peers,
            final(self).addresses == old(self).addresses,
            final(self).local_id == old(self).local_id,
            final(self).config == old(self).config,
            final(self).pre_prepare_sequence == old(self).pre_prepare_sequence,
            r is Ok <==> (sig_ok && pre_prepare@.digest == digest_of(
                spec_encode_request(pre_prepare@.request),
            ) && pre_prepare@.view == old(self).state.current_view && old(self).config.h
                <= pre_prepare@.n && pre_prepare@.n <= old(self).config.high && (old(self).state.has_slot(pre_prepare@.view, pre_prepare@.n) ==> old(self).state.slot_digest(
                pre_prepare@.view,
                pre_prepare@.n,
            ) == pre_prepare@.digest)),
            r is Err ==> *final(self) == *old(self),
            (r is Ok && old(self).state.has_slot(pre_prepare@.view, pre_prepare@.n)) ==> *final(self) == *old(self),
            (r is Ok && !old(self).state.has_slot(pre_prepare@.view, pre_prepare@.n)) ==> {
                &&& final(self).state.has_slot(pre_prepare@.view, pre_prepare@.n)
                &&& final(self).state.slot_digest(pre_prepare@.view, pre_prepare@.n)
                    == pre_prepare@.digest
                &&& final(self).state.slot_request(pre_prepare@.view, pre_prepare@.n)
                    == pre_prepare@.request
                &&& final(self).state.prepare_voted(
                    pre_prepare@.view,
                    pre_prepare@.n,
                    old(self).local_id,
                )
                &&& forall|k: int|
                    0 <= k < old(self).connected_peers@.len() ==> sends_prepare_to(
                        #[trigger] final(self).queued_events@[old(self).queued_events@.len() + k],
                        old(self).connected_peers@[k],
                        PrepareView {
                            view: pre_prepare@.view,
                            n: pre_prepare@.n,
                            digest: pre_prepare@.digest,
                            replica: old(self).local_id,
                        },
                    )
            },
            // besides the PREPARE broadcast, a fresh acceptance sends
            // nothing unless it is also the first transition into prepared,
            // which stores and broadcasts the replica's own COMMIT
            (r is Ok && !old(self).state.has_slot(pre_prepare@.view, pre_prepare@.n) && !final(self).state.spec_prepared(pre_prepare@.view, pre_prepare@.n, old(self).config.f))
                ==> final(self).queued_events@.len() == old(self).queued_events@.len() + old(self).connected_peers@.len(),
            (r is Ok && !old(self).state.has_slot(pre_prepare@.view, pre_prepare@.n) && final(self).state.spec_prepared(pre_prepare@.view, pre_prepare@.n, old(self).config.f)) ==> {
                &&& final(self).state.commit_voted(
                    pre_prepare@.view,
                    pre_prepare@.n,
                    old(self).local_id,
                )
                &&& final(self).queued_events@.len() == old(self).queued_events@.len() + 2 * old(self).connected_peers@.len()
                &&& forall|k: int|
                    0 <= k < old(self).connected_peers@.len() ==> sends_commit_to(
                        #[trigger] final(self).queued_events@[old(self).queued_events@.len() + old(self).connected_peers@.len() + k],
                        old(self).connected_peers@[k],
                        CommitView {
                            view: pre_prepare@.view,
                            n: pre_prepare@.n,
                            digest: pre_prepare@.digest,
                            replica: old(self).local_id,
                        },
                    )
            },
            r is Ok ==> crate::state::execution_step(
                old(self).state,
                final(self).state,
                pre_prepare@.view,
                old(self).local_id,
            ),
            match r {
                Ok(_) => true,
                Err(e) => {
                    ||| (e == ProtocolError::InvalidMessage && (!sig_ok || pre_prepare@.digest != digest_of(spec_encode_request(pre_prepare@.request))))
                    ||| (e == ProtocolError::ViewMismatch && sig_ok && pre_prepare@.digest == digest_of(spec_encode_request(pre_prepare@.request)) && pre_prepare@.view != old(self).state.current_view)
                    ||| (e == ProtocolError::OutOfWatermark && sig_ok && pre_prepare@.digest == digest_of(spec_encode_request(pre_prepare@.request)) && pre_prepare@.view == old(self).state.current_view && !(old(self).config.h <= pre_prepare@.n && pre_prepare@.n <= old(self).config.high))
                    ||| (e == ProtocolError::ConflictingDigest && sig_ok && pre_prepare@.digest == digest_of(spec_encode_request(pre_prepare@.request)) && pre_prepare@.view == old(self).state.current_view && old(self).config.h <= pre_prepare@.n && pre_prepare@.n <= old(self).config.high && old(self).state.has_slot(pre_prepare@.view, pre_prepare@.n) && old(self).state.slot_digest(pre_prepare@.view, pre_prepare@.n) != pre_prepare@.digest)
                },
            },
    {
        match self.validate_pre_prepare(&pre_prepare, sig_ok) {
            Err(e) => {
                return Err(e);
            }
            Ok(_) => {}
        }
        let already = match self.state.get_pre_prepare(&pre_prepare) {
            Some(_) => true,
            None => false,
        };
        if already {
            proof {
                assert(crate::state::execution_step(
                    self.state,
                    self.state,
                    pre_prepare@.view,
                    self.local_id,
                ));
            }
            return Ok(());
        }
        let v = pre_prepare.view;
        let n = pre_prepare.n;
        let ghost ppv = pre_prepare@;
        let prepare = Prepare::from(&pre_prepare, self.local_id);
        match self.state.insert_pre_prepare(pre_prepare) {
            Ok(_) => {}
            Err(_) => {
                proof {
                    assert(false);
                }
            }
        }
        let ghost g1 = *self;
        match self.state.insert_prepare(self.local_id, &prepare) {
            Ok(_) => {}
            Err(_) => {
                proof {
                    assert(false);
                }
            }
        }
        let ghost g2 = *self;
        self.broadcast_prepare(&prepare);
        let ghost g3 = *self;
        self.progress_slot(v, n, false);
        proof {
            assert(old(self).state.executions == g3.state.executions);
            assert(old(self).state.replies == g3.state.replies);
            assert(old(self).state.executed == g3.state.executed);
            assert(old(self).state.last_replies == g3.state.last_replies);
            assert(crate::state::execution_step(old(self).state, self.state, v, self.local_id));
            assert(self.state.spec_prepared(v, n, self.config.f) == g3.state.spec_prepared(
                v,
                n,
                self.config.f,
            ));
            assert(log_extends(old(self).state, g1.state)) by {
                assert forall|v2: u64, n2: u64| #[trigger] old(self).state.has_slot(v2, n2)
                    implies g1.state.has_slot(v2, n2) && g1.state.slot_digest(v2, n2) == old(self).state.slot_digest(v2, n2) && g1.state.slot_request(v2, n2) == old(self).state.slot_request(v2, n2) && g1.state.prepare_count(v2, n2) >= old(self).state.prepare_count(v2, n2) && g1.state.commit_count(v2, n2) >= old(self).state.commit_count(v2, n2) by {
                    assert(g1.state.slot_at(v2, n2) == old(self).state.slot_at(v2, n2));
                }
            }
            assert(log_extends(g1.state, g2.state));
            lemma_log_extends_trans(old(self).state, g1.state, g2.state);
            assert(g3.state == g2.state);
            lemma_log_extends_trans(old(self).state, g2.state, self.state);
            assert(queue_extends(old(self).queued_events@, self.queued_events@));
            if !old(self).state.has_slot(v, n) {
                assert(g2.state.has_slot(v, n));
                assert(self.state.has_slot(v, n) && self.state.slot_digest(v, n)
                    == g2.state.slot_digest(v, n) && self.state.slot_request(v, n)
                    == g2.state.slot_request(v, n));
                assert(g2.state.prepare_voted(v, n, old(self).local_id));
                assert(self.state.prepare_voted(v, n, old(self).local_id));
                assert forall|k: int| 0 <= k < old(self).connected_peers@.len() implies sends_prepare_to(
                    #[trigger] self.queued_events@[old(self).queued_events@.len() + k],
                    old(self).connected_peers@[k],
                    PrepareView {
                        view: ppv.view,
                        n: ppv.n,
                        digest: ppv.digest,
                        replica: old(self).local_id,
                    },
                ) by {
                    assert(sends_prepare_to(
                        g3.queued_events@[old(self).queued_events@.len() + k],
                        old(self).connected_peers@[k],
                        prepare@,
                    ));
                    assert(self.queued_events@[old(self).queued_events@.len() + k]
                        == g3.queued_events@[old(self).queued_events@.len() + k]);
                }
            }
        }
        Ok(())
    }

    /// Handles a PREPARE voted by `replica`: validates it, records the vote
    /// idempotently, and follows any quorum progress. A re-delivered,
    /// already-recorded PREPARE changes nothing.
    #[verifier::rlimit(30)]
    pub fn process_prepare(&mut self, replica: u64, prepare: &Prepare, sig_ok: bool) -> (r: Result<
        (),
        ProtocolError,
    >)
        requires
            old(self).wf(),
        ensures
            final(self).wf(),
            log_extends(old(self).state, final(self).state),
            queue_extends(old(self).queued_events@, final(self).queued_events@),
            final(self).state.current_view == old(self).state.current_view,
            final(self).connected_peers == old(self).connected_peers,
            final(self).addresses == old(self).addresses,
            final(self).local_id == old(self).local_id,
            final(self).config == old(self).config,
            final(self).pre_prepare_sequence == old(self).pre_prepare_sequence,
            r is Ok <==> (sig_ok && prepare@.view == old(self).state.current_view && old(self).state.has_slot(prepare@.view, prepare@.n) && old(self).state.slot_digest(
                prepare@.view,
                prepare@.n,
            ) == prepare@.digest),
            r is Err ==> *final(self) == *old(self),
            (r is Ok && old(self).state.prepare_voted(prepare@.view, prepare@.n, replica))
                ==> *final(self) == *old(self),
            (r is Ok && !old(self).state.prepare_voted(prepare@.view, prepare@.n, replica)) ==> {
                &&& final(self).state.prepare_voted(prepare@.view, prepare@.n, replica)
                &&& final(self).state.prepare_count(prepare@.view, prepare@.n) == old(self).state.prepare_count(prepare@.view, prepare@.n) + 1
            },
            // the first transition into prepared stores and broadcasts the
            // replica's own COMMIT; any other accepted PREPARE sends nothing
            (r is Ok && !old(self).state.spec_prepared(
                prepare@.view,
                prepare@.n,
                old(self).config.f,
            ) && final(self).state.spec_prepared(prepare@.view, prepare@.n, old(self).config.f))
                ==> {
                &&& final(self).state.commit_voted(prepare@.view, prepare@.n, old(self).local_id)
                &&& final(self).queued_events@.len() == old(self).queued_events@.len() + old(self).connected_peers@.len()
                &&& forall|k: int|
                    0 <= k < old(self).connected_peers@.len() ==> sends_commit_to(
                        #[trigger] final(self).queued_events@[old(self).queued_events@.len() + k],
                        old(self).connected_peers@[k],
                        CommitView {
                            view: prepare@.view,
                            n: prepare@.n,
                            digest: prepare@.digest,
                            replica: old(self).local_id,
                        },
                    )
            },
            (r is Ok && (old(self).state.spec_prepared(
                prepare@.view,
                prepare@.n,
                old(self).config.f,
            ) || !final(self).state.spec_prepared(prepare@.view, prepare@.n, old(self).config.f)))
                ==> final(self).queued_events == old(self).queued_events,
            r is Ok ==> crate::state::execution_step(
                old(self).state,
                final(self).state,
                prepare@.view,
                old(self).local_id,
            ),
            match r {
                Ok(_) => true,
                Err(e) => {
                    ||| (e == ProtocolError::InvalidMessage && !sig_ok)
                    ||| (e == ProtocolError::InvalidMessage && sig_ok && prepare@.view == old(self).state.current_view && old(self).state.has_slot(prepare@.view, prepare@.n) && old(self).state.slot_digest(prepare@.view, prepare@.n) != prepare@.digest)
                    ||| (e == ProtocolError::ViewMismatch && sig_ok && prepare@.view != old(self).state.current_view)
                    ||| (e == ProtocolError::NoMatchingPrePrepare && sig_ok && prepare@.view == old(self).state.current_view && !old(self).state.has_slot(prepare@.view, prepare@.n))
                },
            },
    {
        if !sig_ok {
            return Err(ProtocolError::InvalidMessage);
        }
        if prepare.view != self.state.current_view() {
            return Err(ProtocolError::ViewMismatch);
        }
        let v = prepare.view;
        let n = prepare.n;
        let f = self.config.f;
        let prepared_before = self.state.prepared(v, n, f);
        match self.state.insert_prepare(replica, prepare) {
            Err(e) => Err(e),
            Ok(_) => {
                let ghost g1 = *self;
                self.progress_slot(v, n, prepared_before);
                proof {
                    assert(log_extends(old(self).state, g1.state));
                    lemma_log_extends_trans(old(self).state, g1.state, self.state);
                    assert(old(self).state.executions == g1.state.executions);
                    assert(old(self).state.replies == g1.state.replies);
                    assert(old(self).state.executed == g1.state.executed);
                    assert(old(self).state.last_replies == g1.state.last_replies);
                    assert(crate::state::execution_step(
                        old(self).state,
                        self.state,
                        v,
                        self.local_id,
                    ));
                    // the prepared predicate is settled by the insertion; the
                    // progression step preserves it
                    assert(self.state.spec_prepared(v, n, f) == g1.state.spec_prepared(v, n, f));
                    if old(self).state.prepare_voted(v, n, replica) {
                        assert(g1 == *old(self));
                    } else {
                        assert(g1.state.prepare_count(v, n) == old(self).state.prepare_count(
                            v,
                            n,
                        ) + 1);
                        assert(self.state.prepare_count(v, n) == g1.state.prepare_count(v, n));
                        assert(g1.state.prepare_voted(v, n, replica));
                        assert(self.state.prepare_voted(v, n, replica));
                    }
                }
                Ok(())
            }
        }
    }

    /// Handles a COMMIT voted by `replica`: validates it, records the vote
    /// idempotently (only with a matching PRE-PREPARE of equal digest), and
    /// executes whatever slots became committed-local, in sequence order.
    /// A re-delivered, already-recorded COMMIT changes nothing.
    #[verifier::rlimit(30)]
    pub fn process_commit(&mut self, replica: u64, commit: &Commit, sig_ok: bool) -> (r: Result<
        (),
        ProtocolError,
    >)
        requires
            old(self).wf(),
        ensures
            final(self).wf(),
            log_extends(old(self).state, final(self).state),
            final(self).queued_events == old(self).queued_events,
            final(self).state.current_view == old(self).state.current_view,
            final(self).connected_peers == old(self).connected_peers,
            final(self).addresses == old(self).addresses,
            final(self).local_id == old(self).local_id,
            final(self).config == old(self).config,
            final(self).pre_prepare_sequence == old(self).pre_prepare_sequence,
            r is Ok <==> (sig_ok && commit@.view == old(self).state.current_view && old(self).config.h <= commit@.n && commit@.n <= old(self).config.high && old(self).state.has_slot(commit@.view, commit@.n) && old(self).state.slot_digest(
                commit@.view,
                commit@.n,
            ) == commit@.digest),
            r is Err ==> *final(self) == *old(self),
            (r is Ok && old(self).state.commit_voted(commit@.view, commit@.n, replica)) ==> *final(self) == *old(self),
            (r is Ok && !old(self).state.commit_voted(commit@.view, commit@.n, replica)) ==> {
                &&& final(self).state.commit_voted(commit@.view, commit@.n, replica)
                &&& final(self).state.commit_count(commit@.view, commit@.n) == old(self).state.commit_count(commit@.view, commit@.n) + 1
            },
            r is Ok ==> crate::state::execution_step(
                old(self).state,
                final(self).state,
                commit@.view,
                old(self).local_id,
            ),
            match r {
                Ok(_) => true,
                Err(e) => {
                    ||| (e == ProtocolError::InvalidMessage && !sig_ok)
                    ||| (e == ProtocolError::InvalidMessage && sig_ok && commit@.view == old(self).state.current_view && old(self).config.h <= commit@.n && commit@.n <= old(self).config.high && old(self).state.has_slot(commit@.view, commit@.n) && old(self).state.slot_digest(commit@.view, commit@.n) != commit@.digest)
                    ||| (e == ProtocolError::ViewMismatch && sig_ok && commit@.view != old(self).state.current_view)
                    ||| (e == ProtocolError::OutOfWatermark && sig_ok && commit@.view == old(self).state.current_view && !(old(self).config.h <= commit@.n && commit@.n <= old(self).config.high))
                    ||| (e == ProtocolError::NoMatchingPrePrepare && sig_ok && commit@.view == old(self).state.current_view && old(self).config.h <= commit@.n && commit@.n <= old(self).config.high && !old(self).state.has_slot(commit@.view, commit@.n))
                },
            },
    {
        if !sig_ok {
            return Err(ProtocolError::InvalidMessage);
        }
        if commit.view != self.state.current_view() {
            return Err(ProtocolError::ViewMismatch);
        }
        if commit.n < self.config.h || commit.n > self.config.high {
            return Err(ProtocolError::OutOfWatermark);
        }
        let v = commit.view;
        let f = self.config.f;
        match self.state.insert_commit(replica, commit) {
            Err(e) => Err(e),
            Ok(_) => {
                let ghost g1 = *self;
                self.state.advance_execution(v, f, self.local_id);
                proof {
                    assert(log_extends(old(self).state, g1.state)) by {
                        assert forall|v2: u64, n2: u64| #[trigger] old(self).state.has_slot(
                            v2,
                            n2,
                        ) implies g1.state.has_slot(v2, n2) && g1.state.slot_digest(v2, n2)
                            == old(self).state.slot_digest(v2, n2) && g1.state.slot_request(
                            v2,
                            n2,
                        ) == old(self).state.slot_request(v2, n2) && g1.state.prepare_count(
                            v2,
                            n2,
                        ) >= old(self).state.prepare_count(v2, n2) && g1.state.commit_count(
                            v2,
                            n2,
                        ) >= old(self).state.commit_count(v2, n2) by {
                            if v2 == v && n2 == commit@.n {
                                assert(g1.state.commit_count(v2, n2) >= old(self).state.commit_count(v2, n2));
                            } else {
                                assert(g1.state.commit_count(v2, n2) == old(self).state.commit_count(v2, n2));
                            }
                        }
                    }
                    assert(log_extends(g1.state, self.state)) by {
                        assert forall|k: int|
                            #![trigger self.state.executions@[k]]
                            0 <= k < g1.state.executions@.len() implies self.state.executions@[k]
                            == g1.state.executions@[k] by {
                            assert(self.state.executions@.subrange(
                                0,
                                g1.state.executions@.len() as int,
                            )[k] == self.state.executions@[k]);
                        }
                    }
                    lemma_log_extends_trans(old(self).state, g1.state, self.state);
                    assert(old(self).state.executions == g1.state.executions);
                    assert(old(self).state.replies == g1.state.replies);
                    assert(old(self).state.executed == g1.state.executed);
                    assert(old(self).state.last_replies == g1.state.last_replies);
                    assert(crate::state::execution_step(
                        old(self).state,
                        self.state,
                        v,
                        self.local_id,
                    ));
                    if old(self).state.commit_voted(v, commit@.n, replica) {
                        assert(g1 == *old(self));
                    } else {
                        assert(self.state.commit_count(v, commit@.n) == g1.state.commit_count(
                            v,
                            commit@.n,
                        ));
                        assert(g1.state.commit_voted(v, commit@.n, replica));
                        assert(self.state.commit_voted(v, commit@.n, replica));
                    }
                }
                Ok(())
            }
        }
    }

    /// Primary intake of a client request: allocates the next sequence
    /// number, builds the PRE-PREPARE binding the request by digest,
    /// broadcasts it to every connected peer, and processes it locally.
    pub fn add_client_request(&mut self, client_request: Request) -> (r: Result<
        (),
        ProtocolError,
    >)
        requires
            old(self).wf(),
            old(self).pre_prepare_sequence.spec_value() < u64::MAX,
        ensures
            final(self).wf(),
            final(self).pre_prepare_sequence.spec_value() == old(self).pre_prepare_sequence.spec_value() + 1,
            log_extends(old(self).state, final(self).state),
            queue_extends(old(self).queued_events@, final(self).queued_events@),
            final(self).state.current_view == old(self).state.current_view,
            final(self).connected_peers == old(self).connected_peers,
            final(self).addresses == old(self).addresses,
            final(self).local_id == old(self).local_id,
            final(self).config == old(self).config,
            forall|k: int|
                0 <= k < old(self).connected_peers@.len() ==> sends_pre_prepare_to(
                    #[trigger] final(self).queued_events@[old(self).queued_events@.len() + k],
                    old(self).connected_peers@[k],
                    PrePrepareView {
                        view: old(self).state.current_view,
                        n: (old(self).pre_prepare_sequence.spec_value() + 1) as u64,
                        digest: digest_of(spec_encode_request(client_request@)),
                        request: client_request@,
                    },
                ),
            r is Ok <==> (old(self).config.h <= old(self).pre_prepare_sequence.spec_value() + 1
                && old(self).pre_prepare_sequence.spec_value() + 1 <= old(self).config.high && (
            old(self).state.has_slot(
                old(self).state.current_view,
                (old(self).pre_prepare_sequence.spec_value() + 1) as u64,
            ) ==> old(self).state.slot_digest(
                old(self).state.current_view,
                (old(self).pre_prepare_sequence.spec_value() + 1) as u64,
            ) == digest_of(spec_encode_request(client_request@)))),
            (r is Ok && !old(self).state.has_slot(
                old(self).state.current_view,
                (old(self).pre_prepare_sequence.spec_value() + 1) as u64,
            )) ==> {
                &&& final(self).state.has_slot(
                    old(self).state.current_view,
                    (old(self).pre_prepare_sequence.spec_value() + 1) as u64,
                )
                &&& final(self).state.slot_digest(
                    old(self).state.current_view,
                    (old(self).pre_prepare_sequence.spec_value() + 1) as u64,
                ) == digest_of(spec_encode_request(client_request@))
                &&& final(self).state.slot_request(
                    old(self).state.current_view,
                    (old(self).pre_prepare_sequence.spec_value() + 1) as u64,
                ) == client_request@
                &&& final(self).state.prepare_voted(
                    old(self).state.current_view,
                    (old(self).pre_prepare_sequence.spec_value() + 1) as u64,
                    old(self).local_id,
                )
                &&& forall|k: int|
                    0 <= k < old(self).connected_peers@.len() ==> sends_prepare_to(
                        #[trigger] final(self).queued_events@[old(self).queued_events@.len() + old(self).connected_peers@.len() + k],
                        old(self).connected_peers@[k],
                        PrepareView {
                            view: old(self).state.current_view,
                            n: (old(self).pre_prepare_sequence.spec_value() + 1) as u64,
                            digest: digest_of(spec_encode_request(client_request@)),
                            replica: old(self).local_id,
                        },
                    )
            },
            // the outbound queue gains exactly the broadcasts: the
            // PRE-PREPARE round, the local PREPARE round, and (only on the
            // first transition into prepared) the COMMIT round
            (r is Ok && !old(self).state.has_slot(
                old(self).state.current_view,
                (old(self).pre_prepare_sequence.spec_value() + 1) as u64,
            ) && !final(self).state.spec_prepared(
                old(self).state.current_view,
                (old(self).pre_prepare_sequence.spec_value() + 1) as u64,
                old(self).config.f,
            )) ==> final(self).queued_events@.len() == old(self).queued_events@.len() + 2 * old(self).connected_peers@.len(),
            (r is Ok && !old(self).state.has_slot(
                old(self).state.current_view,
                (old(self).pre_prepare_sequence.spec_value() + 1) as u64,
            ) && final(self).state.spec_prepared(
                old(self).state.current_view,
                (old(self).pre_prepare_sequence.spec_value() + 1) as u64,
                old(self).config.f,
            )) ==> {
                &&& final(self).state.commit_voted(
                    old(self).state.current_view,
                    (old(self).pre_prepare_sequence.spec_value() + 1) as u64,
                    old(self).local_id,
                )
                &&& final(self).queued_events@.len() == old(self).queued_events@.len() + 3 * old(self).connected_peers@.len()
                &&& forall|k: int|
                    0 <= k < old(self).connected_peers@.len() ==> sends_commit_to(
                        #[trigger] final(self).queued_events@[old(self).queued_events@.len() + 2 * old(self).connected_peers@.len() + k],
                        old(self).connected_peers@[k],
                        CommitView {
                            view: old(self).state.current_view,
                            n: (old(self).pre_prepare_sequence.spec_value() + 1) as u64,
                            digest: digest_of(spec_encode_request(client_request@)),
                            replica: old(self).local_id,
                        },
                    )
            },
            (r is Ok && old(self).state.has_slot(
                old(self).state.current_view,
                (old(self).pre_prepare_sequence.spec_value() + 1) as u64,
            )) ==> final(self).state == old(self).state && final(self).queued_events@.len()
                == old(self).queued_events@.len() + old(self).connected_peers@.len(),
            r is Err ==> final(self).state == old(self).state && final(self).queued_events@.len()
                == old(self).queued_events@.len() + old(self).connected_peers@.len(),
            r is Ok ==> crate::state::execution_step(
                old(self).state,
                final(self).state,
                old(self).state.current_view,
                old(self).local_id,
            ),
    {
        self.pre_prepare_sequence.increment();
        let n = self.pre_prepare_sequence.value();
        let view = self.state.current_view();
        let pre_prepare = PrePrepare::from(view, n, client_request);
        let ghost ppv = pre_prepare@;
        self.broadcast_pre_prepare(&pre_prepare);
        let ghost gb = *self;
        let r = self.process_pre_prepare(pre_prepare, true);
        proof {
            assert(gb.state == old(self).state);
            if r is Ok {
                assert(crate::state::execution_step(
                    old(self).state,
                    self.state,
                    view,
                    self.local_id,
                ));
                if !old(self).state.has_slot(view, n) && self.state.spec_prepared(
                    view,
                    n,
                    self.config.f,
                ) {
                    assert(self.state.commit_voted(view, n, self.local_id));
                    assert(self.queued_events@.len() == old(self).queued_events@.len() + 3 * old(self).connected_peers@.len());
                    assert forall|k: int|
                        0 <= k < old(self).connected_peers@.len() implies sends_commit_to(
                        #[trigger] self.queued_events@[old(self).queued_events@.len() + 2 * old(self).connected_peers@.len() + k],
                        old(self).connected_peers@[k],
                        CommitView {
                            view: old(self).state.current_view,
                            n: (old(self).pre_prepare_sequence.spec_value() + 1) as u64,
                            digest: digest_of(spec_encode_request(client_request@)),
                            replica: old(self).local_id,
                        },
                    ) by {
                        assert(sends_commit_to(
                            self.queued_events@[gb.queued_events@.len() + gb.connected_peers@.len() + k],
                            gb.connected_peers@[k],
                            CommitView { view: ppv.view, n: ppv.n, digest: ppv.digest, replica: gb.local_id },
                        ));
                        assert(gb.queued_events@.len() + gb.connected_peers@.len() + k == old(self).queued_events@.len() + 2 * old(self).connected_peers@.len() + k);
                        assert(ppv.digest == digest_of(spec_encode_request(client_request@)));
                    }
                }
            }
            assert(queue_extends(old(self).queued_events@, self.queued_events@)) by {
                assert(self.queued_events@.subrange(0, old(self).queued_events@.len() as int)
                    =~= old(self).queued_events@);
            }
            assert forall|k: int| 0 <= k < old(self).connected_peers@.len() implies sends_pre_prepare_to(
                #[trigger] self.queued_events@[old(self).queued_events@.len() + k],
                old(self).connected_peers@[k],
                PrePrepareView {
                    view: old(self).state.current_view,
                    n: (old(self).pre_prepare_sequence.spec_value() + 1) as u64,
                    digest: digest_of(spec_encode_request(client_request@)),
                    request: client_request@,
                },
            ) by {
                assert(self.queued_events@[old(self).queued_events@.len() + k] == self.queued_events@.subrange(
                    0,
                    (old(self).queued_events@.len() + old(self).connected_peers@.len()) as int,
                )[old(self).queued_events@.len() + k]);
            }
        }
        r
    }

    /// Dispatches an inbound transport event from `peer_id`: processes the
    /// carried protocol message and queues the application-level
    /// acknowledgement for its connection. `sig_ok` is the verdict of the
    /// pluggable signature verifier on the carried message.
    /// Handles one inbound PRE-PREPARE and queues its acknowledgement.
    fn dispatch_pre_prepare_event(
        &mut self,
        peer_id: u64,
        request: PrePrepare,
        connection_id: u64,
        sig_ok: bool,
    )
        requires
            old(self).wf(),
        ensures
            final(self).wf(),
            log_extends(old(self).state, final(self).state),
            queue_extends(old(self).queued_events@, final(self).queued_events@),
            final(self).state.current_view == old(self).state.current_view,
            final(self).connected_peers == old(self).connected_peers,
            final(self).addresses == old(self).addresses,
            final(self).local_id == old(self).local_id,
            final(self).config == old(self).config,
            final(self).pre_prepare_sequence == old(self).pre_prepare_sequence,
            final(self).queued_events@.len() > old(self).queued_events@.len(),
            (final(self).queued_events@.last() matches NetworkAction::SendEvent {
                peer_id: target,
                event: PbftHandlerIn::PrePrepareResponse(tag, conn),
            } && target == peer_id && conn == connection_id && (tag == ResponseTag::Accepted
                <==> (sig_ok && request@.digest == digest_of(
                spec_encode_request(request@.request),
            ) && request@.view == old(self).state.current_view && old(self).config.h <= request@.n
                && request@.n <= old(self).config.high && (old(self).state.has_slot(
                request@.view,
                request@.n,
            ) ==> old(self).state.slot_digest(request@.view, request@.n) == request@.digest)))),
            !(sig_ok && request@.digest == digest_of(spec_encode_request(request@.request))
                && request@.view == old(self).state.current_view && old(self).config.h
                <= request@.n && request@.n <= old(self).config.high && (old(self).state.has_slot(
                request@.view,
                request@.n,
            ) ==> old(self).state.slot_digest(request@.view, request@.n) == request@.digest))
                ==> final(self).state == old(self).state && final(self).queued_events@.len()
                == old(self).queued_events@.len() + 1,
            (sig_ok && request@.digest == digest_of(spec_encode_request(request@.request))
                && request@.view == old(self).state.current_view && old(self).config.h
                <= request@.n && request@.n <= old(self).config.high && !old(self).state.has_slot(
                request@.view,
                request@.n,
            )) ==> {
                &&& final(self).state.has_slot(request@.view, request@.n)
                &&& final(self).state.slot_digest(request@.view, request@.n) == request@.digest
                &&& final(self).state.slot_request(request@.view, request@.n) == request@.request
                &&& final(self).state.prepare_voted(
                    request@.view,
                    request@.n,
                    old(self).local_id,
                )
                &&& forall|k: int|
                    0 <= k < old(self).connected_peers@.len() ==> sends_prepare_to(
                        #[trigger] final(self).queued_events@[old(self).queued_events@.len() + k],
                        old(self).connected_peers@[k],
                        PrepareView {
                            view: request@.view,
                            n: request@.n,
                            digest: request@.digest,
                            replica: old(self).local_id,
                        },
                    )
            },
            (sig_ok && request@.digest == digest_of(spec_encode_request(request@.request))
                && request@.view == old(self).state.current_view && old(self).config.h
                <= request@.n && request@.n <= old(self).config.high && old(self).state.has_slot(
                request@.view,
                request@.n,
            ) && old(self).state.slot_digest(request@.view, request@.n) == request@.digest)
                ==> final(self).state == old(self).state && final(self).queued_events@.len()
                == old(self).queued_events@.len() + 1,
            crate::state::execution_step(
                old(self).state,
                final(self).state,
                request@.view,
                old(self).local_id,
            ),
    {
        let ghost rv = request@;
        let res = self.process_pre_prepare(request, sig_ok);
        let tag = match res {
            Ok(_) => ResponseTag::Accepted,
            Err(e) => ResponseTag::Rejected(e),
        };
        self.queued_events.push(
            NetworkAction::SendEvent {
                peer_id,
                event: PbftHandlerIn::PrePrepareResponse(tag, connection_id),
            },
        );
        proof {
            assert(self.queued_events@.subrange(0, old(self).queued_events@.len() as int)
                =~= old(self).queued_events@);
            if res is Err {
                assert(self.state == old(self).state);
            }
            if !(res is Ok) || self.state == old(self).state {
                assert(crate::state::execution_step(
                    old(self).state,
                    self.state,
                    rv.view,
                    self.local_id,
                ));
            }
        }
    }

    /// Handles one inbound PREPARE voted by `peer_id` and queues its
    /// acknowledgement.
    fn dispatch_prepare_event(
        &mut self,
        peer_id: u64,
        request: &Prepare,
        connection_id: u64,
        sig_ok: bool,
    )
        requires
            old(self).wf(),
        ensures
            final(self).wf(),
            log_extends(old(self).state, final(self).state),
            queue_extends(old(self).queued_events@, final(self).queued_events@),
            final(self).state.current_view == old(self).state.current_view,
            final(self).connected_peers == old(self).connected_peers,
            final(self).addresses == old(self).addresses,
            final(self).local_id == old(self).local_id,
            final(self).config == old(self).config,
            final(self).pre_prepare_sequence == old(self).pre_prepare_sequence,
            final(self).queued_events@.len() > old(self).queued_events@.len(),
            (final(self).queued_events@.last() matches NetworkAction::SendEvent {
                peer_id: target,
                event: PbftHandlerIn::PrepareResponse(tag, conn),
            } && target == peer_id && conn == connection_id && (tag == ResponseTag::Accepted
                <==> (sig_ok && request@.view == old(self).state.current_view && old(self).state.has_slot(
                request@.view,
                request@.n,
            ) && old(self).state.slot_digest(request@.view, request@.n) == request@.digest))),
            !(sig_ok && request@.view == old(self).state.current_view && old(self).state.has_slot(
                request@.view,
                request@.n,
            ) && old(self).state.slot_digest(request@.view, request@.n) == request@.digest)
                ==> final(self).state == old(self).state && final(self).queued_events@.len()
                == old(self).queued_events@.len() + 1,
            (sig_ok && request@.view == old(self).state.current_view && old(self).state.has_slot(
                request@.view,
                request@.n,
            ) && old(self).state.slot_digest(request@.view, request@.n) == request@.digest) ==> {
                &&& final(self).state.prepare_voted(request@.view, request@.n, peer_id)
                &&& (old(self).state.prepare_voted(request@.view, request@.n, peer_id) ==> final(self).state == old(self).state && final(self).queued_events@.len() == old(self).queued_events@.len() + 1)
                &&& (!old(self).state.prepare_voted(request@.view, request@.n, peer_id) ==> final(self).state.prepare_count(request@.view, request@.n) == old(self).state.prepare_count(request@.view, request@.n) + 1)
                &&& ((!old(self).state.spec_prepared(
                    request@.view,
                    request@.n,
                    old(self).config.f,
                ) && final(self).state.spec_prepared(
                    request@.view,
                    request@.n,
                    old(self).config.f,
                )) ==> {
                    &&& final(self).state.commit_voted(
                        request@.view,
                        request@.n,
                        old(self).local_id,
                    )
                    &&& final(self).queued_events@.len() == old(self).queued_events@.len() + old(self).connected_peers@.len() + 1
                    &&& forall|k: int|
                        0 <= k < old(self).connected_peers@.len() ==> sends_commit_to(
                            #[trigger] final(self).queued_events@[old(self).queued_events@.len()
                                + k],
                            old(self).connected_peers@[k],
                            CommitView {
                                view: request@.view,
                                n: request@.n,
                                digest: request@.digest,
                                replica: old(self).local_id,
                            },
                        )
                })
                &&& ((old(self).state.spec_prepared(
                    request@.view,
                    request@.n,
                    old(self).config.f,
                ) || !final(self).state.spec_prepared(
                    request@.view,
                    request@.n,
                    old(self).config.f,
                )) ==> final(self).queued_events@.len() == old(self).queued_events@.len() + 1)
            },
            crate::state::execution_step(
                old(self).state,
                final(self).state,
                request@.view,
                old(self).local_id,
            ),
    {
        let res = self.process_prepare(peer_id, request, sig_ok);
        let tag = match res {
            Ok(_) => ResponseTag::Accepted,
            Err(e) => ResponseTag::Rejected(e),
        };
        self.queued_events.push(
            NetworkAction::SendEvent {
                peer_id,
                event: PbftHandlerIn::PrepareResponse(tag, connection_id),
            },
        );
        proof {
            assert(self.queued_events@.subrange(0, old(self).queued_events@.len() as int)
                =~= old(self).queued_events@);
            if res is Err {
                assert(self.state == old(self).state);
                assert(crate::state::execution_step(
                    old(self).state,
                    self.state,
                    request@.view,
                    self.local_id,
                ));
            }
        }
    }

    /// Handles one inbound COMMIT voted by `peer_id` and queues its
    /// acknowledgement.
    fn dispatch_commit_event(
        &mut self,
        peer_id: u64,
        request: &Commit,
        connection_id: u64,
        sig_ok: bool,
    )
        requires
            old(self).wf(),
        ensures
            final(self).wf(),
            log_extends(old(self).state, final(self).state),
            queue_extends(old(self).queued_events@, final(self).queued_events@),
            final(self).state.current_view == old(self).state.current_view,
            final(self).connected_peers == old(self).connected_peers,
            final(self).addresses == old(self).addresses,
            final(self).local_id == old(self).local_id,
            final(self).config == old(self).config,
            final(self).pre_prepare_sequence == old(self).pre_prepare_sequence,
            final(self).queued_events@.len() == old(self).queued_events@.len() + 1,
            (final(self).queued_events@.last() matches NetworkAction::SendEvent {
                peer_id: target,
                event: PbftHandlerIn::CommitResponse(tag, conn),
            } && target == peer_id && conn == connection_id && (tag == ResponseTag::Accepted
                <==> (sig_ok && request@.view == old(self).state.current_view && old(self).config.h
                <= request@.n && request@.n <= old(self).config.high && old(self).state.has_slot(
                request@.view,
                request@.n,
            ) && old(self).state.slot_digest(request@.view, request@.n) == request@.digest))),
            !(sig_ok && request@.view == old(self).state.current_view && old(self).config.h
                <= request@.n && request@.n <= old(self).config.high && old(self).state.has_slot(
                request@.view,
                request@.n,
            ) && old(self).state.slot_digest(request@.view, request@.n) == request@.digest)
                ==> final(self).state == old(self).state,
            (sig_ok && request@.view == old(self).state.current_view && old(self).config.h
                <= request@.n && request@.n <= old(self).config.high && old(self).state.has_slot(
                request@.view,
                request@.n,
            ) && old(self).state.slot_digest(request@.view, request@.n) == request@.digest) ==> {
                &&& final(self).state.commit_voted(request@.view, request@.n, peer_id)
                &&& (old(self).state.commit_voted(request@.view, request@.n, peer_id) ==> final(self).state == old(self).state)
                &&& (!old(self).state.commit_voted(request@.view, request@.n, peer_id) ==> final(self).state.commit_count(request@.view, request@.n) == old(self).state.commit_count(request@.view, request@.n) + 1)
            },
            crate::state::execution_step(
                old(self).state,
                final(self).state,
                request@.view,
                old(self).local_id,
            ),
    {
        let res = self.process_commit(peer_id, request, sig_ok);
        let tag = match res {
            Ok(_) => ResponseTag::Accepted,
            Err(e) => ResponseTag::Rejected(e),
        };
        self.queued_events.push(
            NetworkAction::SendEvent {
                peer_id,
                event: PbftHandlerIn::CommitResponse(tag, connection_id),
            },
        );
        proof {
            assert(self.queued_events@.subrange(0, old(self).queued_events@.len() as int)
                =~= old(self).queued_events@);
            if res is Err {
                assert(self.state == old(self).state);
                assert(crate::state::execution_step(
                    old(self).state,
                    self.state,
                    request@.view,
                    self.local_id,
                ));
            }
        }
    }

    #[verifier::rlimit(30)]
    pub fn inject_node_event(&mut self, peer_id: u64, handler_event: PbftHandlerEvent, sig_ok: bool)
        requires
            old(self).wf(),
        ensures
            final(self).wf(),
            log_extends(old(self).state, final(self).state),
            queue_extends(old(self).queued_events@, final(self).queued_events@),
            final(self).state.current_view == old(self).state.current_view,
            final(self).connected_peers == old(self).connected_peers,
            final(self).addresses == old(self).addresses,
            final(self).local_id == old(self).local_id,
            final(self).config == old(self).config,
            final(self).pre_prepare_sequence == old(self).pre_prepare_sequence,
            (handler_event matches PbftHandlerEvent::Response { .. }) ==> *final(self) == *old(self),
            (handler_event matches PbftHandlerEvent::ProcessPrePrepareRequest {
                request,
                connection_id,
            } ==> final(self).queued_events@.len() > old(self).queued_events@.len() && (final(self).queued_events@.last() matches NetworkAction::SendEvent {
                peer_id: target,
                event: PbftHandlerIn::PrePrepareResponse(tag, conn),
            } && target == peer_id && conn == connection_id && (tag == ResponseTag::Accepted
                <==> (sig_ok && request@.digest == digest_of(
                spec_encode_request(request@.request),
            ) && request@.view == old(self).state.current_view && old(self).config.h <= request@.n
                && request@.n <= old(self).config.high && (old(self).state.has_slot(
                request@.view,
                request@.n,
            ) ==> old(self).state.slot_digest(request@.view, request@.n) == request@.digest))))),
            (handler_event matches PbftHandlerEvent::ProcessPrepareRequest {
                request,
                connection_id,
            } ==> final(self).queued_events@.len() > old(self).queued_events@.len() && (final(self).queued_events@.last() matches NetworkAction::SendEvent {
                peer_id: target,
                event: PbftHandlerIn::PrepareResponse(tag, conn),
            } && target == peer_id && conn == connection_id && (tag == ResponseTag::Accepted
                <==> (sig_ok && request@.view == old(self).state.current_view && old(self).state.has_slot(
                request@.view,
                request@.n,
            ) && old(self).state.slot_digest(request@.view, request@.n) == request@.digest)))),
            (handler_event matches PbftHandlerEvent::ProcessCommitRequest {
                request,
                connection_id,
            } ==> final(self).queued_events@.len() > old(self).queued_events@.len() && (final(self).queued_events@.last() matches NetworkAction::SendEvent {
                peer_id: target,
                event: PbftHandlerIn::CommitResponse(tag, conn),
            } && target == peer_id && conn == connection_id && (tag == ResponseTag::Accepted
                <==> (sig_ok && request@.view == old(self).state.current_view && old(self).config.h
                <= request@.n && request@.n <= old(self).config.high && old(self).state.has_slot(
                request@.view,
                request@.n,
            ) && old(self).state.slot_digest(request@.view, request@.n) == request@.digest)))),
            // a rejected message is dropped with the replica untouched: only
            // the acknowledgement leaves
            (handler_event matches PbftHandlerEvent::ProcessPrePrepareRequest { request, .. }
                ==> (!(sig_ok && request@.digest == digest_of(
                spec_encode_request(request@.request),
            ) && request@.view == old(self).state.current_view && old(self).config.h <= request@.n
                && request@.n <= old(self).config.high && (old(self).state.has_slot(
                request@.view,
                request@.n,
            ) ==> old(self).state.slot_digest(request@.view, request@.n) == request@.digest))
                ==> final(self).state == old(self).state && final(self).queued_events@.len()
                == old(self).queued_events@.len() + 1)),
            (handler_event matches PbftHandlerEvent::ProcessPrepareRequest { request, .. } ==> (!(
            sig_ok && request@.view == old(self).state.current_view && old(self).state.has_slot(
                request@.view,
                request@.n,
            ) && old(self).state.slot_digest(request@.view, request@.n) == request@.digest)
                ==> final(self).state == old(self).state && final(self).queued_events@.len()
                == old(self).queued_events@.len() + 1)),
            (handler_event matches PbftHandlerEvent::ProcessCommitRequest { request, .. } ==> (!(
            sig_ok && request@.view == old(self).state.current_view && old(self).config.h
                <= request@.n && request@.n <= old(self).config.high && old(self).state.has_slot(
                request@.view,
                request@.n,
            ) && old(self).state.slot_digest(request@.view, request@.n) == request@.digest)
                ==> final(self).state == old(self).state && final(self).queued_events@.len()
                == old(self).queued_events@.len() + 1)),
            // an accepted fresh PRE-PREPARE logs the slot, records this
            // replica's own PREPARE and broadcasts it to every peer
            (handler_event matches PbftHandlerEvent::ProcessPrePrepareRequest { request, .. }
                ==> ((sig_ok && request@.digest == digest_of(
                spec_encode_request(request@.request),
            ) && request@.view == old(self).state.current_view && old(self).config.h <= request@.n
                && request@.n <= old(self).config.high && !old(self).state.has_slot(
                request@.view,
                request@.n,
            )) ==> {
                &&& final(self).state.has_slot(request@.view, request@.n)
                &&& final(self).state.slot_digest(request@.view, request@.n) == request@.digest
                &&& final(self).state.slot_request(request@.view, request@.n) == request@.request
                &&& final(self).state.prepare_voted(
                    request@.view,
                    request@.n,
                    old(self).local_id,
                )
                &&& forall|k: int|
                    0 <= k < old(self).connected_peers@.len() ==> sends_prepare_to(
                        #[trigger] final(self).queued_events@[old(self).queued_events@.len() + k],
                        old(self).connected_peers@[k],
                        PrepareView {
                            view: request@.view,
                            n: request@.n,
                            digest: request@.digest,
                            replica: old(self).local_id,
                        },
                    )
            })),
            // an accepted re-delivered PRE-PREPARE changes nothing
            (handler_event matches PbftHandlerEvent::ProcessPrePrepareRequest { request, .. }
                ==> ((sig_ok && request@.digest == digest_of(
                spec_encode_request(request@.request),
            ) && request@.view == old(self).state.current_view && old(self).config.h <= request@.n
                && request@.n <= old(self).config.high && old(self).state.has_slot(
                request@.view,
                request@.n,
            ) && old(self).state.slot_digest(request@.view, request@.n) == request@.digest)
                ==> final(self).state == old(self).state && final(self).queued_events@.len()
                == old(self).queued_events@.len() + 1)),
            // an accepted PREPARE records the voter; on the first transition
            // into prepared, this replica's own COMMIT is stored and
            // broadcast to every peer
            (handler_event matches PbftHandlerEvent::ProcessPrepareRequest { request, .. } ==> ((
            sig_ok && request@.view == old(self).state.current_view && old(self).state.has_slot(
                request@.view,
                request@.n,
            ) && old(self).state.slot_digest(request@.view, request@.n) == request@.digest) ==> {
                &&& final(self).state.prepare_voted(request@.view, request@.n, peer_id)
                &&& (old(self).state.prepare_voted(request@.view, request@.n, peer_id) ==> final(self).state == old(self).state && final(self).queued_events@.len() == old(self).queued_events@.len() + 1)
                &&& (!old(self).state.prepare_voted(request@.view, request@.n, peer_id) ==> final(self).state.prepare_count(request@.view, request@.n) == old(self).state.prepare_count(request@.view, request@.n) + 1)
                &&& ((!old(self).state.spec_prepared(
                    request@.view,
                    request@.n,
                    old(self).config.f,
                ) && final(self).state.spec_prepared(
                    request@.view,
                    request@.n,
                    old(self).config.f,
                )) ==> {
                    &&& final(self).state.commit_voted(
                        request@.view,
                        request@.n,
                        old(self).local_id,
                    )
                    &&& final(self).queued_events@.len() == old(self).queued_events@.len() + old(self).connected_peers@.len() + 1
                    &&& forall|k: int|
                        0 <= k < old(self).connected_peers@.len() ==> sends_commit_to(
                            #[trigger] final(self).queued_events@[old(self).queued_events@.len()
                                + k],
                            old(self).connected_peers@[k],
                            CommitView {
                                view: request@.view,
                                n: request@.n,
                                digest: request@.digest,
                                replica: old(self).local_id,
                            },
                        )
                })
                &&& ((old(self).state.spec_prepared(
                    request@.view,
                    request@.n,
                    old(self).config.f,
                ) || !final(self).state.spec_prepared(
                    request@.view,
                    request@.n,
                    old(self).config.f,
                )) ==> final(self).queued_events@.len() == old(self).queued_events@.len() + 1)
            })),
            // an accepted COMMIT records the voter and sends nothing beyond
            // the acknowledgement
            (handler_event matches PbftHandlerEvent::ProcessCommitRequest { request, .. } ==> ((
            sig_ok && request@.view == old(self).state.current_view && old(self).config.h
                <= request@.n && request@.n <= old(self).config.high && old(self).state.has_slot(
                request@.view,
                request@.n,
            ) && old(self).state.slot_digest(request@.view, request@.n) == request@.digest) ==> {
                &&& final(self).state.commit_voted(request@.view, request@.n, peer_id)
                &&& (old(self).state.commit_voted(request@.view, request@.n, peer_id) ==> final(self).state == old(self).state)
                &&& (!old(self).state.commit_voted(request@.view, request@.n, peer_id) ==> final(self).state.commit_count(request@.view, request@.n) == old(self).state.commit_count(request@.view, request@.n) + 1)
                &&& final(self).queued_events@.len() == old(self).queued_events@.len() + 1
            })),
            // whatever was delivered, execution advanced lawfully in the
            // message's view: the frontier, history and replies move as one
            (handler_event matches PbftHandlerEvent::ProcessPrePrepareRequest { request, .. }
                ==> crate::state::execution_step(
                old(self).state,
                final(self).state,
                request@.view,
                old(self).local_id,
            )),
            (handler_event matches PbftHandlerEvent::ProcessPrepareRequest { request, .. }
                ==> crate::state::execution_step(
                old(self).state,
                final(self).state,
                request@.view,
                old(self).local_id,
            )),
            (handler_event matches PbftHandlerEvent::ProcessCommitRequest { request, .. }
                ==> crate::state::execution_step(
                old(self).state,
                final(self).state,
                request@.view,
                old(self).local_id,
            )),
    {
        match handler_event {
            PbftHandlerEvent::ProcessPrePrepareRequest { request, connection_id } => {
                self.dispatch_pre_prepare_event(peer_id, request, connection_id, sig_ok);
            }
            PbftHandlerEvent::ProcessPrepareRequest { request, connection_id } => {
                self.dispatch_prepare_event(peer_id, &request, connection_id, sig_ok);
            }
            PbftHandlerEvent::ProcessCommitRequest { request, connection_id } => {
                self.dispatch_commit_event(peer_id, &request, connection_id, sig_ok);
            }
            PbftHandlerEvent::Response { response } => {
            }
        }
    }

    /// Drains the replies produced by execution, in production order.
    pub fn take_client_replies(&mut self) -> (r: Vec<crate::message::ClientReply>)
        requires
            old(self).wf(),
        ensures
            final(self).wf(),
            r == old(self).state.replies,
            final(self).state.replies@.len() == 0,
            final(self).state.slots == old(self).state.slots,
            final(self).state.current_view == old(self).state.current_view,
            final(self).state.last_replies == old(self).state.last_replies,
            final(self).state.executed == old(self).state.executed,
            final(self).state.executions == old(self).state.executions,
            final(self).queued_events == old(self).queued_events,
            final(self).connected_peers == old(self).connected_peers,
            final(self).addresses == old(self).addresses,
            final(self).local_id == old(self).local_id,
            final(self).config == old(self).config,
            final(self).pre_prepare_sequence == old(self).pre_prepare_sequence,
    {
        let mut out: Vec<crate::message::ClientReply> = Vec::new();
        core::mem::swap(&mut out, &mut self.state.replies);
        out
    }

    /// Drains the next pending action for the substrate, FIFO.
    pub fn poll(&mut self) -> (r: Option<NetworkAction>)
        requires
            old(self).wf(),
        ensures
            final(self).wf(),
            old(self).queued_events@.len() == 0 ==> r is None && *final(self) == *old(self),
            old(self).queued_events@.len() > 0 ==> r == Some(old(self).queued_events@[0])
                && final(self).queued_events@ == old(self).queued_events@.subrange(
                1,
                old(self).queued_events@.len() as int,
            ),
            final(self).state == old(self).state,
            final(self).connected_peers == old(self).connected_peers,
            final(self).addresses == old(self).addresses,
            final(self).local_id == old(self).local_id,
            final(self).config == old(self).config,
            final(self).pre_prepare_sequence == old(self).pre_prepare_sequence,
    {
        if self.queued_events.len() == 0 {
            None
        } else {
            let a = self.queued_events.remove(0);
            proof {
                assert(self.queued_events@ =~= old(self).queued_events@.subrange(
                    1,
                    old(self).queued_events@.len() as int,
                ));
            }
            Some(a)
        }
    }
}

} // verus!
