//! The protocol's invariants, stated and proved over the replica state:
//! no equivocation, monotone slot progress, uniqueness and ordering of
//! executions, the exactly-once filter, and agreement between two
//! committed-local quorums.

use vstd::prelude::*;
use vstd::set_lib::{lemma_len_subset, group_set_properties};
use crate::state::{State, execution_step};
use crate::behavior::log_extends;

verus! {

/// No equivocation within a state: a well-formed log holds at most one slot,
/// and hence at most one accepted digest, for any `(view, seq)`.
pub proof fn lemma_no_equivocation(s: State, v: u64, n: u64, i: int, j: int)
    requires
        s.wf(),
        0 <= i < s.slots@.len(),
        0 <= j < s.slots@.len(),
        s.slots@[i].view == v && s.slots@[i].n == n,
        s.slots@[j].view == v && s.slots@[j].n == n,
    ensures
        i == j,
        s.slots@[i].pre_prepare.digest@ == s.slots@[j].pre_prepare.digest@,
{
    if i < j {
        assert(!(s.slots@[i].view == s.slots@[j].view && s.slots@[i].n == s.slots@[j].n));
    } else if j < i {
        assert(!(s.slots@[j].view == s.slots@[i].view && s.slots@[j].n == s.slots@[i].n));
    }
}

/// No equivocation over time: once a digest is logged for `(view, seq)`, any
/// later state a handler can produce still holds exactly that digest. Every
/// mutating operation of the behaviour ensures `log_extends`.
pub proof fn lemma_digest_stable(a: State, b: State, v: u64, n: u64)
    requires
        log_extends(a, b),
        a.has_slot(v, n),
    ensures
        b.has_slot(v, n),
        b.slot_digest(v, n) == a.slot_digest(v, n),
        b.slot_request(v, n) == a.slot_request(v, n),
{
}

/// Digest binding: a recorded PREPARE or COMMIT vote stands only in the
/// slot whose accepted PRE-PREPARE its digest matched. `State::insert_prepare`
/// and `State::insert_commit` ensure a vote is recorded only when the stored
/// digest equals the vote's digest, so every logged vote is bound to the
/// digest accepted at its `(view, seq)`.
pub proof fn lemma_digest_binding(s: State, v: u64, n: u64, r: u64)
    requires
        s.prepare_voted(v, n, r) || s.commit_voted(v, n, r),
    ensures
        s.has_slot(v, n),
{
}

/// A slot's phase on the ladder Empty (0) < PrePrepared (1) < Prepared (2)
/// < Committed (3) < Executed (4).
pub open spec fn slot_state(s: State, v: u64, n: u64, f: u64) -> int {
    if 1 <= n && n <= s.executed_through(v) {
        4
    } else if s.spec_committed_local(v, n, f) {
        3
    } else if s.spec_prepared(v, n, f) {
        2
    } else if s.has_slot(v, n) {
        1
    } else {
        0
    }
}

/// Monotone slot state: across any step whose log only extends (which every
/// mutating operation of the behaviour ensures), no slot moves backwards on
/// the ladder.
pub proof fn lemma_slot_state_monotone(a: State, b: State, v: u64, n: u64, f: u64)
    requires
        log_extends(a, b),
    ensures
        slot_state(a, v, n, f) <= slot_state(b, v, n, f),
{
    assert(b.executed_through(v) >= a.executed_through(v));
    if slot_state(a, v, n, f) == 4 {
    } else if slot_state(a, v, n, f) == 3 {
        assert(a.has_slot(v, n));
    } else if slot_state(a, v, n, f) == 2 {
        assert(a.has_slot(v, n));
    } else if slot_state(a, v, n, f) == 1 {
        assert(a.has_slot(v, n));
    }
}

/// At most one ClientReply per execution: across one protocol step, no two
/// replies restate the same execution. Distinct new replies differ in client
/// or timestamp (`execution_step`), while a single execution fixes both; with
/// `lemma_unique_execution` (each `(view, seq)` slot executes at most once)
/// a slot therefore yields at most one reply.
pub proof fn lemma_unique_reply(
    a: State,
    b: State,
    v: u64,
    replica: u64,
    m1: int,
    m2: int,
    k: int,
)
    requires
        execution_step(a, b, v, replica),
        a.replies@.len() <= m1 < b.replies@.len(),
        a.replies@.len() <= m2 < b.replies@.len(),
        a.executions@.len() <= k < b.executions@.len(),
        b.replies@[m1].timestamp == b.executions@[k].timestamp,
        b.replies@[m1].client@ == b.executions@[k].client,
        b.replies@[m2].timestamp == b.executions@[k].timestamp,
        b.replies@[m2].client@ == b.executions@[k].client,
    ensures
        m1 == m2,
{
    if m1 < m2 {
        assert(!(b.replies@[m1].client@ == b.replies@[m2].client@ && b.replies@[m1].timestamp
            == b.replies@[m2].timestamp));
    } else if m2 < m1 {
        assert(!(b.replies@[m2].client@ == b.replies@[m1].client@ && b.replies@[m2].timestamp
            == b.replies@[m1].timestamp));
    }
}

/// Unique execution: a replica executes each `(view, seq)` slot at most
/// once, so at most one reply per slot ever leaves it.
pub proof fn lemma_unique_execution(s: State)
    requires
        s.wf(),
    ensures
        forall|i: int, j: int|
            0 <= i < j < s.executions@.len() && (#[trigger] s.executions@[i]).view == (
            #[trigger] s.executions@[j]).view ==> s.executions@[i].n != s.executions@[j].n,
{
}

/// Execution order: within a view, a replica executes slots in strictly
/// increasing sequence order.
pub proof fn lemma_execution_order(s: State)
    requires
        s.wf(),
    ensures
        forall|i: int, j: int|
            0 <= i < j < s.executions@.len() && (#[trigger] s.executions@[i]).view == (
            #[trigger] s.executions@[j]).view ==> s.executions@[i].n < s.executions@[j].n,
{
}

/// Exactly-once per client: the timestamps of the requests a replica
/// answered are strictly increasing per client identity, so a client request
/// is answered at most once.
pub proof fn lemma_exactly_once(s: State)
    requires
        s.wf(),
    ensures
        forall|i: int, j: int|
            0 <= i < j < s.executions@.len() && (#[trigger] s.executions@[i]).replied && (
            #[trigger] s.executions@[j]).replied && s.executions@[i].client
                == s.executions@[j].client ==> s.executions@[i].timestamp
                < s.executions@[j].timestamp,
{
}

proof fn lemma_len_intersect_lower<A>(a: Set<A>, b: Set<A>, u: Set<A>)
    requires
        u.finite(),
        a.subset_of(u),
        b.subset_of(u),
    ensures
        a.intersect(b).len() + u.len() >= a.len() + b.len(),
    decreases u.len(),
{
    broadcast use group_set_properties;

    lemma_len_subset(a, u);
    lemma_len_subset(b, u);
    if u.len() == 0 {
        assert(a =~= Set::empty());
        assert(b =~= Set::empty());
        assert(a.intersect(b) =~= Set::empty());
    } else {
        let x = u.choose();
        let u2 = u.remove(x);
        let a2 = a.remove(x);
        let b2 = b.remove(x);
        assert(a2.subset_of(u2));
        assert(b2.subset_of(u2));
        lemma_len_intersect_lower(a2, b2, u2);
        if a.contains(x) && b.contains(x) {
            assert(a2.intersect(b2) =~= a.intersect(b).remove(x));
            assert(a.intersect(b).contains(x));
        } else if a.contains(x) {
            assert(a2.intersect(b2) =~= a.intersect(b));
        } else if b.contains(x) {
            assert(a2.intersect(b2) =~= a.intersect(b));
        } else {
            assert(a2.intersect(b2) =~= a.intersect(b));
        }
    }
}

/// Quorum intersection: among `3f + 1` replicas of which at most `f` are
/// faulty, any two quorums of `2f + 1` share a non-faulty member.
pub proof fn lemma_quorum_intersection(
    all: Set<u64>,
    q1: Set<u64>,
    q2: Set<u64>,
    faulty: Set<u64>,
    f: nat,
)
    requires
        all.finite(),
        q1.subset_of(all),
        q2.subset_of(all),
        faulty.subset_of(all),
        all.len() == 3 * f + 1,
        q1.len() >= 2 * f + 1,
        q2.len() >= 2 * f + 1,
        faulty.len() <= f,
    ensures
        exists|r: u64| q1.contains(r) && q2.contains(r) && !faulty.contains(r),
{
    lemma_len_subset(q1, all);
    lemma_len_subset(q2, all);
    lemma_len_subset(faulty, all);
    lemma_len_intersect_lower(q1, q2, all);
    let both = q1.intersect(q2);
    assert(both.len() >= f + 1);
    if !(exists|r: u64| q1.contains(r) && q2.contains(r) && !faulty.contains(r)) {
        assert forall|r: u64| both.contains(r) implies faulty.contains(r) by {
            assert(q1.contains(r) && q2.contains(r));
        }
        assert(both.subset_of(faulty));
        lemma_len_subset(both, faulty);
        assert(false);
    }
}

/// Safety of execution: if two replicas each hold a committed-local quorum
/// of `2f + 1` COMMIT votes for the same `(view, seq)`, with digests `d1`
/// and `d2`, then `d1 == d2` — so what they execute at that slot is the same
/// request. `vote` gives the single digest each non-faulty replica committed
/// to for the slot: by digest binding and no-equivocation, a non-faulty
/// replica signs at most one COMMIT digest per `(view, seq)`.
pub proof fn lemma_commit_safety(
    all: Set<u64>,
    q1: Set<u64>,
    q2: Set<u64>,
    faulty: Set<u64>,
    f: nat,
    vote: Map<u64, Seq<u8>>,
    d1: Seq<u8>,
    d2: Seq<u8>,
)
    requires
        all.finite(),
        q1.subset_of(all),
        q2.subset_of(all),
        faulty.subset_of(all),
        all.len() == 3 * f + 1,
        q1.len() >= 2 * f + 1,
        q2.len() >= 2 * f + 1,
        faulty.len() <= f,
        forall|r: u64| q1.contains(r) && !faulty.contains(r) ==> #[trigger] vote[r] == d1,
        forall|r: u64| q2.contains(r) && !faulty.contains(r) ==> #[trigger] vote[r] == d2,
    ensures
        d1 == d2,
{
    lemma_quorum_intersection(all, q1, q2, faulty, f);
    let r = choose|r: u64| q1.contains(r) && q2.contains(r) && !faulty.contains(r);
    assert(vote[r] == d1);
    assert(vote[r] == d2);
}

} // verus!
