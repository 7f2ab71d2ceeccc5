//! The replica's protocol state: the log of accepted messages keyed by
//! `(view, sequence)`, quorum vote counters, the current view, the per-client
//! exactly-once filter, and the execution history.

use vstd::prelude::*;
use crate::message::{ClientReply, PrePrepare, Prepare, Commit, ProtocolError, RequestView, bytes_eq, copy_bytes};

verus! {

/// One `(view, sequence)` slot of the log: the accepted PRE-PREPARE and the
/// distinct replicas whose PREPARE and COMMIT votes matched its digest.
pub struct Slot {
    pub view: u64,
    pub n: u64,
    pub pre_prepare: PrePrepare,
    /// Replicas that voted PREPARE with the slot's digest; no duplicates.
    pub prepares: Vec<u64>,
    /// Replicas that voted COMMIT with the slot's digest; no duplicates.
    pub commits: Vec<u64>,
}

/// One execution event, recorded for the execution-order invariants.
pub struct Execution {
    pub view: u64,
    pub n: u64,
    pub client: Seq<u8>,
    pub timestamp: u64,
    /// False when the execution was duplicate-suppressed and no reply left.
    pub replied: bool,
}

/// Pairwise-distinct client keys.
pub open spec fn distinct_client_keys(m: Seq<(Vec<u8>, u64)>) -> bool {
    forall|i: int, j: int| 0 <= i < j < m.len() ==> (#[trigger] m[i].0@) != (#[trigger] m[j].0@)
}

/// Pairwise-distinct view keys.
pub open spec fn distinct_view_keys(m: Seq<(u64, u64)>) -> bool {
    forall|i: int, j: int| 0 <= i < j < m.len() ==> (#[trigger] m[i].0) != (#[trigger] m[j].0)
}

/// Looks up a client's last-reply timestamp; 0 before any reply.
pub open spec fn lookup_client(m: Seq<(Vec<u8>, u64)>, c: Seq<u8>) -> u64 {
    if exists|i: int| 0 <= i < m.len() && m[i].0@ == c {
        m[choose|i: int| 0 <= i < m.len() && m[i].0@ == c].1
    } else {
        0
    }
}

/// Looks up a view's executed-through sequence number; 0 before any execution.
pub open spec fn lookup_view(m: Seq<(u64, u64)>, v: u64) -> u64 {
    if exists|i: int| 0 <= i < m.len() && m[i].0 == v {
        m[choose|i: int| 0 <= i < m.len() && m[i].0 == v].1
    } else {
        0
    }
}

proof fn lemma_lookup_client_at(m: Seq<(Vec<u8>, u64)>, c: Seq<u8>, i: int)
    requires
        distinct_client_keys(m),
        0 <= i < m.len(),
        m[i].0@ == c,
    ensures
        lookup_client(m, c) == m[i].1,
{
    assert(exists|j: int| 0 <= j < m.len() && m[j].0@ == c);
    let j = choose|j: int| 0 <= j < m.len() && m[j].0@ == c;
    if j < i {
        assert(m[j].0@ != m[i].0@);
    } else if j > i {
        assert(m[i].0@ != m[j].0@);
    }
}

proof fn lemma_lookup_view_at(m: Seq<(u64, u64)>, v: u64, i: int)
    requires
        distinct_view_keys(m),
        0 <= i < m.len(),
        m[i].0 == v,
    ensures
        lookup_view(m, v) == m[i].1,
{
    assert(exists|j: int| 0 <= j < m.len() && m[j].0 == v);
    let j = choose|j: int| 0 <= j < m.len() && m[j].0 == v;
    if j < i {
        assert(m[j].0 != m[i].0);
    } else if j > i {
        assert(m[i].0 != m[j].0);
    }
}

/// Sets `key` to `val` in a client-keyed association list.
fn assoc_set_client(m: &mut Vec<(Vec<u8>, u64)>, key: &Vec<u8>, val: u64)
    requires
        distinct_client_keys(old(m)@),
    ensures
        distinct_client_keys(final(m)@),
        forall|c: Seq<u8>|
            #[trigger] lookup_client(final(m)@, c) == if c == key@ {
                val
            } else {
                lookup_client(old(m)@, c)
            },
{
    let ghost m0 = m@;
    let mut i: usize = 0;
    while i < m.len()
        invariant
            m0 == old(m)@,
            m@ == m0,
            i <= m@.len(),
            distinct_client_keys(m@),
            forall|j: int| 0 <= j < i ==> (#[trigger] m@[j].0@) != key@,
        decreases m@.len() - i,
    {
        if bytes_eq(&m[i].0, key) {
            let pair = m.remove(i);
            m.insert(i, (pair.0, val));
            proof {
                assert(m@ =~= m0.update(i as int, (pair.0, val)));
                assert(forall|j: int| 0 <= j < m@.len() ==> (#[trigger] m@[j].0@) == m0[j].0@);
                assert forall|a: int, b: int| 0 <= a < b < m@.len() implies (#[trigger] m@[a].0@)
                    != (#[trigger] m@[b].0@) by {
                    assert(m0[a].0@ != m0[b].0@);
                }
                assert(distinct_client_keys(m@));
                assert forall|c: Seq<u8>| #[trigger] lookup_client(m@, c) == if c == key@ {
                    val
                } else {
                    lookup_client(m0, c)
                } by {
                    if c == key@ {
                        lemma_lookup_client_at(m@, c, i as int);
                    } else {
                        if exists|j: int| 0 <= j < m0.len() && m0[j].0@ == c {
                            let j = choose|j: int| 0 <= j < m0.len() && m0[j].0@ == c;
                            lemma_lookup_client_at(m0, c, j);
                            lemma_lookup_client_at(m@, c, j);
                        } else {
                            assert(forall|j: int|
                                0 <= j < m@.len() ==> (#[trigger] m@[j].0@) != c);
                        }
                    }
                }
            }
            return ;
        }
        i = i + 1;
    }
    let fresh = copy_bytes(key);
    m.push((fresh, val));
    proof {
        assert(forall|j: int| 0 <= j < m0.len() ==> #[trigger] m@[j] == m0[j]);
        assert(m@[m0.len() as int].0@ == key@);
        assert forall|c: Seq<u8>| #[trigger] lookup_client(m@, c) == if c == key@ {
            val
        } else {
            lookup_client(m0, c)
        } by {
            if c == key@ {
                lemma_lookup_client_at(m@, c, m0.len() as int);
            } else {
                if exists|j: int| 0 <= j < m0.len() && m0[j].0@ == c {
                    let j = choose|j: int| 0 <= j < m0.len() && m0[j].0@ == c;
                    lemma_lookup_client_at(m0, c, j);
                    lemma_lookup_client_at(m@, c, j);
                } else {
                    assert(forall|j: int| 0 <= j < m@.len() ==> (#[trigger] m@[j].0@) != c);
                }
            }
        }
    }
}

/// Sets `key` to `val` in a view-keyed association list.
fn assoc_set_view(m: &mut Vec<(u64, u64)>, key: u64, val: u64)
    requires
        distinct_view_keys(old(m)@),
    ensures
        distinct_view_keys(final(m)@),
        forall|v: u64|
            #[trigger] lookup_view(final(m)@, v) == if v == key {
                val
            } else {
                lookup_view(old(m)@, v)
            },
{
    let ghost m0 = m@;
    let mut i: usize = 0;
    while i < m.len()
        invariant
            m0 == old(m)@,
            m@ == m0,
            i <= m@.len(),
            distinct_view_keys(m@),
            forall|j: int| 0 <= j < i ==> (#[trigger] m@[j].0) != key,
        decreases m@.len() - i,
    {
        if m[i].0 == key {
            let pair = m.remove(i);
            m.insert(i, (pair.0, val));
            proof {
                assert(m@ =~= m0.update(i as int, (pair.0, val)));
                assert(forall|j: int| 0 <= j < m@.len() ==> (#[trigger] m@[j].0) == m0[j].0);
                assert forall|a: int, b: int| 0 <= a < b < m@.len() implies (#[trigger] m@[a].0)
                    != (#[trigger] m@[b].0) by {
                    assert(m0[a].0 != m0[b].0);
                }
                assert(distinct_view_keys(m@));
                assert forall|v: u64| #[trigger] lookup_view(m@, v) == if v == key {
                    val
                } else {
                    lookup_view(m0, v)
                } by {
                    if v == key {
                        lemma_lookup_view_at(m@, v, i as int);
                    } else {
                        if exists|j: int| 0 <= j < m0.len() && m0[j].0 == v {
                            let j = choose|j: int| 0 <= j < m0.len() && m0[j].0 == v;
                            lemma_lookup_view_at(m0, v, j);
                            lemma_lookup_view_at(m@, v, j);
                        } else {
                            assert(forall|j: int| 0 <= j < m@.len() ==> (#[trigger] m@[j].0) != v);
                        }
                    }
                }
            }
            return ;
        }
        i = i + 1;
    }
    m.push((key, val));
    proof {
        assert(forall|j: int| 0 <= j < m0.len() ==> #[trigger] m@[j] == m0[j]);
        assert forall|v: u64| #[trigger] lookup_view(m@, v) == if v == key {
            val
        } else {
            lookup_view(m0, v)
        } by {
            if v == key {
                lemma_lookup_view_at(m@, v, m0.len() as int);
            } else {
                if exists|j: int| 0 <= j < m0.len() && m0[j].0 == v {
                    let j = choose|j: int| 0 <= j < m0.len() && m0[j].0 == v;
                    lemma_lookup_view_at(m0, v, j);
                    lemma_lookup_view_at(m@, v, j);
                } else {
                    assert(forall|j: int| 0 <= j < m@.len() ==> (#[trigger] m@[j].0) != v);
                }
            }
        }
    }
}

/// Whether some slot in `s` has key `(v, n)`.
pub open spec fn seq_has_slot(s: Seq<Slot>, v: u64, n: u64) -> bool {
    exists|i: int| 0 <= i < s.len() && s[i].view == v && s[i].n == n
}

/// The index of the slot with key `(v, n)`.
pub open spec fn seq_slot_index(s: Seq<Slot>, v: u64, n: u64) -> int {
    choose|i: int| 0 <= i < s.len() && s[i].view == v && s[i].n == n
}

/// Pairwise-distinct slot keys.
pub open spec fn slots_unique(s: Seq<Slot>) -> bool {
    forall|i: int, j: int|
        0 <= i < j < s.len() ==> !(#[trigger] s[i].view == #[trigger] s[j].view && s[i].n
            == s[j].n)
}

proof fn lemma_seq_slot_index_unique(s: Seq<Slot>, v: u64, n: u64, i: int)
    requires
        slots_unique(s),
        0 <= i < s.len(),
        s[i].view == v,
        s[i].n == n,
    ensures
        seq_slot_index(s, v, n) == i,
        seq_has_slot(s, v, n),
{
    assert(seq_has_slot(s, v, n));
    let j = seq_slot_index(s, v, n);
    if j < i {
        assert(!(s[j].view == s[i].view && s[j].n == s[i].n));
    } else if j > i {
        assert(!(s[i].view == s[j].view && s[i].n == s[j].n));
    }
}

/// Two slot sequences with pointwise-equal keys hold the same keys.
proof fn lemma_same_keys(a: Seq<Slot>, b: Seq<Slot>)
    requires
        a.len() == b.len(),
        forall|k: int|
            #![trigger a[k], b[k]]
            0 <= k < a.len() ==> a[k].view == b[k].view && a[k].n == b[k].n,
    ensures
        forall|v: u64, n: u64| #[trigger] seq_has_slot(a, v, n) == seq_has_slot(b, v, n),
{
    assert forall|v: u64, n: u64| #[trigger] seq_has_slot(a, v, n) == seq_has_slot(b, v, n) by {
        if seq_has_slot(a, v, n) {
            let k = seq_slot_index(a, v, n);
            assert(b[k].view == v && b[k].n == n);
        }
        if seq_has_slot(b, v, n) {
            let k = choose|i: int| 0 <= i < b.len() && b[i].view == v && b[i].n == n;
            assert(0 <= k < b.len() && b[k].view == v && b[k].n == n);
            assert(a[k].view == b[k].view && a[k].n == b[k].n);
            assert(a[k].view == v && a[k].n == n);
        }
    }
}

/// The reply at index `m` restates an execution of view `v` recorded at or
/// after history index `k0`: same timestamp and client, and its result is
/// the operation of the executed slot's logged request.
pub open spec fn reply_from_execution(s: State, v: u64, k0: int, m: int) -> bool {
    exists|k: int|
        k0 <= k < s.executions@.len() && (#[trigger] s.executions@[k]).replied
            && s.replies@[m].timestamp == s.executions@[k].timestamp && s.replies@[m].client@
            == s.executions@[k].client && s.replies@[m].result@ == s.slot_request(
            v,
            s.executions@[k].n,
        ).operation
}

/// The execution/reply effect of one protocol step of view `v` at
/// `replica`, from state `a` to state `b`: histories are append-only, the
/// execution frontier of `v` advances exactly one history entry per slot,
/// the new entries are the consecutive slots after `a`'s frontier and carry
/// the logged request's timestamp and client, every new reply restates a
/// replied new execution, distinct new replies restate distinct executions
/// (their client/timestamp pairs differ), and other views are untouched.
/// Holds reflexively when nothing executed.
pub open spec fn execution_step(a: State, b: State, v: u64, replica: u64) -> bool {
    &&& b.executions@.len() >= a.executions@.len()
    &&& forall|k: int|
        #![trigger b.executions@[k]]
        0 <= k < a.executions@.len() ==> b.executions@[k] == a.executions@[k]
    &&& b.replies@.len() >= a.replies@.len()
    &&& forall|k: int|
        #![trigger b.replies@[k]]
        0 <= k < a.replies@.len() ==> b.replies@[k] == a.replies@[k]
    &&& b.executed_through(v) >= a.executed_through(v)
    &&& forall|w: u64| w != v ==> #[trigger] b.executed_through(w) == a.executed_through(w)
    &&& b.executions@.len() - a.executions@.len() == b.executed_through(v) - a.executed_through(v)
    &&& forall|k: int|
        a.executions@.len() <= k < b.executions@.len() ==> (#[trigger] b.executions@[k]).view == v
            && b.executions@[k].n == a.executed_through(v) + 1 + (k - a.executions@.len())
    &&& forall|k: int|
        a.executions@.len() <= k < b.executions@.len() ==> b.has_slot(
            v,
            (#[trigger] b.executions@[k]).n,
        ) && b.executions@[k].timestamp == b.slot_request(v, b.executions@[k].n).timestamp
            && b.executions@[k].client == b.slot_request(v, b.executions@[k].n).client
    &&& forall|m: int|
        a.replies@.len() <= m < b.replies@.len() ==> (#[trigger] b.replies@[m]).view == v
            && b.replies@[m].replica == replica
    &&& forall|m: int|
        a.replies@.len() <= m < b.replies@.len() ==> #[trigger] reply_from_execution(
            b,
            v,
            a.executions@.len() as int,
            m,
        )
    &&& forall|m1: int, m2: int|
        #![trigger b.replies@[m1], b.replies@[m2]]
        a.replies@.len() <= m1 < m2 < b.replies@.len() ==> !(b.replies@[m1].client@
            == b.replies@[m2].client@ && b.replies@[m1].timestamp == b.replies@[m2].timestamp)
    &&& forall|c: Seq<u8>| #[trigger] b.last_reply_of(c) >= a.last_reply_of(c)
    &&& forall|k: int|
        a.executions@.len() <= k < b.executions@.len() && (#[trigger] b.executions@[k]).replied
            ==> b.executions@[k].timestamp > a.last_reply_of(b.executions@[k].client)
    &&& forall|k: int|
        a.executions@.len() <= k < b.executions@.len() && !(#[trigger] b.executions@[k]).replied
            ==> b.executions@[k].timestamp <= a.last_reply_of(b.executions@[k].client) || exists|
        j: int|
            #![trigger b.executions@[j]]
            a.executions@.len() <= j < k && b.executions@[j].replied && b.executions@[j].client
                == b.executions@[k].client && b.executions@[j].timestamp
                >= b.executions@[k].timestamp
    &&& forall|k: int|
        a.executions@.len() <= k < b.executions@.len() && (#[trigger] b.executions@[k]).replied
            ==> exists|m: int|
            #![trigger b.replies@[m]]
            a.replies@.len() <= m < b.replies@.len() && b.replies@[m].timestamp
                == b.executions@[k].timestamp && b.replies@[m].client@
                == b.executions@[k].client
}

/// The replica's protocol state.
pub struct State {
    /// The message log, at most one slot per `(view, sequence)`.
    pub slots: Vec<Slot>,
    /// The replica's current view; monotonically non-decreasing.
    pub current_view: u64,
    /// Per-client timestamp of the last reply sent (exactly-once filter).
    pub last_replies: Vec<(Vec<u8>, u64)>,
    /// Per-view sequence number up to which execution has advanced.
    pub executed: Vec<(u64, u64)>,
    /// Replies produced by execution, drained by the client-facing egress.
    pub replies: Vec<ClientReply>,
    /// History of executions; founds the execution-order laws.
    pub executions: Ghost<Seq<Execution>>,
}

impl State {
    pub open spec fn has_slot(self, v: u64, n: u64) -> bool {
        seq_has_slot(self.slots@, v, n)
    }

    pub open spec fn slot_index_of(self, v: u64, n: u64) -> int {
        seq_slot_index(self.slots@, v, n)
    }

    pub open spec fn slot_at(self, v: u64, n: u64) -> Slot {
        self.slots[self.slot_index_of(v, n)]
    }

    /// The digest accepted for `(v, n)`; meaningful only when `has_slot`.
    pub open spec fn slot_digest(self, v: u64, n: u64) -> Seq<u8> {
        self.slot_at(v, n).pre_prepare.digest@
    }

    /// The request accepted for `(v, n)`; meaningful only when `has_slot`.
    pub open spec fn slot_request(self, v: u64, n: u64) -> RequestView {
        self.slot_at(v, n).pre_prepare.request@
    }

    /// How many distinct replicas voted PREPARE for `(v, n)` with the
    /// slot's digest.
    pub open spec fn prepare_count(self, v: u64, n: u64) -> nat {
        if self.has_slot(v, n) {
            self.slot_at(v, n).prepares.len() as nat
        } else {
            0
        }
    }

    /// How many distinct replicas voted COMMIT for `(v, n)` with the
    /// slot's digest.
    pub open spec fn commit_count(self, v: u64, n: u64) -> nat {
        if self.has_slot(v, n) {
            self.slot_at(v, n).commits.len() as nat
        } else {
            0
        }
    }

    /// Whether `replica`'s PREPARE for `(v, n)` is recorded.
    pub open spec fn prepare_voted(self, v: u64, n: u64, replica: u64) -> bool {
        self.has_slot(v, n) && self.slot_at(v, n).prepares@.contains(replica)
    }

    /// Whether `replica`'s COMMIT for `(v, n)` is recorded.
    pub open spec fn commit_voted(self, v: u64, n: u64, replica: u64) -> bool {
        self.has_slot(v, n) && self.slot_at(v, n).commits@.contains(replica)
    }

    /// The timestamp of the last reply sent to `client`; 0 before any.
    pub open spec fn last_reply_of(self, client: Seq<u8>) -> u64 {
        lookup_client(self.last_replies@, client)
    }

    /// The sequence number up to which view `v` has executed; 0 initially.
    pub open spec fn executed_through(self, v: u64) -> u64 {
        lookup_view(self.executed@, v)
    }

    /// The prepared predicate: a PRE-PREPARE is logged and at least `2f`
    /// matching PREPARE votes are recorded.
    pub open spec fn spec_prepared(self, v: u64, n: u64, f: u64) -> bool {
        self.has_slot(v, n) && self.prepare_count(v, n) >= 2 * f
    }

    /// The committed-local predicate: prepared, and at least `2f + 1`
    /// matching COMMIT votes are recorded.
    pub open spec fn spec_committed_local(self, v: u64, n: u64, f: u64) -> bool {
        self.spec_prepared(v, n, f) && self.commit_count(v, n) >= 2 * f + 1
    }

    /// Well-formedness: key uniqueness, vote distinctness, and the
    /// execution-history invariants.
    pub open spec fn wf(self) -> bool {
        &&& slots_unique(self.slots@)
        &&& forall|i: int|
            0 <= i < self.slots.len() ==> (#[trigger] self.slots[i].pre_prepare.view)
                == self.slots[i].view && self.slots[i].pre_prepare.n == self.slots[i].n
        &&& forall|i: int, a: int, b: int|
            0 <= i < self.slots.len() && 0 <= a < b < self.slots[i].prepares.len()
                ==> #[trigger] self.slots[i].prepares[a] != #[trigger] self.slots[i].prepares[b]
        &&& forall|i: int, a: int, b: int|
            0 <= i < self.slots.len() && 0 <= a < b < self.slots[i].commits.len()
                ==> #[trigger] self.slots[i].commits[a] != #[trigger] self.slots[i].commits[b]
        &&& distinct_client_keys(self.last_replies@)
        &&& distinct_view_keys(self.executed@)
        &&& forall|i: int, j: int|
            0 <= i < j < self.executions@.len() && (#[trigger] self.executions@[i]).view
                == (#[trigger] self.executions@[j]).view ==> self.executions@[i].n
                < self.executions@[j].n
        &&& forall|i: int|
            0 <= i < self.executions@.len() ==> 1 <= (#[trigger] self.executions@[i]).n
                && self.executions@[i].n <= self.executed_through(self.executions@[i].view)
        &&& forall|i: int|
            0 <= i < self.executions@.len() && (#[trigger] self.executions@[i]).replied
                ==> self.executions@[i].timestamp <= self.last_reply_of(
                self.executions@[i].client,
            )
        &&& forall|i: int, j: int|
            0 <= i < j < self.executions@.len() && (#[trigger] self.executions@[i]).replied && (
            #[trigger] self.executions@[j]).replied && self.executions@[i].client
                == self.executions@[j].client ==> self.executions@[i].timestamp
                < self.executions@[j].timestamp
    }

    /// A fresh state: empty log, view 0, nothing executed.
    pub fn new() -> (r: State)
        ensures
            r.wf(),
            r.slots@.len() == 0,
            r.current_view == 0,
            r.last_replies@.len() == 0,
            r.executed@.len() == 0,
            r.replies@.len() == 0,
            r.executions@.len() == 0,
    {
        State {
            slots: Vec::new(),
            current_view: 0,
            last_replies: Vec::new(),
            executed: Vec::new(),
            replies: Vec::new(),
            executions: Ghost(Seq::empty()),
        }
    }

    /// The replica's current view.
    pub fn current_view(&self) -> (r: u64)
        ensures
            r == self.current_view,
    {
        self.current_view
    }

    /// Finds the index of the slot for `(v, n)`, if any.
    fn find_slot(&self, v: u64, n: u64) -> (r: Option<usize>)
        ensures
            match r {
                Some(i) => i < self.slots@.len() && self.slots@[i as int].view == v
                    && self.slots@[i as int].n == n && self.has_slot(v, n),
                None => !self.has_slot(v, n),
            },
    {
        let mut i: usize = 0;
        while i < self.slots.len()
            invariant
                i <= self.slots@.len(),
                forall|j: int|
                    0 <= j < i ==> !(#[trigger] self.slots@[j].view == v && self.slots@[j].n == n),
            decreases self.slots@.len() - i,
        {
            if self.slots[i].view == v && self.slots[i].n == n {
                return Some(i);
            }
            i = i + 1;
        }
        None
    }

    /// With unique keys the slot index for a key is unique.
    proof fn lemma_slot_index_unique(self, v: u64, n: u64, i: int)
        requires
            slots_unique(self.slots@),
            0 <= i < self.slots@.len(),
            self.slots@[i].view == v,
            self.slots@[i].n == n,
        ensures
            self.slot_index_of(v, n) == i,
            self.has_slot(v, n),
    {
        lemma_seq_slot_index_unique(self.slots@, v, n, i);
    }

    /// The PRE-PREPARE logged at `(v, n)`, if any.
    pub fn get_pre_prepare_by_key(&self, v: u64, n: u64) -> (r: Option<PrePrepare>)
        requires
            self.wf(),
        ensures
            match r {
                Some(p) => self.has_slot(v, n) && p@ == self.slot_at(v, n).pre_prepare@,
                None => !self.has_slot(v, n),
            },
    {
        match self.find_slot(v, n) {
            Some(i) => {
                proof {
                    self.lemma_slot_index_unique(v, n, i as int);
                }
                Some(self.slots[i].pre_prepare.duplicate())
            }
            None => None,
        }
    }

    /// The PRE-PREPARE logged at `pp`'s own key, if any.
    pub fn get_pre_prepare(&self, pp: &PrePrepare) -> (r: Option<PrePrepare>)
        requires
            self.wf(),
        ensures
            match r {
                Some(p) => self.has_slot(pp.view, pp.n) && p@ == self.slot_at(
                    pp.view,
                    pp.n,
                ).pre_prepare@,
                None => !self.has_slot(pp.view, pp.n),
            },
    {
        self.get_pre_prepare_by_key(pp.view, pp.n)
    }

    /// The last-reply timestamp recorded for `client`.
    pub fn last_timestamp(&self, client: &Vec<u8>) -> (r: u64)
        requires
            self.wf(),
        ensures
            r == self.last_reply_of(client@),
    {
        let mut i: usize = 0;
        while i < self.last_replies.len()
            invariant
                i <= self.last_replies@.len(),
                self.wf(),
                forall|j: int| 0 <= j < i ==> (#[trigger] self.last_replies@[j].0@) != client@,
            decreases self.last_replies@.len() - i,
        {
            if bytes_eq(&self.last_replies[i].0, client) {
                proof {
                    lemma_lookup_client_at(self.last_replies@, client@, i as int);
                }
                return self.last_replies[i].1;
            }
            i = i + 1;
        }
        proof {
            assert(forall|j: int|
                0 <= j < self.last_replies@.len() ==> (#[trigger] self.last_replies@[j].0@)
                    != client@);
        }
        0
    }

    /// The sequence number up to which view `v` has executed.
    pub fn executed_up_to(&self, v: u64) -> (r: u64)
        requires
            self.wf(),
        ensures
            r == self.executed_through(v),
    {
        let mut i: usize = 0;
        while i < self.executed.len()
            invariant
                i <= self.executed@.len(),
                self.wf(),
                forall|j: int| 0 <= j < i ==> (#[trigger] self.executed@[j].0) != v,
            decreases self.executed@.len() - i,
        {
            if self.executed[i].0 == v {
                proof {
                    lemma_lookup_view_at(self.executed@, v, i as int);
                }
                return self.executed[i].1;
            }
            i = i + 1;
        }
        proof {
            assert(forall|j: int|
                0 <= j < self.executed@.len() ==> (#[trigger] self.executed@[j].0) != v);
        }
        0
    }

    /// Stores `pp` at `(pp.view, pp.n)`.
    ///
    /// Yields `Ok(true)` for a new slot, `Ok(false)` when the same digest is
    /// already logged (the log is unchanged), and `ConflictingDigest` when a
    /// different digest is already logged (the log is unchanged).
    pub fn insert_pre_prepare(&mut self, pp: PrePrepare) -> (r: Result<bool, ProtocolError>)
        requires
            old(self).wf(),
        ensures
            final(self).wf(),
            match r {
                Ok(fresh) => if fresh {
                    &&& !old(self).has_slot(pp.view, pp.n)
                    &&& final(self).slots@.len() == old(self).slots@.len() + 1
                    &&& final(self).slots@[old(self).slots@.len() as int].view == pp.view
                    &&& final(self).slots@[old(self).slots@.len() as int].n == pp.n
                    &&& final(self).slots@[old(self).slots@.len() as int].pre_prepare@ == pp@
                    &&& final(self).slots@[old(self).slots@.len() as int].prepares@.len() == 0
                    &&& final(self).slots@[old(self).slots@.len() as int].commits@.len() == 0
                    &&& forall|k: int|
                        0 <= k < old(self).slots@.len() ==> final(self).slots@[k] == old(self).slots@[k]
                    &&& final(self).slot_request(pp.view, pp.n) == pp.request@
                } else {
                    &&& old(self).has_slot(pp.view, pp.n)
                    &&& old(self).slot_digest(pp.view, pp.n) == pp.digest@
                    &&& *final(self) == *old(self)
                },
                Err(e) => {
                    &&& e == ProtocolError::ConflictingDigest
                    &&& old(self).has_slot(pp.view, pp.n)
                    &&& old(self).slot_digest(pp.view, pp.n) != pp.digest@
                    &&& *final(self) == *old(self)
                },
            },
            r is Ok ==> final(self).has_slot(pp.view, pp.n) && final(self).slot_digest(
                pp.view,
                pp.n,
            ) == pp.digest@,
            forall|v2: u64, n2: u64|
                old(self).has_slot(v2, n2) ==> #[trigger] final(self).has_slot(v2, n2) && final(self).slot_at(v2, n2) == old(self).slot_at(v2, n2),
            final(self).current_view == old(self).current_view,
            final(self).last_replies == old(self).last_replies,
            final(self).executed == old(self).executed,
            final(self).replies == old(self).replies,
            final(self).executions == old(self).executions,
    {
        match self.find_slot(pp.view, pp.n) {
            Some(i) => {
                proof {
                    self.lemma_slot_index_unique(pp.view, pp.n, i as int);
                }
                if bytes_eq(&self.slots[i].pre_prepare.digest, &pp.digest) {
                    Ok(false)
                } else {
                    Err(ProtocolError::ConflictingDigest)
                }
            }
            None => {
                let ghost old_state = *self;
                let view = pp.view;
                let n = pp.n;
                let slot = Slot {
                    view,
                    n,
                    pre_prepare: pp,
                    prepares: Vec::new(),
                    commits: Vec::new(),
                };
                self.slots.push(slot);
                proof {
                    let newi = old_state.slots@.len() as int;
                    assert(self.slots@[newi].view == view && self.slots@[newi].n == n);
                    self.lemma_slot_index_unique(view, n, newi);
                    assert(self.has_slot(view, n));
                    assert forall|v2: u64, n2: u64| old_state.has_slot(v2, n2)
                        implies #[trigger] self.has_slot(v2, n2) && self.slot_at(v2, n2)
                        == old_state.slot_at(v2, n2) by {
                        let k = old_state.slot_index_of(v2, n2);
                        assert(self.slots@[k] == old_state.slots@[k]);
                        self.lemma_slot_index_unique(v2, n2, k);
                    }
                }
                Ok(true)
            }
        }
    }

    /// Records `replica`'s PREPARE vote for `(pr.view, pr.n)`.
    ///
    /// The vote is accepted only with a matching PRE-PREPARE of equal digest
    /// and is idempotent per replica; accepted duplicates leave the state
    /// unchanged.
    pub fn insert_prepare(&mut self, replica: u64, pr: &Prepare) -> (r: Result<
        (),
        ProtocolError,
    >)
        requires
            old(self).wf(),
        ensures
            final(self).wf(),
            final(self).current_view == old(self).current_view,
            final(self).last_replies == old(self).last_replies,
            final(self).executed == old(self).executed,
            final(self).replies == old(self).replies,
            final(self).executions == old(self).executions,
            match r {
                Ok(_) => {
                    &&& old(self).has_slot(pr.view, pr.n)
                    &&& old(self).slot_digest(pr.view, pr.n) == pr.digest@
                    &&& final(self).prepare_voted(pr.view, pr.n, replica)
                    &&& (old(self).prepare_voted(pr.view, pr.n, replica) ==> *final(self) == *old(self))
                    &&& (!old(self).prepare_voted(pr.view, pr.n, replica) ==> final(self).prepare_count(pr.view, pr.n) == old(self).prepare_count(pr.view, pr.n) + 1)
                    &&& forall|v2: u64, n2: u64|
                        #[trigger] final(self).has_slot(v2, n2) == old(self).has_slot(v2, n2)
                    &&& forall|v2: u64, n2: u64|
                        old(self).has_slot(v2, n2) ==> #[trigger] final(self).slot_digest(v2, n2)
                            == old(self).slot_digest(v2, n2) && final(self).slot_request(v2, n2)
                            == old(self).slot_request(v2, n2)
                    &&& forall|v2: u64, n2: u64|
                        old(self).has_slot(v2, n2) && !(v2 == pr.view && n2 == pr.n)
                            ==> #[trigger] final(self).slot_at(v2, n2) == old(self).slot_at(v2, n2)
                    &&& forall|v2: u64, n2: u64|
                        old(self).has_slot(v2, n2) ==> #[trigger] final(self).commit_count(v2, n2)
                            == old(self).commit_count(v2, n2)
                    &&& forall|v2: u64, n2: u64, r2: u64|
                        old(self).has_slot(v2, n2) ==> #[trigger] final(self).commit_voted(
                            v2,
                            n2,
                            r2,
                        ) == old(self).commit_voted(v2, n2, r2)
                    &&& forall|r2: u64|
                        #[trigger] final(self).prepare_voted(pr.view, pr.n, r2) == (old(self).prepare_voted(pr.view, pr.n, r2) || r2 == replica)
                    &&& forall|v2: u64, n2: u64|
                        old(self).has_slot(v2, n2) && !(v2 == pr.view && n2 == pr.n)
                            ==> #[trigger] final(self).prepare_count(v2, n2) == old(self).prepare_count(v2, n2)
                },
                Err(e) => {
                    &&& *final(self) == *old(self)
                    &&& (e == ProtocolError::NoMatchingPrePrepare <==> !old(self).has_slot(
                        pr.view,
                        pr.n,
                    ))
                    &&& (e == ProtocolError::InvalidMessage ==> old(self).has_slot(pr.view, pr.n)
                        && old(self).slot_digest(pr.view, pr.n) != pr.digest@)
                    &&& (e == ProtocolError::NoMatchingPrePrepare || e
                        == ProtocolError::InvalidMessage)
                },
            },
    {
        let ghost old_state = *self;
        match self.find_slot(pr.view, pr.n) {
            None => Err(ProtocolError::NoMatchingPrePrepare),
            Some(i) => {
                proof {
                    self.lemma_slot_index_unique(pr.view, pr.n, i as int);
                }
                if !bytes_eq(&self.slots[i].pre_prepare.digest, &pr.digest) {
                    return Err(ProtocolError::InvalidMessage);
                }
                if vec_contains_u64(&self.slots[i].prepares, replica) {
                    return Ok(());
                }
                self.slots[i].prepares.push(replica);
                proof {
                    let ii = i as int;
                    assert(self.slots@ =~= old_state.slots@.update(
                        ii,
                        Slot {
                            prepares: self.slots@[ii].prepares,
                            ..old_state.slots@[ii]
                        },
                    ));
                    assert(self.slots@[ii].prepares@ =~= old_state.slots@[ii].prepares@.push(
                        replica,
                    ));
                    self.lemma_slot_index_unique(pr.view, pr.n, ii);
                    assert(forall|k: int|
                        0 <= k < old_state.slots@.len() ==> (#[trigger] old_state.slots@[k].view)
                            == self.slots@[k].view && old_state.slots@[k].n == self.slots@[k].n);
                    lemma_same_keys(old_state.slots@, self.slots@);
                    assert(slots_unique(self.slots@));
                    assert forall|v2: u64, n2: u64|
                        old_state.has_slot(v2, n2) && !(v2 == pr.view && n2 == pr.n)
                            implies #[trigger] self.slot_at(v2, n2) == old_state.slot_at(
                        v2,
                        n2,
                    ) by {
                        let k = old_state.slot_index_of(v2, n2);
                        assert(k != ii);
                        assert(self.slots@[k] == old_state.slots@[k]);
                        self.lemma_slot_index_unique(v2, n2, k);
                    }
                    assert forall|v2: u64, n2: u64| old_state.has_slot(v2, n2)
                        implies #[trigger] self.slot_digest(v2, n2) == old_state.slot_digest(
                        v2,
                        n2,
                    ) && self.slot_request(v2, n2) == old_state.slot_request(v2, n2)
                        && self.commit_count(v2, n2) == old_state.commit_count(v2, n2) by {
                        let k = old_state.slot_index_of(v2, n2);
                        self.lemma_slot_index_unique(v2, n2, k);
                    }
                    assert forall|v2: u64, n2: u64, r2: u64| old_state.has_slot(v2, n2)
                        implies #[trigger] self.commit_voted(v2, n2, r2) == old_state.commit_voted(
                        v2,
                        n2,
                        r2,
                    ) by {
                        let k = old_state.slot_index_of(v2, n2);
                        self.lemma_slot_index_unique(v2, n2, k);
                    }
                    let newp = self.slot_at(pr.view, pr.n).prepares@;
                    let oldp = old_state.slot_at(pr.view, pr.n).prepares@;
                    assert(newp == oldp.push(replica));
                    assert forall|r2: u64| #[trigger] self.prepare_voted(pr.view, pr.n, r2) == (
                    old_state.prepare_voted(pr.view, pr.n, r2) || r2 == replica) by {
                        if oldp.contains(r2) {
                            let w = choose|w: int| 0 <= w < oldp.len() && oldp[w] == r2;
                            assert(newp[w] == r2);
                            assert(newp.contains(r2));
                        }
                        if r2 == replica {
                            assert(newp[oldp.len() as int] == r2);
                            assert(newp.contains(r2));
                        }
                        if newp.contains(r2) {
                            let w = choose|w: int| 0 <= w < newp.len() && newp[w] == r2;
                            if w < oldp.len() {
                                assert(oldp[w] == r2);
                                assert(oldp.contains(r2));
                            } else {
                                assert(r2 == replica);
                            }
                        }
                    }
                }
                Ok(())
            }
        }
    }

    /// Records `replica`'s COMMIT vote for `(c.view, c.n)`.
    ///
    /// The vote is accepted only with a matching PRE-PREPARE of equal digest
    /// and is idempotent per replica; accepted duplicates leave the state
    /// unchanged.
    pub fn insert_commit(&mut self, replica: u64, c: &Commit) -> (r: Result<(), ProtocolError>)
        requires
            old(self).wf(),
        ensures
            final(self).wf(),
            final(self).current_view == old(self).current_view,
            final(self).last_replies == old(self).last_replies,
            final(self).executed == old(self).executed,
            final(self).replies == old(self).replies,
            final(self).executions == old(self).executions,
            match r {
                Ok(_) => {
                    &&& old(self).has_slot(c.view, c.n)
                    &&& old(self).slot_digest(c.view, c.n) == c.digest@
                    &&& final(self).commit_voted(c.view, c.n, replica)
                    &&& (old(self).commit_voted(c.view, c.n, replica) ==> *final(self) == *old(self))
                    &&& (!old(self).commit_voted(c.view, c.n, replica) ==> final(self).commit_count(c.view, c.n) == old(self).commit_count(c.view, c.n) + 1)
                    &&& forall|v2: u64, n2: u64|
                        #[trigger] final(self).has_slot(v2, n2) == old(self).has_slot(v2, n2)
                    &&& forall|v2: u64, n2: u64|
                        old(self).has_slot(v2, n2) ==> #[trigger] final(self).slot_digest(v2, n2)
                            == old(self).slot_digest(v2, n2) && final(self).slot_request(v2, n2)
                            == old(self).slot_request(v2, n2)
                    &&& forall|v2: u64, n2: u64|
                        old(self).has_slot(v2, n2) && !(v2 == c.view && n2 == c.n)
                            ==> #[trigger] final(self).slot_at(v2, n2) == old(self).slot_at(v2, n2)
                    &&& forall|v2: u64, n2: u64|
                        old(self).has_slot(v2, n2) ==> #[trigger] final(self).prepare_count(
                            v2,
                            n2,
                        ) == old(self).prepare_count(v2, n2)
                    &&& forall|v2: u64, n2: u64, r2: u64|
                        old(self).has_slot(v2, n2) ==> #[trigger] final(self).prepare_voted(
                            v2,
                            n2,
                            r2,
                        ) == old(self).prepare_voted(v2, n2, r2)
                    &&& forall|r2: u64|
                        #[trigger] final(self).commit_voted(c.view, c.n, r2) == (old(self).commit_voted(c.view, c.n, r2) || r2 == replica)
                    &&& forall|v2: u64, n2: u64|
                        old(self).has_slot(v2, n2) && !(v2 == c.view && n2 == c.n)
                            ==> #[trigger] final(self).commit_count(v2, n2) == old(self).commit_count(v2, n2)
                },
                Err(e) => {
                    &&& *final(self) == *old(self)
                    &&& (e == ProtocolError::NoMatchingPrePrepare <==> !old(self).has_slot(
                        c.view,
                        c.n,
                    ))
                    &&& (e == ProtocolError::InvalidMessage ==> old(self).has_slot(c.view, c.n)
                        && old(self).slot_digest(c.view, c.n) != c.digest@)
                    &&& (e == ProtocolError::NoMatchingPrePrepare || e
                        == ProtocolError::InvalidMessage)
                },
            },
    {
        let ghost old_state = *self;
        match self.find_slot(c.view, c.n) {
            None => Err(ProtocolError::NoMatchingPrePrepare),
            Some(i) => {
                proof {
                    self.lemma_slot_index_unique(c.view, c.n, i as int);
                }
                if !bytes_eq(&self.slots[i].pre_prepare.digest, &c.digest) {
                    return Err(ProtocolError::InvalidMessage);
                }
                if vec_contains_u64(&self.slots[i].commits, replica) {
                    return Ok(());
                }
                self.slots[i].commits.push(replica);
                proof {
                    let ii = i as int;
                    assert(self.slots@ =~= old_state.slots@.update(
                        ii,
                        Slot { commits: self.slots@[ii].commits, ..old_state.slots@[ii] },
                    ));
                    assert(self.slots@[ii].commits@ =~= old_state.slots@[ii].commits@.push(
                        replica,
                    ));
                    self.lemma_slot_index_unique(c.view, c.n, ii);
                    assert(forall|k: int|
                        0 <= k < old_state.slots@.len() ==> (#[trigger] old_state.slots@[k].view)
                            == self.slots@[k].view && old_state.slots@[k].n == self.slots@[k].n);
                    lemma_same_keys(old_state.slots@, self.slots@);
                    assert(slots_unique(self.slots@));
                    assert forall|v2: u64, n2: u64|
                        old_state.has_slot(v2, n2) && !(v2 == c.view && n2 == c.n)
                            implies #[trigger] self.slot_at(v2, n2) == old_state.slot_at(
                        v2,
                        n2,
                    ) by {
                        let k = old_state.slot_index_of(v2, n2);
                        assert(k != ii);
                        assert(self.slots@[k] == old_state.slots@[k]);
                        self.lemma_slot_index_unique(v2, n2, k);
                    }
                    assert forall|v2: u64, n2: u64| old_state.has_slot(v2, n2)
                        implies #[trigger] self.slot_digest(v2, n2) == old_state.slot_digest(
                        v2,
                        n2,
                    ) && self.slot_request(v2, n2) == old_state.slot_request(v2, n2)
                        && self.prepare_count(v2, n2) == old_state.prepare_count(v2, n2) by {
                        let k = old_state.slot_index_of(v2, n2);
                        self.lemma_slot_index_unique(v2, n2, k);
                    }
                    assert forall|v2: u64, n2: u64, r2: u64| old_state.has_slot(v2, n2)
                        implies #[trigger] self.prepare_voted(v2, n2, r2)
                        == old_state.prepare_voted(v2, n2, r2) by {
                        let k = old_state.slot_index_of(v2, n2);
                        self.lemma_slot_index_unique(v2, n2, k);
                    }
                    let newc = self.slot_at(c.view, c.n).commits@;
                    let oldc = old_state.slot_at(c.view, c.n).commits@;
                    assert(newc == oldc.push(replica));
                    assert forall|r2: u64| #[trigger] self.commit_voted(c.view, c.n, r2) == (
                    old_state.commit_voted(c.view, c.n, r2) || r2 == replica) by {
                        if oldc.contains(r2) {
                            let w = choose|w: int| 0 <= w < oldc.len() && oldc[w] == r2;
                            assert(newc[w] == r2);
                            assert(newc.contains(r2));
                        }
                        if r2 == replica {
                            assert(newc[oldc.len() as int] == r2);
                            assert(newc.contains(r2));
                        }
                        if newc.contains(r2) {
                            let w = choose|w: int| 0 <= w < newc.len() && newc[w] == r2;
                            if w < oldc.len() {
                                assert(oldc[w] == r2);
                                assert(oldc.contains(r2));
                            } else {
                                assert(r2 == replica);
                            }
                        }
                    }
                }
                Ok(())
            }
        }
    }

    /// How many distinct replicas voted PREPARE for `(v, n)` with digest `d`.
    /// Votes whose digest disagrees with the stored PRE-PREPARE are never
    /// recorded, so a differing `d` counts zero.
    pub fn count_prepares(&self, v: u64, n: u64, d: &Vec<u8>) -> (r: usize)
        requires
            self.wf(),
        ensures
            r == if self.has_slot(v, n) && self.slot_digest(v, n) == d@ {
                self.prepare_count(v, n)
            } else {
                0nat
            },
    {
        match self.find_slot(v, n) {
            Some(i) => {
                proof {
                    self.lemma_slot_index_unique(v, n, i as int);
                }
                if bytes_eq(&self.slots[i].pre_prepare.digest, d) {
                    self.slots[i].prepares.len()
                } else {
                    0
                }
            }
            None => 0,
        }
    }

    /// How many distinct replicas voted COMMIT for `(v, n)` with digest `d`.
    pub fn count_commits(&self, v: u64, n: u64, d: &Vec<u8>) -> (r: usize)
        requires
            self.wf(),
        ensures
            r == if self.has_slot(v, n) && self.slot_digest(v, n) == d@ {
                self.commit_count(v, n)
            } else {
                0nat
            },
    {
        match self.find_slot(v, n) {
            Some(i) => {
                proof {
                    self.lemma_slot_index_unique(v, n, i as int);
                }
                if bytes_eq(&self.slots[i].pre_prepare.digest, d) {
                    self.slots[i].commits.len()
                } else {
                    0
                }
            }
            None => 0,
        }
    }

    /// The prepared predicate for fault bound `f`.
    pub fn prepared(&self, v: u64, n: u64, f: u64) -> (r: bool)
        requires
            self.wf(),
            2 * f < u64::MAX,
        ensures
            r == self.spec_prepared(v, n, f),
    {
        match self.find_slot(v, n) {
            Some(i) => {
                proof {
                    self.lemma_slot_index_unique(v, n, i as int);
                }
                self.slots[i].prepares.len() as u64 >= 2 * f
            }
            None => false,
        }
    }

    /// Executes every ready slot of view `v` in strictly increasing
    /// sequence order: repeatedly, while the slot after the execution
    /// frontier is committed-local, it is executed and the frontier advances.
    /// A slot whose request timestamp is not newer than the client's last
    /// reply is duplicate-suppressed: the frontier still advances but no
    /// reply is enqueued and the filter is unchanged.
    #[verifier::rlimit(50)]
    pub fn advance_execution(&mut self, v: u64, f: u64, replica: u64)
        requires
            old(self).wf(),
            2 * f < u64::MAX,
        ensures
            final(self).wf(),
            final(self).slots == old(self).slots,
            final(self).current_view == old(self).current_view,
            final(self).executions@.len() >= old(self).executions@.len(),
            final(self).executions@.subrange(0, old(self).executions@.len() as int) == old(self).executions@,
            final(self).replies@.len() >= old(self).replies@.len(),
            final(self).replies@.subrange(0, old(self).replies@.len() as int) == old(self).replies@,
            forall|k: int|
                old(self).executions@.len() <= k < final(self).executions@.len() ==> (
                #[trigger] final(self).executions@[k]).view == v && final(self).executions@[k].n
                    > old(self).executed_through(v),
            forall|w: u64|
                w != v ==> #[trigger] final(self).executed_through(w) == old(self).executed_through(w),
            final(self).executed_through(v) >= old(self).executed_through(v),
            forall|c: Seq<u8>|
                #[trigger] final(self).last_reply_of(c) >= old(self).last_reply_of(c),
            final(self).executed_through(v) < u64::MAX ==> !final(self).spec_committed_local(
                v,
                (final(self).executed_through(v) + 1) as u64,
                f,
            ),
            final(self).executed_through(v) == old(self).executed_through(v) ==> *final(self)
                == *old(self),
            (old(self).executed_through(v) == u64::MAX || !old(self).spec_committed_local(
                v,
                (old(self).executed_through(v) + 1) as u64,
                f,
            )) ==> *final(self) == *old(self),
            forall|k: int|
                old(self).replies@.len() <= k < final(self).replies@.len() ==> (#[trigger] final(self).replies@[k]).view == v && final(self).replies@[k].replica == replica,
            final(self).executions@.len() - old(self).executions@.len() == final(self).executed_through(v) - old(self).executed_through(v),
            forall|k: int|
                old(self).executions@.len() <= k < final(self).executions@.len() ==> (
                #[trigger] final(self).executions@[k]).n == old(self).executed_through(v) + 1 + (k
                    - old(self).executions@.len()),
            forall|k: int|
                old(self).executions@.len() <= k < final(self).executions@.len() ==> final(self).has_slot(v, (#[trigger] final(self).executions@[k]).n) && final(self).executions@[k].timestamp == final(self).slot_request(
                    v,
                    final(self).executions@[k].n,
                ).timestamp && final(self).executions@[k].client == final(self).slot_request(
                    v,
                    final(self).executions@[k].n,
                ).client,
            forall|m: int|
                old(self).replies@.len() <= m < final(self).replies@.len()
                    ==> #[trigger] reply_from_execution(
                    *final(self),
                    v,
                    old(self).executions@.len() as int,
                    m,
                ),
            execution_step(*old(self), *final(self), v, replica),
    {
        proof {
            assert(self.executions@.subrange(0, self.executions@.len() as int)
                =~= self.executions@);
            assert(self.replies@.subrange(0, self.replies@.len() as int) =~= self.replies@);
        }
        let mut cur = self.executed_up_to(v);
        let ghost mut reply_src: Seq<int> = Seq::empty();
        while cur < u64::MAX && self.committed_local(v, cur + 1, f)
            invariant
                self.wf(),
                2 * f < u64::MAX,
                cur == self.executed_through(v),
                self.slots == old(self).slots,
                self.current_view == old(self).current_view,
                self.executions@.len() >= old(self).executions@.len(),
                self.executions@.subrange(0, old(self).executions@.len() as int) == old(self).executions@,
                self.replies@.len() >= old(self).replies@.len(),
                self.replies@.subrange(0, old(self).replies@.len() as int) == old(self).replies@,
                forall|k: int|
                    old(self).executions@.len() <= k < self.executions@.len() ==> (
                    #[trigger] self.executions@[k]).view == v && self.executions@[k].n > old(self).executed_through(v),
                forall|w: u64|
                    w != v ==> #[trigger] self.executed_through(w) == old(self).executed_through(
                        w,
                    ),
                self.executed_through(v) >= old(self).executed_through(v),
                forall|c: Seq<u8>|
                    #[trigger] self.last_reply_of(c) >= old(self).last_reply_of(c),
                self.executed_through(v) == old(self).executed_through(v) ==> *self == *old(self),
                (old(self).executed_through(v) == u64::MAX || !old(self).spec_committed_local(
                    v,
                    (old(self).executed_through(v) + 1) as u64,
                    f,
                )) ==> *self == *old(self),
                forall|k: int|
                    old(self).replies@.len() <= k < self.replies@.len() ==> (
                    #[trigger] self.replies@[k]).view == v && self.replies@[k].replica == replica,
                self.executions@.len() - old(self).executions@.len() == cur - old(self).executed_through(v),
                forall|k: int|
                    old(self).executions@.len() <= k < self.executions@.len() ==> (
                    #[trigger] self.executions@[k]).n == old(self).executed_through(v) + 1 + (k
                        - old(self).executions@.len()),
                forall|k: int|
                    old(self).executions@.len() <= k < self.executions@.len() ==> self.has_slot(
                        v,
                        (#[trigger] self.executions@[k]).n,
                    ) && self.executions@[k].timestamp == self.slot_request(
                        v,
                        self.executions@[k].n,
                    ).timestamp && self.executions@[k].client == self.slot_request(
                        v,
                        self.executions@[k].n,
                    ).client,
                reply_src.len() == self.replies@.len() - old(self).replies@.len(),
                forall|m: int|
                    #![trigger reply_src[m]]
                    0 <= m < reply_src.len() ==> old(self).executions@.len() <= reply_src[m]
                        < self.executions@.len() && self.executions@[reply_src[m]].replied
                        && self.replies@[old(self).replies@.len() + m].timestamp
                        == self.executions@[reply_src[m]].timestamp && self.replies@[old(self).replies@.len() + m].client@ == self.executions@[reply_src[m]].client
                        && self.replies@[old(self).replies@.len() + m].result@
                        == self.slot_request(v, self.executions@[reply_src[m]].n).operation,
                forall|m: int|
                    old(self).replies@.len() <= m < self.replies@.len() ==> (
                    #[trigger] self.replies@[m]).timestamp <= self.last_reply_of(
                        self.replies@[m].client@,
                    ),
                forall|m1: int, m2: int|
                    #![trigger self.replies@[m1], self.replies@[m2]]
                    old(self).replies@.len() <= m1 < m2 < self.replies@.len() ==> !(
                    self.replies@[m1].client@ == self.replies@[m2].client@
                        && self.replies@[m1].timestamp == self.replies@[m2].timestamp),
                forall|k: int|
                    old(self).executions@.len() <= k < self.executions@.len() && (
                    #[trigger] self.executions@[k]).replied ==> exists|m: int|
                        #![trigger reply_src[m]]
                        0 <= m < reply_src.len() && reply_src[m] == k,
                forall|c: Seq<u8>|
                    #[trigger] self.last_reply_of(c) == old(self).last_reply_of(c) || exists|
                    j: int|
                        #![trigger self.executions@[j]]
                        old(self).executions@.len() <= j < self.executions@.len()
                            && self.executions@[j].replied && self.executions@[j].client == c
                            && self.executions@[j].timestamp == self.last_reply_of(c),
                forall|k: int|
                    old(self).executions@.len() <= k < self.executions@.len() && (
                    #[trigger] self.executions@[k]).replied ==> self.executions@[k].timestamp
                        > old(self).last_reply_of(self.executions@[k].client),
                forall|k: int|
                    old(self).executions@.len() <= k < self.executions@.len() && !(
                    #[trigger] self.executions@[k]).replied ==> self.executions@[k].timestamp
                        <= old(self).last_reply_of(self.executions@[k].client) || exists|j: int|
                        #![trigger self.executions@[j]]
                        old(self).executions@.len() <= j < k && self.executions@[j].replied
                            && self.executions@[j].client == self.executions@[k].client
                            && self.executions@[j].timestamp >= self.executions@[k].timestamp,
            decreases u64::MAX - cur,
        {
            proof {
                if old(self).executed_through(v) == u64::MAX || !old(self).spec_committed_local(
                    v,
                    (old(self).executed_through(v) + 1) as u64,
                    f,
                ) {
                    assert(*self == *old(self));
                    assert(false);
                }
            }
            let ghost s1 = *self;
            let next = cur + 1;
            let idx = match self.find_slot(v, next) {
                Some(i) => i,
                None => vstd::pervasive::unreached(),
            };
            proof {
                self.lemma_slot_index_unique(v, next, idx as int);
            }
            let ts = self.slots[idx].pre_prepare.request.timestamp;
            let client = copy_bytes(&self.slots[idx].pre_prepare.request.client);
            let op = copy_bytes(&self.slots[idx].pre_prepare.request.operation);
            let last = self.last_timestamp(&client);
            let replied: bool;
            if ts > last {
                let reply = ClientReply {
                    view: v,
                    timestamp: ts,
                    client: copy_bytes(&client),
                    replica,
                    result: op,
                };
                self.replies.push(reply);
                assoc_set_client(&mut self.last_replies, &client, ts);
                replied = true;
            } else {
                replied = false;
            }
            assoc_set_view(&mut self.executed, v, next);
            let ghost e = Execution {
                view: v,
                n: next,
                client: client@,
                timestamp: ts,
                replied,
            };
            proof {
                self.executions@ = s1.executions@.push(e);
            }
            proof {
                let s2 = *self;
                assert(s2.executions@ == s1.executions@.push(e));
                assert(s2.executed_through(v) == next);
                assert(forall|w: u64|
                    w != v ==> #[trigger] s2.executed_through(w) == s1.executed_through(w));
                // prior entries keep their bound; entries of view v sit below `next`
                assert forall|i: int| 0 <= i < s1.executions@.len() implies (
                #[trigger] s2.executions@[i]) == s1.executions@[i] by {}
                assert forall|i: int|
                    0 <= i < s1.executions@.len() && (#[trigger] s1.executions@[i]).view == v
                    implies s1.executions@[i].n < next by {
                    assert(s1.executions@[i].n <= s1.executed_through(v));
                }
                // the exactly-once filter only rose, and only at `client`
                assert forall|c: Seq<u8>| #[trigger] s2.last_reply_of(c) >= s1.last_reply_of(
                    c,
                ) by {
                    if replied && c == client@ {
                        assert(s2.last_reply_of(c) == ts);
                    } else {
                        assert(s2.last_reply_of(c) == s1.last_reply_of(c));
                    }
                }
                // well-formedness of the extended history
                assert forall|i: int, j: int|
                    0 <= i < j < s2.executions@.len() && (#[trigger] s2.executions@[i]).view == (
                    #[trigger] s2.executions@[j]).view implies s2.executions@[i].n
                    < s2.executions@[j].n by {
                    if j == s1.executions@.len() as int {
                        if s2.executions@[i].view == v {
                            assert(s1.executions@[i].n <= s1.executed_through(v));
                        }
                    }
                }
                assert forall|i: int| 0 <= i < s2.executions@.len() implies 1 <= (
                #[trigger] s2.executions@[i]).n && s2.executions@[i].n <= s2.executed_through(
                    s2.executions@[i].view,
                ) by {
                    if i < s1.executions@.len() {
                        let w = s1.executions@[i].view;
                        assert(s1.executions@[i].n <= s1.executed_through(w));
                        if w == v {
                            assert(s2.executed_through(v) == next);
                        } else {
                            assert(s2.executed_through(w) == s1.executed_through(w));
                        }
                    }
                }
                assert forall|i: int|
                    0 <= i < s2.executions@.len() && (#[trigger] s2.executions@[i]).replied
                    implies s2.executions@[i].timestamp <= s2.last_reply_of(
                    s2.executions@[i].client,
                ) by {
                    if i < s1.executions@.len() {
                        let c = s1.executions@[i].client;
                        assert(s1.executions@[i].timestamp <= s1.last_reply_of(c));
                        assert(s2.last_reply_of(c) >= s1.last_reply_of(c));
                    } else {
                        if replied {
                            assert(s2.last_reply_of(client@) == ts);
                        }
                    }
                }
                assert forall|i: int, j: int|
                    0 <= i < j < s2.executions@.len() && (#[trigger] s2.executions@[i]).replied
                        && (#[trigger] s2.executions@[j]).replied && s2.executions@[i].client
                        == s2.executions@[j].client implies s2.executions@[i].timestamp
                    < s2.executions@[j].timestamp by {
                    if j == s1.executions@.len() as int && replied {
                        if s2.executions@[i].client == client@ {
                            assert(s1.executions@[i].timestamp <= s1.last_reply_of(client@));
                            assert(s1.last_reply_of(client@) == last);
                        }
                    }
                }
                assert(s2.wf());
                assert(s2.executions@.subrange(0, old(self).executions@.len() as int) =~= old(self).executions@);
                assert(s2.replies@.subrange(0, old(self).replies@.len() as int) =~= old(self).replies@);
                // each reply in flight is bound to the execution it came from
                self.lemma_slot_index_unique(v, next, idx as int);
                let src0 = reply_src;
                if replied {
                    reply_src = reply_src.push(s1.executions@.len() as int);
                }
                assert forall|m: int|
                    #![trigger reply_src[m]]
                    0 <= m < reply_src.len() implies old(self).executions@.len() <= reply_src[m]
                    < self.executions@.len() && self.executions@[reply_src[m]].replied
                    && self.replies@[old(self).replies@.len() + m].timestamp
                    == self.executions@[reply_src[m]].timestamp && self.replies@[old(self).replies@.len() + m].client@
                    == self.executions@[reply_src[m]].client && self.replies@[old(self).replies@.len() + m].result@
                    == self.slot_request(v, self.executions@[reply_src[m]].n).operation by {
                    if m < src0.len() {
                        assert(reply_src[m] == src0[m]);
                        assert(self.executions@[src0[m]] == s1.executions@[src0[m]]);
                        assert(self.replies@[old(self).replies@.len() + m] == s1.replies@[old(self).replies@.len() + m]);
                        assert(self.slots == s1.slots);
                    } else {
                        assert(replied);
                        let k = s1.executions@.len() as int;
                        assert(reply_src[m] == k);
                        assert(self.executions@[k] == e);
                        assert(old(self).replies@.len() + m == self.replies@.len() - 1);
                        assert(self.replies@[self.replies@.len() - 1].timestamp == ts);
                        assert(self.replies@[self.replies@.len() - 1].client@ == client@);
                        assert(self.replies@[self.replies@.len() - 1].result@
                            == self.slot_request(v, next).operation);
                    }
                }
                assert forall|m: int|
                    old(self).replies@.len() <= m < self.replies@.len() implies (
                #[trigger] self.replies@[m]).timestamp <= self.last_reply_of(
                    self.replies@[m].client@,
                ) by {
                    if m < s1.replies@.len() {
                        assert(self.replies@[m] == s1.replies@[m]);
                        assert(s1.replies@[m].timestamp <= s1.last_reply_of(
                            s1.replies@[m].client@,
                        ));
                        assert(self.last_reply_of(s1.replies@[m].client@) >= s1.last_reply_of(
                            s1.replies@[m].client@,
                        ));
                    } else {
                        assert(replied);
                        assert(self.replies@[m].timestamp == ts);
                        assert(self.last_reply_of(client@) == ts);
                    }
                }
                assert forall|m1: int, m2: int|
                    #![trigger self.replies@[m1], self.replies@[m2]]
                    old(self).replies@.len() <= m1 < m2 < self.replies@.len() implies !(
                self.replies@[m1].client@ == self.replies@[m2].client@
                    && self.replies@[m1].timestamp == self.replies@[m2].timestamp) by {
                    if m2 < s1.replies@.len() {
                        assert(self.replies@[m1] == s1.replies@[m1]);
                        assert(self.replies@[m2] == s1.replies@[m2]);
                    } else {
                        assert(replied);
                        assert(m2 == s1.replies@.len());
                        assert(self.replies@[m2].client@ == client@);
                        assert(self.replies@[m2].timestamp == ts);
                        assert(self.replies@[m1] == s1.replies@[m1]);
                        if s1.replies@[m1].client@ == client@ {
                            assert(s1.replies@[m1].timestamp <= s1.last_reply_of(client@));
                            assert(s1.last_reply_of(client@) == last);
                            assert(ts > last);
                        }
                    }
                }
                // the exactly-once filter's entries trace back to executions
                // of this batch
                assert forall|c: Seq<u8>|
                    #[trigger] self.last_reply_of(c) == old(self).last_reply_of(c) || exists|
                    j: int|
                        #![trigger self.executions@[j]]
                        old(self).executions@.len() <= j < self.executions@.len()
                            && self.executions@[j].replied && self.executions@[j].client == c
                            && self.executions@[j].timestamp == self.last_reply_of(c) by {
                    if replied && c == client@ {
                        let j = s1.executions@.len() as int;
                        assert(self.executions@[j].replied && self.executions@[j].client == c
                            && self.executions@[j].timestamp == self.last_reply_of(c));
                    } else {
                        assert(self.last_reply_of(c) == s1.last_reply_of(c));
                        if s1.last_reply_of(c) != old(self).last_reply_of(c) {
                            let j = choose|j: int|
                                #![trigger s1.executions@[j]]
                                old(self).executions@.len() <= j < s1.executions@.len()
                                    && s1.executions@[j].replied && s1.executions@[j].client == c
                                    && s1.executions@[j].timestamp == s1.last_reply_of(c);
                            assert(self.executions@[j] == s1.executions@[j]);
                            assert(self.executions@[j].replied && self.executions@[j].client == c
                                && self.executions@[j].timestamp == self.last_reply_of(c));
                        }
                    }
                }
                // every replied execution of the batch has its reply witness
                assert forall|k: int|
                    old(self).executions@.len() <= k < self.executions@.len() && (
                #[trigger] self.executions@[k]).replied implies exists|m: int|
                    #![trigger reply_src[m]]
                    0 <= m < reply_src.len() && reply_src[m] == k by {
                    if k < s1.executions@.len() {
                        assert(self.executions@[k] == s1.executions@[k]);
                        let m = choose|m: int|
                            #![trigger src0[m]]
                            0 <= m < src0.len() && src0[m] == k;
                        assert(reply_src[m] == k);
                    } else {
                        assert(replied);
                        assert(reply_src[reply_src.len() - 1] == k);
                    }
                }
                // a replied execution rises above the pre-step filter; a
                // suppressed one sits at or below it, or below an earlier
                // replied execution of the same client in this batch
                assert forall|k: int|
                    old(self).executions@.len() <= k < self.executions@.len() && (
                #[trigger] self.executions@[k]).replied implies self.executions@[k].timestamp
                    > old(self).last_reply_of(self.executions@[k].client) by {
                    if k < s1.executions@.len() {
                        assert(self.executions@[k] == s1.executions@[k]);
                        assert(s1.executions@[k].timestamp > old(self).last_reply_of(
                            s1.executions@[k].client,
                        ));
                    } else {
                        assert(replied);
                        assert(ts > last);
                        assert(last == s1.last_reply_of(client@));
                        assert(s1.last_reply_of(client@) >= old(self).last_reply_of(client@));
                    }
                }
                assert forall|k: int|
                    old(self).executions@.len() <= k < self.executions@.len() && !(
                #[trigger] self.executions@[k]).replied implies self.executions@[k].timestamp
                    <= old(self).last_reply_of(self.executions@[k].client) || exists|j: int|
                    #![trigger self.executions@[j]]
                    old(self).executions@.len() <= j < k && self.executions@[j].replied
                        && self.executions@[j].client == self.executions@[k].client
                        && self.executions@[j].timestamp >= self.executions@[k].timestamp by {
                    if k < s1.executions@.len() {
                        assert(self.executions@[k] == s1.executions@[k]);
                        if s1.executions@[k].timestamp <= old(self).last_reply_of(
                            s1.executions@[k].client,
                        ) {
                        } else {
                            let j = choose|j: int|
                                #![trigger s1.executions@[j]]
                                old(self).executions@.len() <= j < k
                                    && s1.executions@[j].replied && s1.executions@[j].client
                                    == s1.executions@[k].client && s1.executions@[j].timestamp
                                    >= s1.executions@[k].timestamp;
                            assert(self.executions@[j] == s1.executions@[j]);
                        }
                    } else {
                        assert(!replied);
                        assert(ts <= last);
                        assert(last == s1.last_reply_of(client@));
                        if s1.last_reply_of(client@) == old(self).last_reply_of(client@) {
                        } else {
                            let j = choose|j: int|
                                #![trigger s1.executions@[j]]
                                old(self).executions@.len() <= j < s1.executions@.len()
                                    && s1.executions@[j].replied && s1.executions@[j].client
                                    == client@ && s1.executions@[j].timestamp
                                    == s1.last_reply_of(client@);
                            assert(self.executions@[j] == s1.executions@[j]);
                            assert(self.executions@[j].timestamp >= ts);
                        }
                    }
                }
            }
            cur = next;
        }
        proof {
            assert forall|m: int|
                old(self).replies@.len() <= m < self.replies@.len()
                implies #[trigger] reply_from_execution(
                *self,
                v,
                old(self).executions@.len() as int,
                m,
            ) by {
                let w = reply_src[m - old(self).replies@.len()];
                assert(old(self).executions@.len() <= w < self.executions@.len()
                    && self.executions@[w].replied && self.replies@[m].timestamp
                    == self.executions@[w].timestamp && self.replies@[m].client@
                    == self.executions@[w].client && self.replies@[m].result@
                    == self.slot_request(v, self.executions@[w].n).operation);
            }
            assert(execution_step(*old(self), *self, v, replica)) by {
                assert forall|k: int|
                    #![trigger self.executions@[k]]
                    0 <= k < old(self).executions@.len() implies self.executions@[k] == old(self).executions@[k] by {
                    assert(self.executions@.subrange(
                        0,
                        old(self).executions@.len() as int,
                    )[k] == self.executions@[k]);
                }
                assert forall|k: int|
                    #![trigger self.replies@[k]]
                    0 <= k < old(self).replies@.len() implies self.replies@[k] == old(self).replies@[k] by {
                    assert(self.replies@.subrange(0, old(self).replies@.len() as int)[k]
                        == self.replies@[k]);
                }
                assert forall|k: int|
                    old(self).executions@.len() <= k < self.executions@.len() && (
                #[trigger] self.executions@[k]).replied implies exists|m: int|
                    #![trigger self.replies@[m]]
                    old(self).replies@.len() <= m < self.replies@.len()
                        && self.replies@[m].timestamp == self.executions@[k].timestamp
                        && self.replies@[m].client@ == self.executions@[k].client by {
                    let m = choose|m: int|
                        #![trigger reply_src[m]]
                        0 <= m < reply_src.len() && reply_src[m] == k;
                    let mm = old(self).replies@.len() + m;
                    assert(self.replies@[mm].timestamp == self.executions@[k].timestamp
                        && self.replies@[mm].client@ == self.executions@[k].client);
                }
            }
        }
    }

    /// The committed-local predicate for fault bound `f`.
    pub fn committed_local(&self, v: u64, n: u64, f: u64) -> (r: bool)
        requires
            self.wf(),
            2 * f < u64::MAX,
        ensures
            r == self.spec_committed_local(v, n, f),
    {
        match self.find_slot(v, n) {
            Some(i) => {
                proof {
                    self.lemma_slot_index_unique(v, n, i as int);
                }
                self.slots[i].prepares.len() as u64 >= 2 * f && self.slots[i].commits.len() as u64
                    >= 2 * f + 1
            }
            None => false,
        }
    }
}

/// True when `x` occurs in `v`.
pub fn vec_contains_u64(v: &Vec<u64>, x: u64) -> (r: bool)
    ensures
        r == v@.contains(x),
{
    let mut i: usize = 0;
    while i < v.len()
        invariant
            i <= v@.len(),
            forall|j: int| 0 <= j < i ==> v@[j] != x,
        decreases v@.len() - i,
    {
        if v[i] == x {
            return true;
        }
        i = i + 1;
    }
    false
}

} // verus!
