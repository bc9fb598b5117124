//! The shared table of connected peers.
//!
//! Each registered peer owns one unbounded, ordered outbound queue; the
//! registry maps a peer's identity to that queue. All mutation goes
//! through `register`, `deregister` and the delivery operations, so the
//! table can be placed behind one lock and stays consistent however the
//! per-connection tasks interleave.

use vstd::prelude::*;
use crate::message::{KimchiMessage, MsgV};

verus! {

struct PeerEntry {
    id: u64,
    queue: Vec<KimchiMessage>,
}

/// The registry: identities of the currently connected peers, each with
/// its pending outbound messages in first-in first-out order.
pub struct Registry {
    entries: Vec<PeerEntry>,
}

impl Registry {
    /// The identities of the registered peers, in registration order.
    pub closed spec fn ids(&self) -> Seq<u64> {
        self.entries@.map_values(|e: PeerEntry| e.id)
    }

    /// Whether `id` is currently registered.
    pub open spec fn contains(&self, id: u64) -> bool {
        self.ids().contains(id)
    }

    /// No identity occurs twice.
    pub closed spec fn wf(&self) -> bool {
        forall|i: int, j: int|
            0 <= i < j < self.entries@.len() ==> self.entries@[i].id != self.entries@[j].id
    }

    spec fn idx_of(&self, id: u64) -> int {
        choose|i: int| 0 <= i < self.entries@.len() && self.entries@[i].id == id
    }

    /// The pending outbound messages of `id`, oldest first; empty when the
    /// peer is not registered.
    pub closed spec fn queue_of(&self, id: u64) -> Seq<MsgV> {
        if self.contains(id) {
            self.entries@[self.idx_of(id)].queue.deep_view()
        } else {
            Seq::empty()
        }
    }

    proof fn lemma_idx(&self, i: int)
        requires
            self.wf(),
            0 <= i < self.entries@.len(),
        ensures
            self.contains(self.entries@[i].id),
            self.idx_of(self.entries@[i].id) == i,
            self.queue_of(self.entries@[i].id) == self.entries@[i].queue.deep_view(),
    {
        let id = self.entries@[i].id;
        assert(self.ids()[i] == id);
        assert(self.ids().contains(id));
        let j = self.idx_of(id);
        assert(0 <= j < self.entries@.len() && self.entries@[j].id == id);
        if i != j {
            assert(false);
        }
    }

    proof fn lemma_absent(&self, id: u64)
        requires
            forall|i: int| 0 <= i < self.entries@.len() ==> self.entries@[i].id != id,
        ensures
            !self.contains(id),
    {
        if self.contains(id) {
            let j = choose|j: int| 0 <= j < self.ids().len() && self.ids()[j] == id;
            assert(self.entries@[j].id == id);
        }
    }

    /// An empty registry: no peers, no pending deliveries.
    pub fn new() -> (r: Registry)
        ensures
            r.wf(),
            r.ids() == Seq::<u64>::empty(),
    {
        let r = Registry { entries: Vec::new() };
        proof {
            assert(r.ids() =~= Seq::<u64>::empty());
        }
        r
    }

    fn find(&self, id: u64) -> (r: Option<usize>)
        ensures
            match r {
                Some(i) => i < self.entries@.len() && self.entries@[i as int].id == id
                    && self.contains(id),
                None => !self.contains(id),
            },
    {
        let mut i: usize = 0;
        while i < self.entries.len()
            invariant
                i <= self.entries@.len(),
                forall|j: int| 0 <= j < i ==> self.entries@[j].id != id,
            decreases self.entries@.len() - i,
        {
            if self.entries[i].id == id {
                proof {
                    assert(self.ids()[i as int] == id);
                }
                return Some(i);
            }
            i = i + 1;
        }
        proof {
            self.lemma_absent(id);
        }
        None
    }

    /// Whether `id` is currently registered.
    pub fn contains_peer(&self, id: u64) -> (r: bool)
        ensures
            r == self.contains(id),
    {
        match self.find(id) {
            Some(_) => true,
            None => false,
        }
    }

    /// Add a newly connected peer with an empty outbound queue. The
    /// identity must not already be present; other peers' queues are
    /// untouched.
    pub fn register(&mut self, id: u64)
        requires
            old(self).wf(),
            !old(self).contains(id),
        ensures
            final(self).wf(),
            final(self).ids() == old(self).ids().push(id),
            final(self).contains(id),
            final(self).queue_of(id) == Seq::<MsgV>::empty(),
            forall|p: u64| p != id ==> final(self).contains(p) == old(self).contains(p),
            forall|p: u64| p != id ==> final(self).queue_of(p) == old(self).queue_of(p),
    {
        let ghost pre = *self;
        self.entries.push(PeerEntry { id, queue: Vec::new() });
        proof {
            let n = pre.entries@.len() as int;
            assert(self.ids() =~= pre.ids().push(id));
            assert forall|i: int, j: int|
                0 <= i < j < self.entries@.len() implies self.entries@[i].id
                != self.entries@[j].id by {
                if j < n {
                    assert(pre.wf());
                } else {
                    assert(self.entries@[j].id == id);
                    assert(pre.ids()[i] == pre.entries@[i].id);
                    assert(pre.ids().contains(pre.entries@[i].id));
                }
            }
            self.lemma_idx(n);
            assert(self.entries@[n].queue.deep_view() =~= Seq::<MsgV>::empty());
            assert forall|p: u64| p != id implies self.contains(p) == pre.contains(p)
                && self.queue_of(p) == pre.queue_of(p) by {
                if pre.contains(p) {
                    let i = pre.idx_of(p);
                    assert(pre.entries@[i].id == p);
                    pre.lemma_idx(i);
                    assert(self.entries@[i].id == p);
                    self.lemma_idx(i);
                } else {
                    assert forall|i: int|
                        0 <= i < pre.entries@.len() implies pre.entries@[i].id != p by {
                        assert(pre.ids()[i] == pre.entries@[i].id);
                        assert(pre.ids().contains(pre.entries@[i].id));
                    }
                    self.lemma_absent(p);
                }
            }
        }
    }

    /// Remove a peer. Unknown identities and repeated calls are no-ops,
    /// so deregistration is idempotent.
    pub fn deregister(&mut self, id: u64)
        requires
            old(self).wf(),
        ensures
            final(self).wf(),
            !final(self).contains(id),
            forall|p: u64| p != id ==> final(self).contains(p) == old(self).contains(p),
            forall|p: u64| p != id ==> final(self).queue_of(p) == old(self).queue_of(p),
            !old(self).contains(id) ==> *final(self) == *old(self),
    {
        let ghost pre = *self;
        match self.find(id) {
            Some(i) => {
                self.entries.remove(i);
                proof {
                    let n = pre.entries@.len() as int;
                    assert forall|k: int, l: int|
                        0 <= k < l < self.entries@.len() implies self.entries@[k].id
                        != self.entries@[l].id by {
                        assert(pre.wf());
                    }
                    assert forall|k: int|
                        0 <= k < self.entries@.len() implies self.entries@[k].id != id by {
                        assert(pre.wf());
                    }
                    self.lemma_absent(id);
                    assert forall|p: u64| p != id implies self.contains(p) == pre.contains(p)
                        && self.queue_of(p) == pre.queue_of(p) by {
                        if pre.contains(p) {
                            let k = pre.idx_of(p);
                            assert(pre.entries@[k].id == p);
                            pre.lemma_idx(k);
                            if k < i as int {
                                assert(self.entries@[k].id == p);
                                self.lemma_idx(k);
                            } else {
                                assert(k > i as int);
                                assert(self.entries@[k - 1].id == p);
                                self.lemma_idx(k - 1);
                            }
                        } else {
                            assert forall|k: int|
                                0 <= k < pre.entries@.len() implies pre.entries@[k].id != p by {
                                assert(pre.ids()[k] == pre.entries@[k].id);
                                assert(pre.ids().contains(pre.entries@[k].id));
                            }
                            assert(forall|k: int|
                                0 <= k < self.entries@.len() ==> self.entries@[k].id != p);
                            self.lemma_absent(p);
                        }
                    }
                }
            },
            None => {
                proof {
                    assert(*self == pre);
                }
            },
        }
    }

    /// The outbound identities every other registered peer, as of this
    /// call: exactly the registered identities except `origin`.
    pub fn snapshot_others(&self, origin: u64) -> (r: Vec<u64>)
        requires
            self.wf(),
        ensures
            r@ == self.ids().filter(|p: u64| p != origin),
    {
        let mut r: Vec<u64> = Vec::new();
        let mut i: usize = 0;
        proof {
            reveal_with_fuel(Seq::filter, 2);
            assert(self.ids().take(0).filter(|p: u64| p != origin) =~= Seq::<u64>::empty());
        }
        while i < self.entries.len()
            invariant
                i <= self.entries@.len(),
                r@ == self.ids().take(i as int).filter(|p: u64| p != origin),
            decreases self.entries@.len() - i,
        {
            let pid = self.entries[i].id;
            proof {
                reveal_with_fuel(Seq::filter, 2);
                assert(self.ids()[i as int] == pid);
                assert(self.ids().take(i as int + 1).drop_last() =~= self.ids().take(i as int));
                assert(self.ids().take(i as int + 1).last() == pid);
            }
            if pid != origin {
                r.push(pid);
            }
            i = i + 1;
        }
        proof {
            reveal_with_fuel(Seq::filter, 2);
            assert(self.ids().take(self.ids().len() as int) =~= self.ids());
        }
        r
    }
}

} // verus!

verus! {

/// What one broadcast does to the registry: the message is appended to
/// every other registered peer's queue, in place; the origin's own queue
/// and the set of peers are untouched.
pub open spec fn broadcast_post(pre: Registry, post: Registry, origin: u64, m: MsgV) -> bool {
    &&& post.ids() == pre.ids()
    &&& post.queue_of(origin) == pre.queue_of(origin)
    &&& forall|p: u64|
        #![trigger post.queue_of(p)]
        pre.contains(p) && p != origin ==> post.queue_of(p) == pre.queue_of(p).push(m)
    &&& forall|p: u64|
        #![trigger post.queue_of(p)]
        !pre.contains(p) ==> post.queue_of(p) == pre.queue_of(p)
}

impl Registry {
    /// Deliver `m` to every registered peer other than `origin`, in
    /// snapshot order; the origin never receives its own message.
    pub fn broadcast(&mut self, origin: u64, m: &KimchiMessage)
        requires
            old(self).wf(),
        ensures
            final(self).wf(),
            broadcast_post(*old(self), *final(self), origin, m@),
    {
        let ghost pre = *self;
        let mut i: usize = 0;
        while i < self.entries.len()
            invariant
                i <= self.entries@.len(),
                self.entries@.len() == pre.entries@.len(),
                forall|j: int|
                    0 <= j < pre.entries@.len() ==> self.entries@[j].id == pre.entries@[j].id,
                forall|j: int|
                    0 <= j < i && pre.entries@[j].id != origin ==> self.entries@[j].queue.deep_view()
                        == pre.entries@[j].queue.deep_view().push(m@),
                forall|j: int|
                    0 <= j < i && pre.entries@[j].id == origin ==> self.entries@[j]
                        == pre.entries@[j],
                forall|j: int| i <= j < pre.entries@.len() ==> self.entries@[j] == pre.entries@[j],
            decreases self.entries@.len() - i,
        {
            if self.entries[i].id != origin {
                let mut entry = self.entries.remove(i);
                let ghost q = entry.queue.deep_view();
                entry.queue.push(m.clone());
                proof {
                    assert(entry.queue.deep_view() =~= q.push(m@));
                }
                self.entries.insert(i, entry);
            }
            i = i + 1;
        }
        proof {
            assert forall|k: int, l: int|
                0 <= k < l < self.entries@.len() implies self.entries@[k].id
                != self.entries@[l].id by {
                assert(self.entries@[k].id == pre.entries@[k].id);
                assert(self.entries@[l].id == pre.entries@[l].id);
                assert(pre.wf());
            }
            assert(self.ids() =~= pre.ids());
            assert forall|p: u64| #![trigger self.queue_of(p)] true implies (pre.contains(p) && p
                != origin ==> self.queue_of(p) == pre.queue_of(p).push(m@)) && (!pre.contains(p)
                ==> self.queue_of(p) == pre.queue_of(p)) && (p == origin ==> self.queue_of(p)
                == pre.queue_of(p)) by {
                if pre.contains(p) {
                    let k = pre.idx_of(p);
                    pre.lemma_idx(k);
                    assert(self.entries@[k].id == p);
                    self.lemma_idx(k);
                } else {
                    assert forall|k: int|
                        0 <= k < self.entries@.len() implies self.entries@[k].id != p by {
                        assert(pre.ids()[k] == pre.entries@[k].id);
                        assert(pre.ids().contains(pre.entries@[k].id));
                    }
                    self.lemma_absent(p);
                }
            }
        }
    }

    /// Take the oldest pending outbound message of `id`, if any: the
    /// consuming end of that peer's queue.
    pub fn pop_outbound(&mut self, id: u64) -> (r: Option<KimchiMessage>)
        requires
            old(self).wf(),
        ensures
            final(self).wf(),
            final(self).ids() == old(self).ids(),
            forall|p: u64| p != id ==> final(self).queue_of(p) == old(self).queue_of(p),
            match r {
                Some(msg) => old(self).queue_of(id).len() > 0 && msg@ == old(self).queue_of(id)[0]
                    && final(self).queue_of(id) == old(self).queue_of(id).drop_first(),
                None => old(self).queue_of(id).len() == 0 && *final(self) == *old(self),
            },
    {
        let ghost pre = *self;
        let i = match self.find(id) {
            Some(i) => i,
            None => {
                return None;
            },
        };
        if self.entries[i].queue.len() == 0 {
            return None;
        }
        let mut entry = self.entries.remove(i);
        let ghost q = entry.queue.deep_view();
        let msg = entry.queue.remove(0);
        proof {
            assert(entry.queue.deep_view() =~= q.drop_first());
            assert(msg.deep_view() == q[0]);
        }
        self.entries.insert(i, entry);
        proof {
            assert(self.entries@.len() == pre.entries@.len());
            assert(forall|j: int|
                0 <= j < pre.entries@.len() ==> self.entries@[j].id == pre.entries@[j].id);
            assert(forall|j: int| j != i ==> 0 <= j < pre.entries@.len() ==> self.entries@[j]
                == pre.entries@[j]);
            assert(self.wf()) by {
                assert(forall|k: int, l: int|
                    0 <= k < l < self.entries@.len() ==> self.entries@[k].id
                        != self.entries@[l].id);
            }
            assert(self.ids() =~= pre.ids());
            pre.lemma_idx(i as int);
            self.lemma_idx(i as int);
            assert forall|p: u64| p != id implies self.queue_of(p) == pre.queue_of(p) by {
                if pre.contains(p) {
                    let k = pre.idx_of(p);
                    pre.lemma_idx(k);
                    assert(self.entries@[k].id == p);
                    self.lemma_idx(k);
                } else {
                    assert forall|k: int|
                        0 <= k < self.entries@.len() implies self.entries@[k].id != p by {
                        assert(pre.ids()[k] == pre.entries@[k].id);
                        assert(pre.ids().contains(pre.entries@[k].id));
                    }
                    self.lemma_absent(p);
                }
            }
        }
        Some(msg)
    }
}

/// Law: no two registry entries ever carry the same identity.
pub proof fn lemma_ids_unique(r: &Registry)
    requires
        r.wf(),
    ensures
        forall|i: int, j: int| 0 <= i < j < r.ids().len() ==> r.ids()[i] != r.ids()[j],
{
}

proof fn lemma_filter_membership(s: Seq<u64>, pred: spec_fn(u64) -> bool, x: u64)
    requires
        s.filter(pred).contains(x),
    ensures
        s.contains(x),
    decreases s.len(),
{
    reveal_with_fuel(Seq::filter, 2);
    if s.len() == 0 {
    } else {
        let sub = s.drop_last().filter(pred);
        if pred(s.last()) {
            if x == s.last() {
                assert(s[s.len() - 1] == x);
            } else {
                let k = choose|k: int|
                    0 <= k < s.filter(pred).len() && s.filter(pred)[k] == x;
                assert(sub[k] == x);
                assert(sub.contains(x));
                lemma_filter_membership(s.drop_last(), pred, x);
                let l = choose|l: int| 0 <= l < s.drop_last().len() && s.drop_last()[l] == x;
                assert(s[l] == x);
            }
        } else {
            lemma_filter_membership(s.drop_last(), pred, x);
            let l = choose|l: int| 0 <= l < s.drop_last().len() && s.drop_last()[l] == x;
            assert(s[l] == x);
        }
    }
}

/// Law: a snapshot never yields an identity whose deregistration had
/// completed before the snapshot began, and never yields the origin.
pub proof fn lemma_snapshot_excludes(r: &Registry, origin: u64, gone: u64)
    requires
        !r.contains(gone),
    ensures
        !r.ids().filter(|p: u64| p != origin).contains(gone),
        !r.ids().filter(|p: u64| p != origin).contains(origin),
{
    if r.ids().filter(|p: u64| p != origin).contains(gone) {
        lemma_filter_membership(r.ids(), |p: u64| p != origin, gone);
    }
    if r.ids().filter(|p: u64| p != origin).contains(origin) {
        let f = r.ids().filter(|p: u64| p != origin);
        let k = choose|k: int| 0 <= k < f.len() && f[k] == origin;
        Seq::lemma_filter_pred(r.ids(), |p: u64| p != origin, k);
    }
}

/// Law: broadcasting never enqueues the message onto the origin's own
/// queue, whatever the message variant.
pub proof fn lemma_broadcast_self_exclusion(pre: Registry, post: Registry, origin: u64, m: MsgV)
    requires
        broadcast_post(pre, post, origin, m),
    ensures
        post.queue_of(origin) == pre.queue_of(origin),
{
}

/// Law: when two peers each broadcast one message, in either order, every
/// third registered peer receives both messages, in broadcast order, with
/// nothing duplicated or dropped; the two senders never receive their own
/// message.
pub proof fn lemma_broadcast_pair(
    s0: Registry,
    s1: Registry,
    s2: Registry,
    sender_a: u64,
    sender_b: u64,
    obs: u64,
    m1: MsgV,
    m2: MsgV,
)
    requires
        broadcast_post(s0, s1, sender_a, m1),
        broadcast_post(s1, s2, sender_b, m2),
        s0.contains(obs),
        obs != sender_a,
        obs != sender_b,
    ensures
        s2.queue_of(obs) == s0.queue_of(obs).push(m1).push(m2),
{
    assert(s1.contains(obs)) by {
        assert(s1.ids() == s0.ids());
    }
}

} // verus!

verus! {

/// The messages an observer receives out of a run of broadcasts: those of
/// every other sender, in broadcast order.
pub open spec fn observed(ops: Seq<(u64, MsgV)>, obs: u64) -> Seq<MsgV>
    decreases ops.len(),
{
    if ops.len() == 0 {
        Seq::empty()
    } else {
        (if ops[0].0 != obs {
            seq![ops[0].1]
        } else {
            Seq::empty()
        }) + observed(ops.drop_first(), obs)
    }
}

/// `states` is a run of the registry under the broadcasts `ops`.
pub open spec fn broadcast_run(states: Seq<Registry>, ops: Seq<(u64, MsgV)>) -> bool {
    &&& states.len() == ops.len() + 1
    &&& forall|k: int|
        0 <= k < ops.len() ==> broadcast_post(states[k], states[k + 1], ops[k].0, ops[k].1)
}

/// Law: however the senders' broadcasts interleave, a registered observer's
/// queue gains exactly the other senders' messages, in broadcast order,
/// with nothing duplicated or dropped — and never one of its own.
pub proof fn lemma_broadcast_run(states: Seq<Registry>, ops: Seq<(u64, MsgV)>, obs: u64)
    requires
        broadcast_run(states, ops),
        states[0].contains(obs),
    ensures
        states.last().queue_of(obs) == states[0].queue_of(obs) + observed(ops, obs),
    decreases ops.len(),
{
    if ops.len() == 0 {
        assert(states.last() == states[0]);
        assert(states[0].queue_of(obs) + Seq::<MsgV>::empty() =~= states[0].queue_of(obs));
    } else {
        let rest_states = states.drop_first();
        let rest_ops = ops.drop_first();
        assert forall|k: int|
            0 <= k < rest_ops.len() implies broadcast_post(
            rest_states[k],
            rest_states[k + 1],
            rest_ops[k].0,
            rest_ops[k].1,
        ) by {
            assert(rest_states[k] == states[k + 1]);
            assert(rest_states[k + 1] == states[k + 2]);
            assert(rest_ops[k] == ops[k + 1]);
        }
        assert(broadcast_post(states[0], states[1], ops[0].0, ops[0].1));
        assert(states[1].contains(obs)) by {
            assert(states[1].ids() == states[0].ids());
        }
        lemma_broadcast_run(rest_states, rest_ops, obs);
        assert(rest_states[0] == states[1]);
        assert(rest_states.last() == states.last());
        if ops[0].0 != obs {
            assert(states[1].queue_of(obs) == states[0].queue_of(obs).push(ops[0].1));
            assert(states[0].queue_of(obs).push(ops[0].1) =~= states[0].queue_of(obs) + seq![
                ops[0].1,
            ]);
            let base = states[0].queue_of(obs);
            assert((base + seq![ops[0].1]) + observed(rest_ops, obs) =~= base + (seq![ops[0].1]
                + observed(rest_ops, obs)));
        } else {
            assert(states[1].queue_of(obs) == states[0].queue_of(obs));
            assert(Seq::<MsgV>::empty() + observed(rest_ops, obs) =~= observed(rest_ops, obs));
        }
    }
}

} // verus!
