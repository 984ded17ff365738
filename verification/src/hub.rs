//! The broadcast hub: a bounded multi-producer, multi-consumer fan-out.
//!
//! Every published item goes, in publish order, to every subscriber
//! attached at publish time; a subscriber attaching later never sees it.
//! Each subscriber buffers at most `capacity` pending items. The overflow
//! policy is drop-oldest-for-the-lagger: when a subscriber's buffer is
//! full, publishing drops that subscriber's oldest undelivered item — the
//! publisher is never blocked and no other subscriber is disturbed.
//!
//! The hub itself is a sequential state machine; the outer program
//! serializes access to it and parks subscribers that found their buffer
//! empty.

use crate::enricher::QSO;
use vstd::prelude::*;

verus! {

/// One subscriber's side of the hub.
struct SubState {
    /// Published while attached and not yet received, oldest first.
    pending: Vec<QSO>,
    /// Index into the hub's history of the front of `pending`.
    next: Ghost<int>,
    /// History length at attach time.
    attach_at: Ghost<int>,
    /// History indices of the items this subscriber has received.
    observed: Ghost<Seq<int>>,
}

pub open spec fn strictly_increasing(o: Seq<int>) -> bool {
    forall|k: int, l: int| 0 <= k < l < o.len() ==> o[k] < o[l]
}

pub struct Hub {
    capacity: usize,
    subs: Vec<Option<SubState>>,
    history: Ghost<Seq<QSO>>,
}

impl Hub {
    /// Everything ever published, in publish order.
    pub closed spec fn history(self) -> Seq<QSO> {
        self.history@
    }

    /// How many pending items one subscriber may buffer.
    pub closed spec fn capacity_spec(self) -> int {
        self.capacity as int
    }

    /// How many handles were ever given out.
    pub closed spec fn sub_count(self) -> int {
        self.subs@.len() as int
    }

    pub closed spec fn is_attached(self, id: int) -> bool {
        0 <= id < self.subs@.len() && self.subs@[id] is Some
    }

    /// The items published to this subscriber and not yet received.
    pub closed spec fn sub_pending(self, id: int) -> Seq<QSO> {
        self.subs@[id]->0.pending@
    }

    /// The history index of the subscriber's oldest pending item.
    pub closed spec fn sub_next(self, id: int) -> int {
        self.subs@[id]->0.next@
    }

    /// The history length when the subscriber attached.
    pub closed spec fn sub_attach_at(self, id: int) -> int {
        self.subs@[id]->0.attach_at@
    }

    /// The history indices of the items this subscriber has received, in
    /// the order it received them.
    pub closed spec fn sub_observed(self, id: int) -> Seq<int> {
        self.subs@[id]->0.observed@
    }

    /// The items this subscriber has received, in the order it received
    /// them.
    pub open spec fn sub_observed_items(self, id: int) -> Seq<QSO> {
        Seq::new(self.sub_observed(id).len(), |k: int| self.history()[self.sub_observed(id)[k]])
    }

    /// One subscriber's invariant: its pending queue is exactly the history
    /// suffix from `next` on, bounded by the capacity, and what it received
    /// came in strictly increasing history order, all of it since attach.
    pub closed spec fn sub_inv(self, id: int) -> bool {
        self.subs@[id] is Some ==> {
            let s = self.subs@[id]->0;
            &&& 0 <= s.attach_at@ <= s.next@ <= self.history@.len()
            &&& s.pending@ == self.history@.subrange(s.next@, self.history@.len() as int)
            &&& s.pending@.len() <= self.capacity as int
            &&& strictly_increasing(s.observed@)
            &&& forall|k: int|
                0 <= k < s.observed@.len() ==> s.attach_at@ <= #[trigger] s.observed@[k] < s.next@
            &&& s.observed@.len() <= s.next@ - s.attach_at@
        }
    }

    pub closed spec fn wf(self) -> bool {
        &&& self.capacity >= 1
        &&& forall|id: int| 0 <= id < self.subs@.len() ==> #[trigger] self.sub_inv(id)
    }

    /// Whether subscriber `j` is in the same state in both hubs.
    pub open spec fn sub_state_unchanged(self, other: Hub, j: int) -> bool {
        &&& self.is_attached(j) == other.is_attached(j)
        &&& (self.is_attached(j) ==> {
            &&& self.sub_pending(j) == other.sub_pending(j)
            &&& self.sub_next(j) == other.sub_next(j)
            &&& self.sub_attach_at(j) == other.sub_attach_at(j)
            &&& self.sub_observed(j) == other.sub_observed(j)
        })
    }

    /// A fresh hub with no history and no subscribers.
    pub fn new(capacity: usize) -> (r: Hub)
        requires
            capacity >= 1,
        ensures
            r.wf(),
            r.history() == Seq::<QSO>::empty(),
            r.sub_count() == 0,
            r.capacity_spec() == capacity as int,
    {
        Hub { capacity, subs: Vec::new(), history: Ghost(Seq::empty()) }
    }

    /// Attaches a new subscriber. Its cursor starts at the present end of
    /// the history: nothing already published is replayed to it.
    pub fn attach(&mut self) -> (id: usize)
        requires
            old(self).wf(),
        ensures
            final(self).wf(),
            id as int == old(self).sub_count(),
            final(self).sub_count() == old(self).sub_count() + 1,
            final(self).history() == old(self).history(),
            final(self).capacity_spec() == old(self).capacity_spec(),
            final(self).is_attached(id as int),
            final(self).sub_attach_at(id as int) == old(self).history().len(),
            final(self).sub_next(id as int) == old(self).history().len(),
            final(self).sub_pending(id as int) == Seq::<QSO>::empty(),
            final(self).sub_observed(id as int) == Seq::<int>::empty(),
            forall|j: int|
                #![trigger final(self).is_attached(j)]
                #![trigger final(self).sub_pending(j)]
                0 <= j < old(self).sub_count() ==> final(self).sub_state_unchanged(*old(self), j),
    {
        let id = self.subs.len();
        let ghost h = self.history@;
        self.subs.push(
            Some(
                SubState {
                    pending: Vec::new(),
                    next: Ghost(h.len() as int),
                    attach_at: Ghost(h.len() as int),
                    observed: Ghost(Seq::empty()),
                },
            ),
        );
        proof {
            assert(self.history@.subrange(h.len() as int, self.history@.len() as int)
                =~= Seq::<QSO>::empty());
            assert(self.sub_inv(id as int));
            assert forall|j: int| 0 <= j < self.subs@.len() implies #[trigger] self.sub_inv(j) by {
                if j < id {
                    assert(old(self).sub_inv(j));
                    assert(self.subs@[j] == old(self).subs@[j]);
                }
            }
        }
        id
    }

    /// How publishing `item` moves subscriber `j` from the state in
    /// `other` to the state in `self`: the item is queued; a subscriber
    /// whose buffer was full loses its oldest pending item instead.
    pub open spec fn published_to(self, other: Hub, j: int, item: QSO) -> bool {
        &&& self.sub_attach_at(j) == other.sub_attach_at(j)
        &&& self.sub_observed(j) == other.sub_observed(j)
        &&& (if other.sub_pending(j).len() < other.capacity_spec() {
            &&& self.sub_next(j) == other.sub_next(j)
            &&& self.sub_pending(j) == other.sub_pending(j).push(item)
        } else {
            &&& self.sub_next(j) == other.sub_next(j) + 1
            &&& self.sub_pending(j) == other.sub_pending(j).subrange(
                1,
                other.sub_pending(j).len() as int,
            ).push(item)
        })
    }

    /// Publishes one item: it is appended to the history and queued to
    /// every attached subscriber. A subscriber already holding `capacity`
    /// pending items loses its oldest one instead — publish order stays
    /// intact for everyone else, and the publisher never waits.
    pub fn publish(&mut self, item: &QSO)
        requires
            old(self).wf(),
        ensures
            final(self).wf(),
            final(self).history() == old(self).history().push(*item),
            final(self).sub_count() == old(self).sub_count(),
            final(self).capacity_spec() == old(self).capacity_spec(),
            forall|j: int|
                #![trigger final(self).is_attached(j)]
                #![trigger final(self).sub_pending(j)]
                0 <= j < old(self).sub_count() ==> final(self).is_attached(j) == old(self).is_attached(j),
            forall|j: int|
                #![trigger final(self).published_to(*old(self), j, *item)]
                #![trigger final(self).is_attached(j)]
                #![trigger final(self).sub_pending(j)]
                0 <= j < old(self).sub_count() && old(self).is_attached(j) ==> final(self).published_to(*old(self), j, *item),
    {
        let ghost old_h = self.history@;
        self.history = Ghost(self.history@.push(*item));
        let n = self.subs.len();
        let mut i: usize = 0;
        while i < n
            invariant
                0 <= i <= n,
                n == self.subs@.len(),
                self.capacity >= 1,
                self.capacity as int == old(self).capacity_spec(),
                self.history@ == old_h.push(*item),
                old_h == old(self).history(),
                forall|j: int| 0 <= j < n ==> old(self).sub_inv(j),
                forall|j: int| i <= j < n ==> #[trigger] self.subs@[j] == old(self).subs@[j],
                forall|j: int|
                    0 <= j < i ==> (#[trigger] self.subs@[j]) is Some == old(self).subs@[j] is Some,
                forall|j: int| 0 <= j < i ==> #[trigger] self.sub_inv(j),
                forall|j: int|
                    0 <= j < i && old(self).is_attached(j) ==> #[trigger] self.published_to(
                        *old(self),
                        j,
                        *item,
                    ),
            decreases n - i,
        {
            let ghost snap = self.subs@;
            let ghost self_at_start = *self;
            proof {
                assert(old(self).sub_inv(i as int));
                assert(snap[i as int] == old(self).subs@[i as int]);
            }
            let slot = self.subs.remove(i);
            match slot {
                None => {
                    self.subs.insert(i, None);
                    proof {
                        assert(self.subs@ =~= snap);
                    }
                },
                Some(mut st) => {
                    let ghost old_pending = st.pending@;
                    let ghost old_next = st.next@;
                    if st.pending.len() == self.capacity {
                        let _dropped = st.pending.remove(0);
                        st.next = Ghost(st.next@ + 1);
                        proof {
                            assert(st.pending@ =~= old_pending.subrange(
                                1,
                                old_pending.len() as int,
                            ));
                        }
                    }
                    st.pending.push(item.clone());
                    self.subs.insert(i, Some(st));
                    proof {
                        assert(self.subs@ =~= snap.update(i as int, self.subs@[i as int]));
                        let s = self.subs@[i as int]->0;
                        assert(old_pending == old_h.subrange(old_next, old_h.len() as int));
                        assert(s.pending@ =~= self.history@.subrange(
                            s.next@,
                            self.history@.len() as int,
                        ));
                        assert(self.sub_inv(i as int));
                        assert(self.published_to(*old(self), i as int, *item));
                    }
                },
            }
            i += 1;
            proof {
                assert forall|j: int| 0 <= j < i implies #[trigger] self.sub_inv(j) by {
                    if j < i - 1 {
                        assert(self.subs@[j] == snap[j]);
                        assert(self_at_start.sub_inv(j));
                    }
                }
                assert forall|j: int|
                    0 <= j < i && old(self).is_attached(j) implies #[trigger] self.published_to(
                    *old(self),
                    j,
                    *item,
                ) by {
                    if j < i - 1 {
                        assert(self.subs@[j] == snap[j]);
                        assert(self_at_start.published_to(*old(self), j, *item));
                    }
                }
            }
        }
    }

    /// Hands the subscriber its oldest pending item, or nothing when its
    /// buffer is momentarily empty.
    pub fn receive(&mut self, id: usize) -> (r: Option<QSO>)
        requires
            old(self).wf(),
            old(self).is_attached(id as int),
        ensures
            final(self).wf(),
            final(self).history() == old(self).history(),
            final(self).sub_count() == old(self).sub_count(),
            final(self).capacity_spec() == old(self).capacity_spec(),
            final(self).is_attached(id as int),
            final(self).sub_attach_at(id as int) == old(self).sub_attach_at(id as int),
            forall|j: int|
                #![trigger final(self).is_attached(j)]
                #![trigger final(self).sub_pending(j)]
                0 <= j < old(self).sub_count() && j != id as int ==> final(self).sub_state_unchanged(*old(self), j),
            match r {
                Some(q) => {
                    &&& old(self).sub_pending(id as int).len() > 0
                    &&& q == old(self).sub_pending(id as int)[0]
                    &&& q == old(self).history()[old(self).sub_next(id as int)]
                    &&& final(self).sub_next(id as int) == old(self).sub_next(id as int) + 1
                    &&& final(self).sub_pending(id as int) == old(self).sub_pending(
                        id as int,
                    ).subrange(1, old(self).sub_pending(id as int).len() as int)
                    &&& final(self).sub_observed(id as int) == old(self).sub_observed(
                        id as int,
                    ).push(old(self).sub_next(id as int))
                },
                None => {
                    &&& old(self).sub_pending(id as int).len() == 0
                    &&& final(self).sub_state_unchanged(*old(self), id as int)
                },
            },
    {
        proof {
            assert(old(self).sub_inv(id as int));
        }
        let ghost snap = self.subs@;
        let slot = self.subs.remove(id);
        match slot {
            Some(mut st) => {
                if st.pending.len() == 0 {
                    self.subs.insert(id, Some(st));
                    proof {
                        assert(self.subs@ =~= snap);
                        assert forall|j: int|
                            0 <= j < self.subs@.len() implies #[trigger] self.sub_inv(j) by {
                            assert(old(self).sub_inv(j));
                            assert(self.subs@[j] == old(self).subs@[j]);
                        }
                    }
                    None
                } else {
                    let ghost old_pending = st.pending@;
                    let q = st.pending.remove(0);
                    st.observed = Ghost(st.observed@.push(st.next@));
                    st.next = Ghost(st.next@ + 1);
                    self.subs.insert(id, Some(st));
                    proof {
                        assert(self.subs@ =~= snap.update(id as int, self.subs@[id as int]));
                        let s = self.subs@[id as int]->0;
                        assert(s.pending@ =~= old_pending.subrange(1, old_pending.len() as int));
                        assert(s.pending@ =~= self.history@.subrange(
                            s.next@,
                            self.history@.len() as int,
                        ));
                        assert(strictly_increasing(s.observed@));
                        assert(self.sub_inv(id as int));
                        assert forall|j: int|
                            0 <= j < self.subs@.len() implies #[trigger] self.sub_inv(j) by {
                            if j != id as int {
                                assert(old(self).sub_inv(j));
                                assert(self.subs@[j] == old(self).subs@[j]);
                            }
                        }
                    }
                    Some(q)
                }
            },
            None => {
                proof {
                    assert(false);
                }
                None
            },
        }
    }

    /// Detaches the subscriber: its handle is dead and nothing more is
    /// queued to it; every other subscriber is untouched.
    pub fn detach(&mut self, id: usize)
        requires
            old(self).wf(),
            old(self).is_attached(id as int),
        ensures
            final(self).wf(),
            final(self).history() == old(self).history(),
            final(self).sub_count() == old(self).sub_count(),
            final(self).capacity_spec() == old(self).capacity_spec(),
            !final(self).is_attached(id as int),
            forall|j: int|
                #![trigger final(self).is_attached(j)]
                #![trigger final(self).sub_pending(j)]
                0 <= j < old(self).sub_count() && j != id as int ==> final(self).sub_state_unchanged(*old(self), j),
    {
        let ghost snap = self.subs@;
        let _slot = self.subs.remove(id);
        self.subs.insert(id, None);
        proof {
            assert(self.subs@ =~= snap.update(id as int, None));
            assert forall|j: int| 0 <= j < self.subs@.len() implies #[trigger] self.sub_inv(j) by {
                if j != id as int {
                    assert(old(self).sub_inv(j));
                    assert(self.subs@[j] == old(self).subs@[j]);
                }
            }
        }
    }
}

/// Strictly increasing integers grow at least as fast as their index.
proof fn lemma_strict_incr_gap(o: Seq<int>, k: int, l: int)
    requires
        strictly_increasing(o),
        0 <= k <= l < o.len(),
    ensures
        o[l] >= o[k] + (l - k),
    decreases l - k,
{
    if k < l {
        lemma_strict_incr_gap(o, k, l - 1);
        assert(o[l - 1] < o[l]);
    }
}

/// A subscriber never observes an item published before it attached, and
/// never observes the same published item twice: every observation points
/// at or past its attach point, and no two observations point at the same
/// place in the history.
pub proof fn lemma_no_replay(h: Hub, id: int)
    requires
        h.wf(),
        h.is_attached(id),
    ensures
        forall|k: int|
            0 <= k < h.sub_observed(id).len() ==> h.sub_attach_at(id) <= #[trigger] h.sub_observed(
                id,
            )[k] < h.history().len(),
        forall|k: int, l: int|
            0 <= k < l < h.sub_observed(id).len() ==> h.sub_observed(id)[k] < h.sub_observed(id)[l],
{
    assert(h.sub_inv(id));
}

/// A subscriber that never overflowed and has drained its buffer has
/// observed exactly the items published since it attached — each exactly
/// once, in publish order.
pub proof fn lemma_drained_subscriber_observed_all(h: Hub, id: int)
    requires
        h.wf(),
        h.is_attached(id),
        h.sub_observed(id).len() == h.sub_next(id) - h.sub_attach_at(id),
        h.sub_pending(id).len() == 0,
    ensures
        h.sub_next(id) == h.history().len(),
        forall|k: int|
            0 <= k < h.sub_observed(id).len() ==> #[trigger] h.sub_observed(id)[k]
                == h.sub_attach_at(id) + k,
        h.sub_observed_items(id) == h.history().subrange(
            h.sub_attach_at(id),
            h.history().len() as int,
        ),
{
    assert(h.sub_inv(id));
    let o = h.sub_observed(id);
    let a = h.sub_attach_at(id);
    let b = h.sub_next(id);
    assert(h.sub_pending(id) == h.history().subrange(b, h.history().len() as int));
    assert(b == h.history().len());
    assert forall|k: int| 0 <= k < o.len() implies #[trigger] o[k] == a + k by {
        lemma_strict_incr_gap(o, 0, k);
        assert(o[0] >= a);
        lemma_strict_incr_gap(o, k, o.len() - 1);
        assert(o[o.len() - 1] < b);
        assert(b == a + o.len());
    }
    assert(h.sub_observed_items(id) =~= h.history().subrange(a, h.history().len() as int));
}

} // verus!
