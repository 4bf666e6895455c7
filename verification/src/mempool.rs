//! Slot-bucketed mempool for verified Aegeri transactions.
use crate::clock::epoch_millis_now;
use crate::id::{id_lt, Id};
use crate::index::{spec_value, Index, IndexValue};
use crate::tables::{IdTable, SetTable};
use crate::proposal::{Availability, BlockHeader, Confirmation};
use crate::transaction_set::{ids_sorted, lemma_push_contains, TransactionSet};
use vstd::prelude::*;

verus! {

/// The abstract state of a mempool.
#[verifier::ext_equal]
pub ghost struct MempoolView {
    /// The width of a slot, in milliseconds.
    pub slot_width: u64,
    /// The slot each known identifier was received in.
    pub slot_of: Map<Id, u64>,
    /// The identifiers pooled in each slot.
    pub pools: Map<u64, Set<Id>>,
    /// The index value each in-flight identifier is owned by.
    pub inflight: Map<Id, u64>,
    /// The identifiers recorded as in flight at each index value.
    pub inflight_sets: Map<u64, Set<Id>>,
}

/// The invariant of a mempool's abstract state: a positive slot width, a set for
/// every slot and index value, every pooled identifier in the slot it was
/// received in, and finitely many identifiers known.
pub open spec fn mempool_view_wf(v: MempoolView) -> bool {
    &&& v.slot_width > 0
    &&& forall|s: u64| v.pools.contains_key(s)
    &&& forall|k: u64| v.inflight_sets.contains_key(k)
    &&& forall|s: u64, id: Id| #[trigger] v.pools[s].contains(id) ==> v.slot_of.contains_key(id) && v.slot_of[id] == s
    &&& v.slot_of.dom().finite()
}

#[derive(Debug, PartialEq, Eq, Clone, Copy, Structural)]
pub enum MempoolError {
    /// slot_width_ms must be greater than zero
    InvalidSlotWidth,
    /// system time is before UNIX_EPOCH
    SystemTimeBeforeEpoch,
}

/// Slot-bucketed mempool for verified Aegeri transactions.
///
/// - `by_slot` is the pool backing storage and ordering index.
/// - `inflight` maps transaction IDs to the consensus index value that owns them.
/// - Popping from slots marks IDs in flight; they stay in their slot.
/// - Returning IDs to the pool unmarks them, so they keep their original slot.
pub struct Mempool {
    slot_width_ms: u64,
    /// Id to slot mapping for returning ids to the pool.
    by_id: IdTable,
    /// Ordered backing storage used for candidate selection.
    by_slot: SetTable,
    /// In-flight ownership by id.
    inflight_by_id: IdTable,
    /// In-flight ownership by consensus index value.
    inflight_by_index: SetTable,
}

impl View for Mempool {
    type V = MempoolView;

    closed spec fn view(&self) -> MempoolView {
        MempoolView {
            slot_width: self.slot_width_ms,
            slot_of: self.by_id.map(),
            pools: Map::new(|s: u64| true, |s: u64| self.by_slot.at(s)),
            inflight: self.inflight_by_id.map(),
            inflight_sets: Map::new(|k: u64| true, |k: u64| self.inflight_by_index.at(k)),
        }
    }
}

/// The view after marking `id` in flight at index value `k`: it leaves the set of
/// the index value that owned it before, if another, and joins the set of `k`.
pub open spec fn marked(v: MempoolView, id: Id, k: u64) -> MempoolView {
    let sets = if v.inflight.contains_key(id) && v.inflight[id] != k {
        v.inflight_sets.insert(v.inflight[id], v.inflight_sets[v.inflight[id]].remove(id))
    } else {
        v.inflight_sets
    };
    MempoolView {
        inflight: v.inflight.insert(id, k),
        inflight_sets: sets.insert(k, sets[k].insert(id)),
        ..v
    }
}

/// The view after unmarking `id` at index value `k`: where `k` owns it, it is no
/// longer owned and leaves the set of `k`; where `k` does not own it, nothing
/// changes.
pub open spec fn unmarked_at(v: MempoolView, id: Id, k: u64) -> MempoolView {
    if v.inflight.contains_key(id) && v.inflight[id] == k {
        MempoolView {
            inflight: v.inflight.remove(id),
            inflight_sets: v.inflight_sets.insert(k, v.inflight_sets[k].remove(id)),
            ..v
        }
    } else {
        v
    }
}

/// The view after unmarking `id` at the index value that owns it, if any.
pub open spec fn unmarked(v: MempoolView, id: Id) -> MempoolView {
    if v.inflight.contains_key(id) {
        unmarked_at(v, id, v.inflight[id])
    } else {
        v
    }
}

/// The view after removing `id`: unmarked, out of the pool of its slot, and its
/// slot forgotten, so that the mempool no longer knows it at all.
pub open spec fn removed(v: MempoolView, id: Id) -> MempoolView {
    let u = unmarked(v, id);
    if u.slot_of.contains_key(id) {
        MempoolView {
            slot_of: u.slot_of.remove(id),
            pools: u.pools.insert(u.slot_of[id], u.pools[u.slot_of[id]].remove(id)),
            ..u
        }
    } else {
        u
    }
}

/// The view after receiving `id` at `epoch_ms`: unchanged if `id` is already
/// known, else recorded in and pooled at the slot of `epoch_ms`.
pub open spec fn inserted(v: MempoolView, epoch_ms: u64, id: Id) -> MempoolView {
    if v.slot_of.contains_key(id) {
        v
    } else {
        let s = (epoch_ms / v.slot_width) as u64;
        MempoolView { slot_of: v.slot_of.insert(id, s), pools: v.pools.insert(s, v.pools[s].insert(id)), ..v }
    }
}

impl Mempool {
    /// The internal consistency of the mempool.
    pub closed spec fn wf(&self) -> bool {
        &&& self.slot_width_ms > 0
        &&& self.by_id.wf()
        &&& self.by_slot.wf()
        &&& self.inflight_by_id.wf()
        &&& self.inflight_by_index.wf()
        &&& forall|s: u64, id: Id| #[trigger] self.by_slot.at(s).contains(id) ==> self.by_id.map().contains_key(id)
            && self.by_id.map()[id] == s
        &&& self.by_id.map().dom().finite()
        &&& inflight_consistent(self@)
    }

    /// A well-formed mempool has a well-formed abstract state, whose two records of
    /// in-flight ownership agree.
    pub proof fn lemma_view_wf(&self)
        requires
            self.wf(),
        ensures
            mempool_view_wf(self@),
            inflight_consistent(self@),
    {
    }

    pub fn new(slot_width_ms: u64) -> (r: Result<Self, MempoolError>)
        ensures
            r is Ok <==> slot_width_ms > 0,
            slot_width_ms == 0 <==> r == Err::<Self, MempoolError>(MempoolError::InvalidSlotWidth),
            r matches Ok(m) ==> m.wf() && inflight_consistent(m@) && m@.slot_width == slot_width_ms && m@.slot_of.is_empty()
                && m@.inflight.is_empty() && (forall|s: u64| #[trigger] m@.pools[s].is_empty())
                && (forall|k: u64| #[trigger] m@.inflight_sets[k].is_empty()),
    {
        if slot_width_ms == 0 {
            return Err(MempoolError::InvalidSlotWidth);
        }
        let m = Mempool {
            slot_width_ms,
            by_id: IdTable::new(),
            by_slot: SetTable::new(),
            inflight_by_id: IdTable::new(),
            inflight_by_index: SetTable::new(),
        };
        proof {
            assert(m@.slot_of =~= Map::<Id, u64>::empty());
            assert(m@.inflight =~= Map::<Id, u64>::empty());
            assert(m.by_id.map().dom() =~= Set::<Id>::empty());
        }
        Ok(m)
    }

    pub fn slot_width_ms(&self) -> (r: u64)
        ensures
            r == self@.slot_width,
    {
        self.slot_width_ms
    }

    fn slot_for_epoch_ms(&self, epoch_ms: u64) -> (s: u64)
        requires
            self.wf(),
        ensures
            s == epoch_ms / self@.slot_width,
    {
        epoch_ms / self.slot_width_ms
    }

    /// Records that `id` was received at `received_at_epoch_ms` and pools it in
    /// that slot; an already known `id` is left where it is.
    pub fn insert_at(&mut self, received_at_epoch_ms: u64, id: Id)
        requires
            old(self).wf(),
        ensures
            final(self).wf(),
            inflight_consistent(final(self)@),
            final(self)@ == inserted(old(self)@, received_at_epoch_ms, id),
    {
        if self.by_id.get(&id).is_some() {
            return;
        }
        let slot = self.slot_for_epoch_ms(received_at_epoch_ms);
        self.by_slot.add(slot, id);
        self.by_id.set(id, slot);
        proof {
            let v = old(self)@;
            let s = slot;
            assert forall|q: u64, x: Id| #[trigger] self.by_slot.at(q).contains(x) implies self.by_id.map().contains_key(x)
                && self.by_id.map()[x] == q by {
                if !(q == s && x == id) {
                    assert(old(self).by_slot.at(q).contains(x));
                }
            }
            assert(self@.pools =~= v.pools.insert(s, v.pools[s].insert(id)));
            assert(self@ =~= inserted(v, received_at_epoch_ms, id));
            assert(self.by_id.map().dom() =~= old(self).by_id.map().dom().insert(id));
            lemma_inserted_consistent(v, received_at_epoch_ms, id);
        }
    }

    /// Marks an id as inflight at a given index value.
    pub fn mark_inflight(&mut self, id: Id, index_value: IndexValue)
        requires
            old(self).wf(),
        ensures
            final(self).wf(),
            inflight_consistent(final(self)@),
            final(self)@ == marked(old(self)@, id, index_value.0),
    {
        let ghost v = self@;
        // Make sure to get rid of the id in the old index value mapping.
        match self.inflight_by_id.get(&id) {
            Some(existing) => {
                if existing != index_value.0 {
                    self.inflight_by_index.remove(existing, &id);
                }
            },
            None => {},
        }
        let ghost mid = self.inflight_by_index;
        self.inflight_by_id.set(id, index_value.0);
        self.inflight_by_index.add(index_value.0, id);
        proof {
            let sets = if v.inflight.contains_key(id) && v.inflight[id] != index_value.0 {
                v.inflight_sets.insert(v.inflight[id], v.inflight_sets[v.inflight[id]].remove(id))
            } else {
                v.inflight_sets
            };
            assert forall|k: u64| mid.at(k) == sets[k] by {
            }
            assert(self@.inflight_sets =~= sets.insert(index_value.0, sets[index_value.0].insert(id)));
            assert(self@ =~= marked(v, id, index_value.0));
            old(self).lemma_view_wf();
            lemma_marked_consistent(v, id, index_value.0);
        }
    }

    /// Unmarks an id as inflight at a given index value; an id that another index
    /// value owns stays in flight there.
    pub fn unmark_inflight_at(&mut self, id: Id, index_value: IndexValue)
        requires
            old(self).wf(),
        ensures
            final(self).wf(),
            inflight_consistent(final(self)@),
            final(self)@ == unmarked_at(old(self)@, id, index_value.0),
    {
        match self.inflight_by_id.get(&id) {
            Some(owner) => {
                if owner == index_value.0 {
                    self.inflight_by_id.remove(&id);
                    self.inflight_by_index.remove(index_value.0, &id);
                    proof {
                        let v = old(self)@;
                        assert(self@.inflight_sets =~= v.inflight_sets.insert(index_value.0, v.inflight_sets[index_value.0].remove(id)));
                        assert(self@ =~= unmarked_at(v, id, index_value.0));
                        lemma_unmarked_at_consistent(v, id, index_value.0);
                    }
                }
            },
            None => {},
        }
    }

    /// Removes an id from inflight.
    pub fn unmark_inflight(&mut self, id: Id)
        requires
            old(self).wf(),
        ensures
            final(self).wf(),
            inflight_consistent(final(self)@),
            final(self)@ == unmarked(old(self)@, id),
    {
        match self.inflight_by_id.get(&id) {
            Some(index_value) => self.unmark_inflight_at(id, IndexValue(index_value)),
            None => {},
        }
    }

    /// Removes an id from the mempool entirely.
    pub fn remove(&mut self, id: Id)
        requires
            old(self).wf(),
        ensures
            final(self).wf(),
            inflight_consistent(final(self)@),
            final(self)@ == removed(old(self)@, id),
    {
        self.unmark_inflight(id);
        let ghost u = self@;
        match self.by_id.get(&id) {
            Some(slot) => {
                self.by_slot.remove(slot, &id);
                self.by_id.remove(&id);
                proof {
                    assert(self@.pools =~= u.pools.insert(slot, u.pools[slot].remove(id)));
                    assert(self@.slot_of =~= u.slot_of.remove(id));
                    assert(self@ =~= removed(old(self)@, id));
                    assert forall|q: u64, x: Id| #[trigger] self.by_slot.at(q).contains(x) implies self.by_id.map().contains_key(x)
                        && self.by_id.map()[x] == q by {
                        if x == id {
                            assert(u.pools[q].contains(id));
                        }
                    }
                    lemma_removed_consistent(old(self)@, id);
                }
            },
            None => {},
        }
    }
}


/// `id` can be popped below slot `upper`: pooled in its slot, that slot below
/// `upper`, and not in flight.
pub open spec fn eligible(v: MempoolView, upper: int, id: Id) -> bool {
    &&& v.slot_of.contains_key(id)
    &&& v.slot_of[id] < upper
    &&& v.pools[v.slot_of[id]].contains(id)
    &&& !v.inflight.contains_key(id)
}

/// `a` is popped before `b`: newer slots first, and within a slot larger IDs first.
pub open spec fn pops_before(v: MempoolView, a: Id, b: Id) -> bool {
    ||| v.slot_of[a] > v.slot_of[b]
    ||| (v.slot_of[a] == v.slot_of[b] && id_lt(b, a))
}

/// `r` is what popping up to `max` identifiers at `now_ms` selects: nothing when
/// `max` is zero or the current slot is below two; else eligible identifiers below
/// the slot before the current one, in pop order, the first ones in that order,
/// as many as there are up to `max`.
pub open spec fn popped(v: MempoolView, now_ms: u64, max: usize, r: Seq<Id>) -> bool {
    let current = now_ms / v.slot_width;
    if max == 0 || current <= 1 {
        r.len() == 0
    } else {
        let upper = current - 1;
        &&& r.len() <= max
        &&& forall|i: int| 0 <= i < r.len() ==> eligible(v, upper, #[trigger] r[i])
        &&& forall|i: int, j: int| 0 <= i < j < r.len() ==> pops_before(v, #[trigger] r[i], #[trigger] r[j])
        &&& forall|id: Id|
            eligible(v, upper, id) && !r.contains(id) ==> r.len() == max && forall|i: int|
                0 <= i < r.len() ==> pops_before(v, #[trigger] r[i], id)
    }
}

/// The view after marking each of `r` in flight at `k`, in order.
pub open spec fn marked_all(v: MempoolView, r: Seq<Id>, k: u64) -> MempoolView
    decreases r.len(),
{
    if r.len() == 0 {
        v
    } else {
        marked(marked_all(v, r.drop_last(), k), r.last(), k)
    }
}

impl Mempool {
    /// Pops up to `max_items` transactions from any eligible slot `< t - 1`.
    ///
    /// Pop priority:
    /// 1. Newer eligible slots first.
    /// 2. Within each slot, larger `Id` values first.
    ///
    /// The popped identifiers are marked in flight at `index_value`.
    #[verifier::rlimit(40)]
    pub fn pop_ready_at(&mut self, now_epoch_ms: u64, max_items: usize, index_value: IndexValue) -> (r: Vec<Id>)
        requires
            old(self).wf(),
        ensures
            final(self).wf(),
            inflight_consistent(final(self)@),
            popped(old(self)@, now_epoch_ms, max_items, r@),
            final(self)@ == marked_all(old(self)@, r@, index_value.0),
    {
        if max_items == 0 {
            return Vec::new();
        }
        let current = self.slot_for_epoch_ms(now_epoch_ms);
        if current <= 1 {
            return Vec::new();
        }
        let upper = current - 1;
        let ghost v = self@;
        let ghost up = upper as int;
        proof {
            self.by_slot.lemma_entries();
            assert forall|id: Id| eligible(v, up, id) implies exists|t: int| 0 <= t < self.by_slot.count() && #[trigger] self.by_slot.key(t) == v.slot_of[id] by {
                if !exists|t: int| 0 <= t < self.by_slot.count() && #[trigger] self.by_slot.key(t) == v.slot_of[id] {
                    assert(self.by_slot.at(v.slot_of[id]) == Set::<Id>::empty());
                }
            }
        }
        let mut selected: Vec<Id> = Vec::new();
        let mut si = self.by_slot.len();
        while si > 0 && selected.len() < max_items
            invariant
                self.wf(),
                self@ == v,
                up == upper as int,
                upper as int == (now_epoch_ms / v.slot_width) - 1,
                si <= self.by_slot.count(),
                selected@.len() <= max_items,
                forall|i: int, j: int| 0 <= i < j < self.by_slot.count() ==> #[trigger] self.by_slot.key(i) < #[trigger] self.by_slot.key(j),
                forall|i: int| 0 <= i < self.by_slot.count() ==> ids_sorted(#[trigger] self.by_slot.ids(i)) && self.by_slot.ids(i).len() > 0,
                forall|i: int| 0 <= i < self.by_slot.count() ==> self.by_slot.at(#[trigger] self.by_slot.key(i)) == self.by_slot.ids(i).to_set(),
                forall|id: Id| eligible(v, up, id) ==> exists|t: int| 0 <= t < self.by_slot.count() && #[trigger] self.by_slot.key(t) == v.slot_of[id],
                forall|i: int| 0 <= i < selected@.len() ==> eligible(v, up, #[trigger] selected@[i]),
                forall|i: int| 0 <= i < selected@.len() ==> si < self.by_slot.count() && v.slot_of[#[trigger] selected@[i]] >= self.by_slot.key(si as int),
                forall|i: int, j: int| 0 <= i < j < selected@.len() ==> pops_before(v, #[trigger] selected@[i], #[trigger] selected@[j]),
                forall|id: Id|
                    eligible(v, up, id) && !selected@.contains(id) ==> forall|i: int|
                        0 <= i < selected@.len() ==> pops_before(v, #[trigger] selected@[i], id),
                selected@.len() < max_items ==> forall|id: Id|
                    eligible(v, up, id) && (exists|t: int| si <= t < self.by_slot.count() && #[trigger] self.by_slot.key(t) == v.slot_of[id])
                        ==> selected@.contains(id),
            decreases si,
        {
            si = si - 1;
            let slot = self.by_slot.key_of(si);
            if slot >= upper {
                proof {
                    assert forall|id: Id|
                        eligible(v, up, id) && (exists|t: int| si <= t < self.by_slot.count() && #[trigger] self.by_slot.key(t) == v.slot_of[id])
                            implies selected@.contains(id) by {
                        let t = choose|t: int| si <= t < self.by_slot.count() && #[trigger] self.by_slot.key(t) == v.slot_of[id];
                        if t == si {
                            assert(v.slot_of[id] >= upper);
                        } else {
                            assert(exists|t: int| si + 1 <= t < self.by_slot.count() && #[trigger] self.by_slot.key(t) == v.slot_of[id]);
                        }
                    }
                }
                continue;
            }
            let ids = self.by_slot.ids_of(si).ids();
            let ghost pool = ids@;
            proof {
                assert(v.pools[slot] == pool.to_set());
            }
            let mut ji = ids.len();
            while ji > 0 && selected.len() < max_items
                invariant
                    self.wf(),
                    self@ == v,
                    up == upper as int,
                    slot < upper,
                    si < self.by_slot.count(),
                    slot == self.by_slot.key(si as int),
                    pool == ids@,
                    ids_sorted(pool),
                    v.pools[slot] == pool.to_set(),
                    ji <= pool.len(),
                    selected@.len() <= max_items,
                    forall|i: int, j: int| 0 <= i < j < self.by_slot.count() ==> #[trigger] self.by_slot.key(i) < #[trigger] self.by_slot.key(j),
                    forall|id: Id| eligible(v, up, id) ==> exists|t: int| 0 <= t < self.by_slot.count() && #[trigger] self.by_slot.key(t) == v.slot_of[id],
                    forall|i: int| 0 <= i < selected@.len() ==> eligible(v, up, #[trigger] selected@[i]),
                    forall|i: int|
                        0 <= i < selected@.len() ==> v.slot_of[#[trigger] selected@[i]] > slot || (v.slot_of[selected@[i]] == slot
                            && exists|k: int| ji <= k < pool.len() && pool[k] == selected@[i]),
                    forall|i: int, j: int| 0 <= i < j < selected@.len() ==> pops_before(v, #[trigger] selected@[i], #[trigger] selected@[j]),
                    forall|id: Id|
                        eligible(v, up, id) && !selected@.contains(id) ==> forall|i: int|
                            0 <= i < selected@.len() ==> pops_before(v, #[trigger] selected@[i], id),
                    forall|id: Id| eligible(v, up, id) && v.slot_of[id] > slot ==> selected@.contains(id),
                    forall|id: Id|
                        eligible(v, up, id) && v.slot_of[id] == slot && (exists|k: int| ji <= k < pool.len() && #[trigger] pool[k] == id)
                            ==> selected@.contains(id),
                decreases ji,
            {
                ji = ji - 1;
                let id = ids[ji];
                let owner = self.inflight_by_id.get(&id);
                let ghost before = selected@;
                if owner.is_none() {
                    proof {
                        assert(pool.to_set().contains(id));
                        assert(v.pools[slot].contains(id));
                        assert(eligible(v, up, id));
                        assert forall|i: int| 0 <= i < before.len() implies pops_before(v, #[trigger] before[i], id) by {
                            if v.slot_of[before[i]] == slot {
                                let k = choose|k: int| ji + 1 <= k < pool.len() && pool[k] == before[i];
                                assert(id_lt(pool[ji as int], pool[k]));
                            }
                        }
                        assert(!before.contains(id)) by {
                            if before.contains(id) {
                                let i = choose|i: int| 0 <= i < before.len() && before[i] == id;
                                let k = choose|k: int| ji + 1 <= k < pool.len() && pool[k] == before[i];
                                assert(id_lt(pool[ji as int], pool[k]));
                            }
                        }
                    }
                    selected.push(id);
                    proof {
                        let after = selected@;
                        assert forall|x: Id| eligible(v, up, x) && !after.contains(x) implies forall|i: int|
                            0 <= i < after.len() ==> pops_before(v, #[trigger] after[i], x) by {
                            assert(!before.contains(x)) by {
                                if before.contains(x) {
                                    let i = choose|i: int| 0 <= i < before.len() && before[i] == x;
                                    assert(after[i] == x);
                                }
                            }
                            assert(x != id) by {
                                if x == id {
                                    assert(after[before.len() as int] == x);
                                }
                            }
                            assert(v.slot_of[x] <= slot);
                            if v.slot_of[x] == slot {
                                assert(pool.to_set().contains(x));
                                let k = choose|k: int| 0 <= k < pool.len() && pool[k] == x;
                                if k > ji {
                                    assert(exists|k: int| ji + 1 <= k < pool.len() && #[trigger] pool[k] == x);
                                }
                                assert(k < ji);
                                assert(id_lt(pool[k], pool[ji as int]));
                            }
                            assert forall|i: int| 0 <= i < after.len() implies pops_before(v, #[trigger] after[i], x) by {
                                if i < before.len() {
                                    assert(after[i] == before[i]);
                                }
                            }
                        }
                        assert forall|i: int|
                            0 <= i < after.len() implies v.slot_of[#[trigger] after[i]] > slot || (v.slot_of[after[i]] == slot
                                && exists|k: int| ji <= k < pool.len() && pool[k] == after[i]) by {
                            if i < before.len() {
                                assert(after[i] == before[i]);
                                if v.slot_of[before[i]] <= slot {
                                    let k = choose|k: int| ji + 1 <= k < pool.len() && pool[k] == before[i];
                                    assert(ji <= k < pool.len() && pool[k] == after[i]);
                                }
                            } else {
                                assert(pool[ji as int] == after[i]);
                            }
                        }
                        assert forall|x: Id|
                            eligible(v, up, x) && v.slot_of[x] == slot && (exists|k: int| ji <= k < pool.len() && #[trigger] pool[k] == x)
                                implies after.contains(x) by {
                            let k = choose|k: int| ji <= k < pool.len() && #[trigger] pool[k] == x;
                            if k == ji {
                                assert(after[before.len() as int] == x);
                            } else {
                                assert(exists|k: int| ji + 1 <= k < pool.len() && #[trigger] pool[k] == x);
                                let i = choose|i: int| 0 <= i < before.len() && before[i] == x;
                                assert(after[i] == x);
                            }
                        }
                        assert forall|x: Id| eligible(v, up, x) && v.slot_of[x] > slot implies after.contains(x) by {
                            let i = choose|i: int| 0 <= i < before.len() && before[i] == x;
                            assert(after[i] == x);
                        }
                    }
                } else {
                    proof {
                        assert(!eligible(v, up, id));
                        assert forall|i: int|
                            0 <= i < before.len() implies v.slot_of[#[trigger] before[i]] > slot || (v.slot_of[before[i]] == slot
                                && exists|k: int| ji <= k < pool.len() && pool[k] == before[i]) by {
                            if v.slot_of[before[i]] <= slot {
                                let k = choose|k: int| ji + 1 <= k < pool.len() && pool[k] == before[i];
                                assert(ji <= k < pool.len() && pool[k] == before[i]);
                            }
                        }
                        assert forall|x: Id|
                            eligible(v, up, x) && v.slot_of[x] == slot && (exists|k: int| ji <= k < pool.len() && #[trigger] pool[k] == x)
                                implies before.contains(x) by {
                            let k = choose|k: int| ji <= k < pool.len() && #[trigger] pool[k] == x;
                            if k > ji {
                                assert(exists|k: int| ji + 1 <= k < pool.len() && #[trigger] pool[k] == x);
                            }
                        }
                    }
                }
            }
            proof {
                if selected@.len() < max_items {
                    assert(ji == 0);
                    assert forall|id: Id|
                        eligible(v, up, id) && (exists|t: int| si <= t < self.by_slot.count() && #[trigger] self.by_slot.key(t) == v.slot_of[id])
                            implies selected@.contains(id) by {
                        let t = choose|t: int| si <= t < self.by_slot.count() && #[trigger] self.by_slot.key(t) == v.slot_of[id];
                        if t == si {
                            assert(pool.to_set().contains(id));
                            let k = choose|k: int| 0 <= k < pool.len() && pool[k] == id;
                            assert(exists|k: int| ji <= k < pool.len() && #[trigger] pool[k] == id);
                        } else {
                            assert(self.by_slot.key(si as int) < self.by_slot.key(t));
                        }
                    }
                }
            }
        }
        proof {
            if selected@.len() < max_items {
                assert(si == 0);
                assert forall|id: Id| eligible(v, up, id) implies selected@.contains(id) by {
                    let t = choose|t: int| 0 <= t < self.by_slot.count() && #[trigger] self.by_slot.key(t) == v.slot_of[id];
                }
            }
            assert(popped(v, now_epoch_ms, max_items, selected@));
        }
        let mut k: usize = 0;
        assert(selected@.take(0) =~= Seq::<Id>::empty());
        while k < selected.len()
            invariant
                self.wf(),
                k <= selected@.len(),
                self@ == marked_all(v, selected@.take(k as int), index_value.0),
            decreases selected@.len() - k,
        {
            proof {
                assert(selected@.take(k + 1).drop_last() =~= selected@.take(k as int));
            }
            self.mark_inflight(selected[k], index_value);
            k = k + 1;
        }
        assert(selected@.take(k as int) =~= selected@);
        selected
    }
}


/// The view after releasing, from `v`, every identifier in `drop`: each of them
/// that is in flight is no longer, and leaves the set of the index value that
/// owned it.
pub open spec fn released(v: MempoolView, drop: Set<Id>) -> MempoolView {
    MempoolView {
        inflight: v.inflight.remove_keys(drop),
        inflight_sets: Map::new(
            |j: u64| true,
            |j: u64|
                Set::new(
                    |id: Id|
                        v.inflight_sets[j].contains(id) && !(drop.contains(id) && v.inflight.contains_key(id)
                            && v.inflight[id] == j),
                ),
        ),
        ..v
    }
}

/// The identifiers in flight at `k` in `v` that `keep` does not hold.
pub open spec fn stale(v: MempoolView, k: u64, keep: Set<Id>) -> Set<Id> {
    Set::new(|id: Id| v.inflight_sets[k].contains(id) && !keep.contains(id))
}

/// The identifiers of `t` that the mempool `v` has received, in the order of `t`.
pub open spec fn known_of(v: MempoolView, t: Seq<Id>) -> Seq<Id> {
    t.filter(|id: Id| v.slot_of.contains_key(id))
}

/// The view after reconciling `v` with the agreed identifiers `t` at index value
/// `k`: the known ones of `t` are marked in flight at `k`, in order, and then every
/// other identifier in flight at `k` is released.
pub open spec fn reconciled(v: MempoolView, k: u64, t: Seq<Id>) -> MempoolView {
    let known = known_of(v, t);
    let m = marked_all(v, known, k);
    released(m, stale(m, k, known.to_set()))
}

/// Marking keeps the invariant of the abstract state.
proof fn lemma_marked_all_wf(v: MempoolView, r: Seq<Id>, k: u64)
    requires
        mempool_view_wf(v),
    ensures
        mempool_view_wf(marked_all(v, r, k)),
        marked_all(v, r, k).slot_of == v.slot_of,
        marked_all(v, r, k).pools == v.pools,
        marked_all(v, r, k).slot_width == v.slot_width,
    decreases r.len(),
{
    if r.len() > 0 {
        lemma_marked_all_wf(v, r.drop_last(), k);
    }
}

/// Releasing nothing changes nothing.
proof fn lemma_released_none(v: MempoolView)
    requires
        mempool_view_wf(v),
    ensures
        released(v, Set::empty()) == v,
{
    let u = released(v, Set::empty());
    assert(u.inflight =~= v.inflight);
    assert forall|j: u64| #[trigger] u.inflight_sets[j] == v.inflight_sets[j] by {
        assert(u.inflight_sets[j] =~= v.inflight_sets[j]);
    }
    assert(u.inflight_sets =~= v.inflight_sets);
    assert(u =~= v);
}

/// Releasing one more identifier is unmarking it.
proof fn lemma_released_step(v: MempoolView, drop: Set<Id>, id: Id)
    requires
        mempool_view_wf(v),
        !drop.contains(id),
    ensures
        unmarked(released(v, drop), id) == released(v, drop.insert(id)),
{
    let u = released(v, drop);
    let w = released(v, drop.insert(id));
    assert(u.inflight.contains_key(id) == v.inflight.contains_key(id));
    if v.inflight.contains_key(id) {
        let o = v.inflight[id];
        let x = unmarked_at(u, id, o);
        assert(x.inflight =~= w.inflight);
        assert forall|j: u64| #[trigger] x.inflight_sets[j] == w.inflight_sets[j] by {
            assert(x.inflight_sets[j] =~= w.inflight_sets[j]);
        }
        assert(x.inflight_sets =~= w.inflight_sets);
        assert(x =~= w);
    } else {
        assert(u.inflight =~= w.inflight);
        assert forall|j: u64| #[trigger] u.inflight_sets[j] == w.inflight_sets[j] by {
            assert(u.inflight_sets[j] =~= w.inflight_sets[j]);
        }
        assert(u.inflight_sets =~= w.inflight_sets);
        assert(u =~= w);
    }
}

impl Mempool {
    /// Records `id` as received now, by the system clock (see `insert_at`).
    pub fn insert_now(&mut self, id: Id) -> (r: Result<(), MempoolError>)
        requires
            old(self).wf(),
        ensures
            final(self).wf(),
            inflight_consistent(final(self)@),
            r is Err ==> r == Err::<(), MempoolError>(MempoolError::SystemTimeBeforeEpoch) && final(self)@ == old(self)@,
            r is Ok ==> exists|ms: u64| final(self)@ == #[trigger] inserted(old(self)@, ms, id),
    {
        let now_ms = match epoch_millis_now() {
            Some(ms) => ms,
            None => return Err(MempoolError::SystemTimeBeforeEpoch),
        };
        self.insert_at(now_ms, id);
        Ok(())
    }

    /// Builds an availability proposal from the mempool: the popped identifiers
    /// (see `pop_ready_at`), marked in flight at the index's value.
    ///
    /// This is done without any reference to an agreed transaction set.
    pub fn build_availability_proposal(&mut self, now_epoch_ms: u64, max_items: usize, index: &Index) -> (r: Result<
        Availability,
        MempoolError,
    >)
        requires
            old(self).wf(),
        ensures
            final(self).wf(),
            inflight_consistent(final(self)@),
            r matches Ok(a) && exists|p: Seq<Id>|
                #[trigger] popped(old(self)@, now_epoch_ms, max_items, p) && final(self)@ == marked_all(
                    old(self)@,
                    p,
                    spec_value(*index).0,
                ) && ids_sorted(a@) && forall|x: Id| a@.contains(x) <==> p.contains(x),
    {
        let index_value = index.value();
        let selected_ids = self.pop_ready_at(now_epoch_ms, max_items, index_value);
        let mut ids = TransactionSet::new();
        let mut i: usize = 0;
        while i < selected_ids.len()
            invariant
                i <= selected_ids@.len(),
                ids_sorted(ids@),
                forall|x: Id| ids@.contains(x) <==> selected_ids@.take(i as int).contains(x),
            decreases selected_ids@.len() - i,
        {
            proof {
                assert(selected_ids@.take(i + 1) =~= selected_ids@.take(i as int).push(selected_ids@[i as int]));
                assert forall|x: Id| selected_ids@.take(i + 1).contains(x) <==> (selected_ids@.take(i as int).contains(x) || x == selected_ids@[i as int]) by {
                    lemma_push_contains(selected_ids@.take(i as int), selected_ids@[i as int], x);
                }
            }
            ids.add_id(selected_ids[i]);
            i = i + 1;
        }
        proof {
            assert(selected_ids@.take(i as int) =~= selected_ids@);
        }
        let a = Availability::from_transactions(ids);
        Ok(a)
    }

    /// Reconciles the mempool with an agreed transaction set at `index_value`: the
    /// known identifiers of the set are marked in flight there and returned; the
    /// others in flight there go back to the pool, in their original slot.
    pub fn reconcile_transactions(&mut self, index_value: IndexValue, transactions: &TransactionSet) -> (r:
        TransactionSet)
        requires
            old(self).wf(),
        ensures
            final(self).wf(),
            inflight_consistent(final(self)@),
            forall|x: Id| r@.contains(x) <==> transactions@.contains(x) && old(self)@.slot_of.contains_key(x),
            final(self)@ == reconciled(old(self)@, index_value.0, transactions@),
    {
        let ghost v = self@;
        let ghost k = index_value.0;
        let ghost pred = |id: Id| v.slot_of.contains_key(id);
        let t = transactions.iter_ids();
        let mut reconciled = TransactionSet::new();
        let ghost mut known: Seq<Id> = Seq::empty();
        let mut i: usize = 0;
        proof {
            reveal(Seq::filter);
            assert(t@.take(0) =~= Seq::<Id>::empty());
        }
        // Mark all the known ids as inflight at the given index value.
        while i < t.len()
            invariant
                self.wf(),
                i <= t@.len(),
                t@ == transactions@,
                known == t@.take(i as int).filter(pred),
                self@ == marked_all(v, known, k),
                forall|x: Id| reconciled@.contains(x) <==> known.contains(x),
                forall|x: Id| known.contains(x) <==> t@.take(i as int).contains(x) && v.slot_of.contains_key(x),
                mempool_view_wf(v),
                k == index_value.0,
                pred == (|id: Id| v.slot_of.contains_key(id)),
            decreases t@.len() - i,
        {
            let id = t[i];
            proof {
                reveal(Seq::filter);
                assert(t@.take(i + 1).drop_last() =~= t@.take(i as int));
                assert(t@.take(i + 1).last() == id);
                lemma_marked_all_wf(v, known, k);
            }
            let ghost prev = known;
            proof {
                assert(t@.take(i + 1) =~= t@.take(i as int).push(id));
                assert forall|x: Id| t@.take(i + 1).contains(x) <==> (t@.take(i as int).contains(x) || x == id) by {
                    lemma_push_contains(t@.take(i as int), id, x);
                }
            }
            if self.by_id.get(&id).is_some() {
                reconciled.add_id(id);
                self.mark_inflight(id, index_value);
                proof {
                    known = known.push(id);
                    assert(known.drop_last() =~= prev);
                    assert forall|x: Id| known.contains(x) <==> (prev.contains(x) || x == id) by {
                        lemma_push_contains(prev, id, x);
                    }
                    assert(known.last() == id);
                    assert(marked_all(v, known, k) == marked(marked_all(v, prev, k), id, k));
                    assert(self@ == marked_all(v, known, k));
                }
            }
            proof {
                assert forall|x: Id| known.contains(x) <==> t@.take(i + 1).contains(x) && v.slot_of.contains_key(x) by {}
            }
            i = i + 1;
        }
        proof {
            assert(t@.take(i as int) =~= t@);
            assert forall|x: Id| reconciled@.contains(x) <==> transactions@.contains(x) && v.slot_of.contains_key(x) by {
                assert(reconciled@.contains(x) <==> known.contains(x));
                assert(known.contains(x) <==> t@.take(i as int).contains(x) && v.slot_of.contains_key(x));
            }
            lemma_marked_all_wf(v, known, k);
        }
        let ghost m = self@;
        let ghost drop = stale(m, k, known.to_set());
        // We have an agreement that doesn't include some of our transactions.
        // We can try to repropose them later, but not at this index given the
        // agreement handed down in the transaction set.
        let members = self.inflight_by_index.members(index_value.0);
        let ms = members.iter_ids();
        let ghost mut dropped: Set<Id> = Set::empty();
        proof {
            lemma_released_none(m);
        }
        let mut j: usize = 0;
        while j < ms.len()
            invariant
                self.wf(),
                j <= ms@.len(),
                ids_sorted(ms@),
                ms@.to_set() == m.inflight_sets[k],
                mempool_view_wf(m),
                k == index_value.0,
                forall|x: Id| reconciled@.contains(x) <==> known.contains(x),
                drop == stale(m, k, known.to_set()),
                dropped == Set::new(|x: Id| ms@.take(j as int).contains(x) && !known.contains(x)),
                self@ == released(m, dropped),
            decreases ms@.len() - j,
        {
            let id = ms[j];
            proof {
                assert(ms@.take(j + 1) =~= ms@.take(j as int).push(id));
                assert(!ms@.take(j as int).contains(id)) by {
                    if ms@.take(j as int).contains(id) {
                        let q = choose|q: int| 0 <= q < j && ms@.take(j as int)[q] == id;
                        assert(id_lt(ms@[q], ms@[j as int]));
                    }
                }
            }
            if !reconciled.contains(&id) {
                proof {
                    lemma_released_step(m, dropped, id);
                }
                self.unmark_inflight(id);
                proof {
                    dropped = dropped.insert(id);
                }
            }
            proof {
                assert forall|x: Id| ms@.take(j + 1).contains(x) <==> (ms@.take(j as int).contains(x) || x == id) by {
                    lemma_push_contains(ms@.take(j as int), id, x);
                }
            }
            j = j + 1;
            proof {
                assert(dropped =~= Set::new(|x: Id| ms@.take(j as int).contains(x) && !known.contains(x)));
            }
        }
        proof {
            assert(ms@.take(j as int) =~= ms@);
            assert forall|x: Id| ms@.contains(x) <==> m.inflight_sets[k].contains(x) by {
                assert(ms@.to_set().contains(x) <==> ms@.contains(x));
            }
            assert forall|x: Id| known.to_set().contains(x) <==> known.contains(x) by {}
            assert(dropped =~= drop);
            assert(known == known_of(v, transactions@));
        }
        reconciled
    }

    /// Builds a confirmation proposal from the mempool: the availability agreement
    /// reconciled at the index's value (see `reconcile_transactions`).
    pub fn build_confirmation_proposal(&mut self, index: &Index, availability: &Availability) -> (r: Result<
        Confirmation,
        MempoolError,
    >)
        requires
            old(self).wf(),
        ensures
            final(self).wf(),
            inflight_consistent(final(self)@),
            r matches Ok(c) && ids_sorted(c@) && (forall|x: Id| c@.contains(x) <==> availability@.contains(x) && old(self)@.slot_of.contains_key(x))
                && final(self)@ == reconciled(old(self)@, spec_value(*index).0, availability@),
    {
        let index_value = index.value();
        let reconciled = self.reconcile_transactions(index_value, availability.transactions());
        Ok(Confirmation::from_transactions(reconciled))
    }

    /// Builds a block header proposal from the mempool: the confirmation agreement
    /// reconciled at the index's value (see `reconcile_transactions`).
    pub fn build_block_header_proposal(&mut self, index: &Index, confirmation: &Confirmation) -> (r: Result<
        BlockHeader,
        MempoolError,
    >)
        requires
            old(self).wf(),
        ensures
            final(self).wf(),
            inflight_consistent(final(self)@),
            r matches Ok(b) && ids_sorted(b@) && (forall|x: Id| b@.contains(x) <==> confirmation@.contains(x) && old(self)@.slot_of.contains_key(x))
                && final(self)@ == reconciled(old(self)@, spec_value(*index).0, confirmation@),
    {
        // This does the same thing as build_confirmation_proposal; the two differ
        // at the consensus condition level.
        let index_value = index.value();
        let reconciled = self.reconcile_transactions(index_value, confirmation.transactions());
        Ok(BlockHeader::from_transactions(reconciled))
    }
}

impl Mempool {
    /// The index value that owns `id` in flight, if any.
    pub fn inflight_index_of(&self, id: &Id) -> (r: Option<IndexValue>)
        requires
            self.wf(),
        ensures
            r == if self@.inflight.contains_key(*id) {
                Some(IndexValue(self@.inflight[*id]))
            } else {
                None::<IndexValue>
            },
    {
        match self.inflight_by_id.get(id) {
            Some(k) => Some(IndexValue(k)),
            None => None,
        }
    }

    /// The identifiers recorded in flight at `index_value`.
    pub fn inflight_ids_at(&self, index_value: IndexValue) -> (r: TransactionSet)
        requires
            self.wf(),
        ensures
            r@.to_set() == self@.inflight_sets[index_value.0],
    {
        self.inflight_by_index.members(index_value.0)
    }

    /// Whether `id` is pooled in some slot.
    pub fn is_pooled(&self, id: &Id) -> (r: bool)
        requires
            self.wf(),
        ensures
            r == exists|s: u64| #[trigger] self@.pools[s].contains(*id),
    {
        match self.by_id.get(id) {
            Some(slot) => {
                let r = self.by_slot.contains(slot, id);
                proof {
                    if r {
                        assert(self@.pools[slot].contains(*id));
                    } else {
                        assert forall|s: u64| !#[trigger] self@.pools[s].contains(*id) by {
                            if self.by_slot.at(s).contains(*id) {
                                assert(self.by_id.map()[*id] == s);
                            }
                        }
                    }
                }
                r
            },
            None => {
                proof {
                    assert forall|s: u64| !#[trigger] self@.pools[s].contains(*id) by {
                        if self.by_slot.at(s).contains(*id) {
                            assert(self.by_id.map().contains_key(*id));
                        }
                    }
                }
                false
            },
        }
    }
}

/// The two records of in-flight ownership agree: an identifier is in the set of
/// an index value exactly when that index value owns it.
pub open spec fn inflight_consistent(v: MempoolView) -> bool {
    forall|id: Id, k: u64| #[trigger] v.inflight_sets[k].contains(id) <==> (v.inflight.contains_key(id) && v.inflight[id] == k)
}

/// Marking an identifier in flight keeps the two records of ownership in agreement.
pub proof fn lemma_marked_consistent(v: MempoolView, id: Id, k: u64)
    requires
        mempool_view_wf(v),
        inflight_consistent(v),
    ensures
        inflight_consistent(marked(v, id, k)),
        mempool_view_wf(marked(v, id, k)),
{
    let w = marked(v, id, k);
    assert forall|x: Id, j: u64| #[trigger] w.inflight_sets[j].contains(x) <==> (w.inflight.contains_key(x) && w.inflight[x] == j) by {
        assert(v.inflight_sets[j].contains(x) <==> (v.inflight.contains_key(x) && v.inflight[x] == j));
        if v.inflight.contains_key(id) {
            let o = v.inflight[id];
            assert(v.inflight_sets[o].contains(x) <==> (v.inflight.contains_key(x) && v.inflight[x] == o));
        }
    }
}

/// Unmarking an identifier at an index value keeps the two records of ownership
/// in agreement.
pub proof fn lemma_unmarked_at_consistent(v: MempoolView, id: Id, k: u64)
    requires
        mempool_view_wf(v),
        inflight_consistent(v),
    ensures
        inflight_consistent(unmarked_at(v, id, k)),
        mempool_view_wf(unmarked_at(v, id, k)),
{
    let w = unmarked_at(v, id, k);
    assert forall|x: Id, j: u64| #[trigger] w.inflight_sets[j].contains(x) <==> (w.inflight.contains_key(x) && w.inflight[x] == j) by {
        assert(v.inflight_sets[j].contains(x) <==> (v.inflight.contains_key(x) && v.inflight[x] == j));
        assert(v.inflight_sets[k].contains(x) <==> (v.inflight.contains_key(x) && v.inflight[x] == k));
    }
}

/// Unmarking an identifier keeps the two records of ownership in agreement.
pub proof fn lemma_unmarked_consistent(v: MempoolView, id: Id)
    requires
        mempool_view_wf(v),
        inflight_consistent(v),
    ensures
        inflight_consistent(unmarked(v, id)),
        mempool_view_wf(unmarked(v, id)),
{
    let w = unmarked(v, id);
    assert forall|x: Id, j: u64| #[trigger] w.inflight_sets[j].contains(x) <==> (w.inflight.contains_key(x) && w.inflight[x] == j) by {
        assert(v.inflight_sets[j].contains(x) <==> (v.inflight.contains_key(x) && v.inflight[x] == j));
        if v.inflight.contains_key(id) {
            let o = v.inflight[id];
            assert(v.inflight_sets[o].contains(x) <==> (v.inflight.contains_key(x) && v.inflight[x] == o));
        }
    }
}

/// Removing an identifier keeps the two records of ownership in agreement, and
/// leaves it neither in flight nor pooled.
pub proof fn lemma_removed_consistent(v: MempoolView, id: Id)
    requires
        mempool_view_wf(v),
        inflight_consistent(v),
    ensures
        inflight_consistent(removed(v, id)),
        mempool_view_wf(removed(v, id)),
        !removed(v, id).inflight.contains_key(id),
        forall|s: u64| !(#[trigger] removed(v, id).pools[s].contains(id)),
{
    lemma_unmarked_consistent(v, id);
    let u = unmarked(v, id);
    let w = removed(v, id);
    assert forall|s: u64| !(#[trigger] w.pools[s].contains(id)) by {
        if u.slot_of.contains_key(id) && s != u.slot_of[id] {
            assert(!u.pools[s].contains(id));
        }
    }
}

/// Receiving an identifier keeps the two records of ownership in agreement.
pub proof fn lemma_inserted_consistent(v: MempoolView, epoch_ms: u64, id: Id)
    requires
        mempool_view_wf(v),
        inflight_consistent(v),
    ensures
        inflight_consistent(inserted(v, epoch_ms, id)),
        mempool_view_wf(inserted(v, epoch_ms, id)),
{
}

/// Marking a sequence of identifiers keeps the two records of ownership in agreement.
pub proof fn lemma_marked_all_consistent(v: MempoolView, r: Seq<Id>, k: u64)
    requires
        mempool_view_wf(v),
        inflight_consistent(v),
    ensures
        inflight_consistent(marked_all(v, r, k)),
        mempool_view_wf(marked_all(v, r, k)),
    decreases r.len(),
{
    if r.len() > 0 {
        lemma_marked_all_consistent(v, r.drop_last(), k);
        lemma_marked_consistent(marked_all(v, r.drop_last(), k), r.last(), k);
    }
}

/// Marking a sequence of identifiers at `k` leaves each of them owned by `k`.
proof fn lemma_marked_all_owns(v: MempoolView, r: Seq<Id>, k: u64)
    ensures
        forall|x: Id| #[trigger] r.contains(x) ==> marked_all(v, r, k).inflight.contains_key(x) && marked_all(v, r, k).inflight[x] == k,
        forall|x: Id| !r.contains(x) ==> marked_all(v, r, k).inflight.contains_key(x) == v.inflight.contains_key(x)
            && (v.inflight.contains_key(x) ==> marked_all(v, r, k).inflight[x] == v.inflight[x]),
    decreases r.len(),
{
    if r.len() > 0 {
        lemma_marked_all_owns(v, r.drop_last(), k);
        let prev = marked_all(v, r.drop_last(), k);
        assert(marked_all(v, r, k) == marked(prev, r.last(), k));
        assert(marked_all(v, r, k).inflight == prev.inflight.insert(r.last(), k));
        assert forall|x: Id| #[trigger] r.contains(x) implies marked_all(v, r, k).inflight.contains_key(x)
            && marked_all(v, r, k).inflight[x] == k by {
            if x != r.last() {
                let q = choose|q: int| 0 <= q < r.len() && r[q] == x;
                assert(q != r.len() - 1);
                assert(r.drop_last()[q] == x);
                assert(r.drop_last().contains(x));
                assert(prev.inflight.contains_key(x) && prev.inflight[x] == k);
            }
        }
        assert forall|x: Id| !r.contains(x) implies marked_all(v, r, k).inflight.contains_key(x) == v.inflight.contains_key(x)
            && (v.inflight.contains_key(x) ==> marked_all(v, r, k).inflight[x] == v.inflight[x]) by {
            assert(x != r.last()) by {
                if x == r.last() {
                    assert(r[r.len() - 1] == x);
                }
            }
            assert(!r.drop_last().contains(x)) by {
                if r.drop_last().contains(x) {
                    let q = choose|q: int| 0 <= q < r.drop_last().len() && r.drop_last()[q] == x;
                    assert(r[q] == x);
                }
            }
        }
    }
}

/// Reconciling with an agreement returns the identifiers it drops to the pool they
/// came from: no slot changes and no pool changes. Where the two records of
/// ownership agree, they still agree afterwards, and what stays in flight at the
/// agreement's index value is exactly the agreed identifiers the mempool knows.
pub proof fn lemma_reconciled(v: MempoolView, k: u64, t: Seq<Id>)
    requires
        mempool_view_wf(v),
    ensures
        reconciled(v, k, t).slot_of == v.slot_of,
        reconciled(v, k, t).pools == v.pools,
        mempool_view_wf(reconciled(v, k, t)),
        inflight_consistent(v) ==> inflight_consistent(reconciled(v, k, t)),
        inflight_consistent(v) ==> forall|x: Id|
            #[trigger] reconciled(v, k, t).inflight_sets[k].contains(x) <==> (t.contains(x) && v.slot_of.contains_key(x)),
{
    let known = known_of(v, t);
    let m = marked_all(v, known, k);
    lemma_marked_all_wf(v, known, k);
    let d = stale(m, k, known.to_set());
    let w = released(m, d);
    reveal(Seq::filter);
    assert forall|x: Id| known.contains(x) <==> (t.contains(x) && v.slot_of.contains_key(x)) by {
        let p = |id: Id| v.slot_of.contains_key(id);
        if t.contains(x) && v.slot_of.contains_key(x) {
            let q = choose|q: int| 0 <= q < t.len() && t[q] == x;
            t.lemma_filter_contains(p, q);
        }
        if known.contains(x) {
            let q = choose|q: int| 0 <= q < known.len() && known[q] == x;
            t.lemma_filter_pred(p, q);
            t.lemma_filter_contains_rev(p, x);
        }
    }
    if inflight_consistent(v) {
        lemma_marked_all_consistent(v, known, k);
        lemma_marked_all_owns(v, known, k);
        assert forall|x: Id, j: u64| #[trigger] w.inflight_sets[j].contains(x) <==> (w.inflight.contains_key(x) && w.inflight[x] == j) by {
            assert(m.inflight_sets[j].contains(x) <==> (m.inflight.contains_key(x) && m.inflight[x] == j));
            assert(m.inflight_sets[k].contains(x) <==> (m.inflight.contains_key(x) && m.inflight[x] == k));
        }
        assert forall|x: Id| #[trigger] w.inflight_sets[k].contains(x) <==> (t.contains(x) && v.slot_of.contains_key(x)) by {
            assert(m.inflight_sets[k].contains(x) <==> (m.inflight.contains_key(x) && m.inflight[x] == k));
            assert(known.to_set().contains(x) <==> known.contains(x));
        }
    }
}

/// No identifier pops before itself, and two never pop each before the other.
proof fn lemma_pops_before_strict(v: MempoolView, a: Id, b: Id)
    ensures
        !pops_before(v, a, a),
        !(pops_before(v, a, b) && pops_before(v, b, a)),
        a != b ==> pops_before(v, a, b) || pops_before(v, b, a),
{
    crate::transaction_set::lemma_id_lt_total(a, b);
}

/// A sequence in strict pop order has no duplicates.
proof fn lemma_pop_order_distinct(v: MempoolView, r: Seq<Id>)
    requires
        forall|i: int, j: int| 0 <= i < j < r.len() ==> pops_before(v, #[trigger] r[i], #[trigger] r[j]),
    ensures
        r.no_duplicates(),
{
    assert forall|i: int, j: int| 0 <= i < r.len() && 0 <= j < r.len() && i != j implies r[i] != r[j] by {
        lemma_pops_before_strict(v, r[i], r[j]);
        if i < j {
            assert(pops_before(v, r[i], r[j]));
        } else {
            assert(pops_before(v, r[j], r[i]));
        }
    }
}

/// Two sequences in strict pop order with the same identifiers are equal.
proof fn lemma_pop_order_unique(v: MempoolView, a: Seq<Id>, b: Seq<Id>)
    requires
        forall|i: int, j: int| 0 <= i < j < a.len() ==> pops_before(v, #[trigger] a[i], #[trigger] a[j]),
        forall|i: int, j: int| 0 <= i < j < b.len() ==> pops_before(v, #[trigger] b[i], #[trigger] b[j]),
        forall|x: Id| a.contains(x) <==> b.contains(x),
    ensures
        a == b,
    decreases a.len(),
{
    if a.len() == 0 {
        if b.len() > 0 {
            assert(b.contains(b[0]));
        }
        assert(a =~= b);
    } else {
        assert(a.contains(a[0]));
        assert(b.len() > 0);
        assert(b.contains(b[0]));
        let ka = choose|k: int| 0 <= k < a.len() && a[k] == b[0];
        let kb = choose|k: int| 0 <= k < b.len() && b[k] == a[0];
        lemma_pops_before_strict(v, a[0], b[0]);
        if ka > 0 {
            assert(pops_before(v, a[0], a[ka]));
        }
        if kb > 0 {
            assert(pops_before(v, b[0], b[kb]));
        }
        assert(a[0] == b[0]);
        lemma_pop_order_distinct(v, a);
        lemma_pop_order_distinct(v, b);
        let a1 = a.drop_first();
        let b1 = b.drop_first();
        assert forall|x: Id| a1.contains(x) <==> b1.contains(x) by {
            if a1.contains(x) {
                let i = choose|i: int| 0 <= i < a1.len() && a1[i] == x;
                assert(a.contains(x));
                let j = choose|j: int| 0 <= j < b.len() && b[j] == x;
                assert(a[i + 1] == x);
                assert(j != 0);
                assert(b1[j - 1] == x);
            }
            if b1.contains(x) {
                let i = choose|i: int| 0 <= i < b1.len() && b1[i] == x;
                assert(b.contains(x));
                let j = choose|j: int| 0 <= j < a.len() && a[j] == x;
                assert(b[i + 1] == x);
                assert(j != 0);
                assert(a1[j - 1] == x);
            }
        }
        assert forall|i: int, j: int| 0 <= i < j < a1.len() implies pops_before(v, #[trigger] a1[i], #[trigger] a1[j]) by {
            assert(pops_before(v, a[i + 1], a[j + 1]));
        }
        assert forall|i: int, j: int| 0 <= i < j < b1.len() implies pops_before(v, #[trigger] b1[i], #[trigger] b1[j]) by {
            assert(pops_before(v, b[i + 1], b[j + 1]));
        }
        lemma_pop_order_unique(v, a1, b1);
        assert(a.len() == b.len());
        assert forall|i: int| 0 <= i < a.len() implies a[i] == b[i] by {
            if i > 0 {
                assert(a[i] == a1[i - 1]);
                assert(b[i] == b1[i - 1]);
            }
        }
        assert(a =~= b);
    }
}

/// Two pops under the same rules take the same identifiers: one that missed an
/// identifier of the other would have taken only identifiers that pop before it,
/// as many as allowed, all of them taken by the other too.
proof fn lemma_popped_contains(v: MempoolView, now_ms: u64, max: usize, a: Seq<Id>, b: Seq<Id>, x: Id)
    requires
        popped(v, now_ms, max, a),
        popped(v, now_ms, max, b),
        max > 0,
        now_ms / v.slot_width > 1,
        a.contains(x),
    ensures
        b.contains(x),
{
    if !b.contains(x) {
        let upper = now_ms / v.slot_width - 1;
        let i = choose|i: int| 0 <= i < a.len() && a[i] == x;
        assert(eligible(v, upper, a[i]));
        assert(b.len() == max);
        assert forall|y: Id| b.contains(y) implies a.contains(y) by {
            let j = choose|j: int| 0 <= j < b.len() && b[j] == y;
            assert(eligible(v, upper, b[j]));
            assert(pops_before(v, b[j], x));
            if !a.contains(y) {
                assert(pops_before(v, a[i], y));
                lemma_pops_before_strict(v, x, y);
            }
        }
        lemma_pop_order_distinct(v, a);
        lemma_pop_order_distinct(v, b);
        a.unique_seq_to_set();
        b.unique_seq_to_set();
        let sb = b.to_set().insert(x);
        assert(sb.subset_of(a.to_set()));
        vstd::set_lib::lemma_len_subset(sb, a.to_set());
    }
}

/// What popping selects is determined by the mempool, the time and the limit: two
/// selections that both meet the pop rules are the same sequence.
pub proof fn lemma_popped_unique(v: MempoolView, now_ms: u64, max: usize, a: Seq<Id>, b: Seq<Id>)
    requires
        popped(v, now_ms, max, a),
        popped(v, now_ms, max, b),
    ensures
        a == b,
{
    if max == 0 || now_ms / v.slot_width <= 1 {
        assert(a.len() == 0 && b.len() == 0);
        assert(a =~= b);
    } else {
        assert forall|x: Id| a.contains(x) <==> b.contains(x) by {
            if a.contains(x) {
                lemma_popped_contains(v, now_ms, max, a, b, x);
            }
            if b.contains(x) {
                lemma_popped_contains(v, now_ms, max, b, a, x);
            }
        }
        lemma_pop_order_unique(v, a, b);
    }
}

/// The identifiers that popping at `now_ms` may take: those eligible below the
/// slot before the current one, none when the current slot is below two.
pub open spec fn ready(v: MempoolView, now_ms: u64) -> Set<Id> {
    let current = now_ms / v.slot_width;
    if current <= 1 {
        Set::empty()
    } else {
        Set::new(|id: Id| eligible(v, current - 1, id))
    }
}

/// The pop rule's count: a pop takes distinct ready identifiers, as many as
/// there are ready up to the limit; marking them in flight at `k` leaves each of
/// them owned by `k` and every other identifier's ownership as it was.
pub proof fn lemma_pop_count(v: MempoolView, now_ms: u64, max: usize, r: Seq<Id>, k: u64)
    requires
        mempool_view_wf(v),
        popped(v, now_ms, max, r),
    ensures
        ready(v, now_ms).finite(),
        r.no_duplicates(),
        r.to_set().subset_of(ready(v, now_ms)),
        r.len() == if max < ready(v, now_ms).len() { max as nat } else { ready(v, now_ms).len() },
        forall|x: Id| #[trigger] r.contains(x) ==> marked_all(v, r, k).inflight.contains_key(x) && marked_all(v, r, k).inflight[x] == k,
        forall|x: Id| !r.contains(x) ==> marked_all(v, r, k).inflight.contains_key(x) == v.inflight.contains_key(x)
            && (v.inflight.contains_key(x) ==> marked_all(v, r, k).inflight[x] == v.inflight[x]),
{
    lemma_marked_all_owns(v, r, k);
    let e = ready(v, now_ms);
    let current = now_ms / v.slot_width;
    assert(e.subset_of(v.slot_of.dom()));
    vstd::set_lib::lemma_len_subset(e, v.slot_of.dom());
    if max == 0 || current <= 1 {
        assert(r.len() == 0);
        assert(r.to_set() =~= Set::<Id>::empty());
        assert(r.no_duplicates());
        if current <= 1 {
            assert(e =~= Set::<Id>::empty());
        }
    } else {
        let upper = current - 1;
        lemma_pop_order_distinct(v, r);
        r.unique_seq_to_set();
        assert forall|x: Id| r.to_set().contains(x) implies e.contains(x) by {
            let i = choose|i: int| 0 <= i < r.len() && r[i] == x;
            assert(eligible(v, upper, r[i]));
        }
        if r.len() < max {
            assert forall|x: Id| e.contains(x) implies r.to_set().contains(x) by {
                assert(eligible(v, upper, x));
            }
            assert(r.to_set() =~= e);
        } else {
            vstd::set_lib::lemma_len_subset(r.to_set(), e);
        }
    }
}

} // verus!
