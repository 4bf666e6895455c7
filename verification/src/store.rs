//! The store of verified transactions, by ID, from which blocks are materialized.
use crate::block::{block_of, message_views, view_ids, Block};
use crate::order::{lemma_sorted_unique, strictly_sorted, SpecOrder};
use crate::id::Id;
use crate::message::{MessageView, Transaction, TransactionView, VerifiedMessage};
use crate::proposal::BlockHeader;
use crate::transaction_set::ids_sorted;
use vstd::prelude::*;

verus! {

/// Why a block could not be materialized.
#[derive(Debug, PartialEq, Eq, Clone, Copy, Structural)]
pub enum TransactionStoreError {
    /// No transaction is stored for this ID.
    MissingTransaction(Id),
}

/// Stores verified transactions by ID for block materialization.
#[derive(Debug)]
pub struct TransactionStore {
    entries: Vec<VerifiedMessage<Transaction>>,
}

/// Whether some entry of `e` has the ID `id`.
pub open spec fn holds_id(e: Seq<MessageView<TransactionView>>, id: Id) -> bool {
    exists|i: int| 0 <= i < e.len() && #[trigger] e[i].id == id
}

/// The messages of `e` by ID.
pub open spec fn by_id(e: Seq<MessageView<TransactionView>>) -> Map<Id, MessageView<TransactionView>> {
    Map::new(|id: Id| holds_id(e, id), |id: Id| e[choose|i: int| 0 <= i < e.len() && #[trigger] e[i].id == id])
}

/// No two entries of `e` have the same ID.
pub open spec fn distinct_ids(e: Seq<MessageView<TransactionView>>) -> bool {
    forall|i: int, j: int| 0 <= i < j < e.len() ==> #[trigger] e[i].id != #[trigger] e[j].id
}

/// The messages stored for each ID of `ids`, in order.
pub open spec fn stored(store: Map<Id, MessageView<TransactionView>>, ids: Seq<Id>) -> Seq<MessageView<TransactionView>> {
    ids.map_values(|id: Id| store[id])
}

/// The first position of `ids` whose ID `store` lacks; `ids.len()` where there is none.
pub open spec fn first_missing(store: Map<Id, MessageView<TransactionView>>, ids: Seq<Id>) -> int
    decreases ids.len(),
{
    if ids.len() == 0 {
        0
    } else if !store.contains_key(ids[0]) {
        0
    } else {
        1 + first_missing(store, ids.drop_first())
    }
}

proof fn lemma_first_missing(store: Map<Id, MessageView<TransactionView>>, ids: Seq<Id>)
    ensures
        0 <= first_missing(store, ids) <= ids.len(),
        forall|k: int| 0 <= k < first_missing(store, ids) ==> store.contains_key(#[trigger] ids[k]),
        first_missing(store, ids) < ids.len() ==> !store.contains_key(ids[first_missing(store, ids)]),
    decreases ids.len(),
{
    if ids.len() > 0 && store.contains_key(ids[0]) {
        lemma_first_missing(store, ids.drop_first());
        assert forall|k: int| 0 <= k < first_missing(store, ids) implies store.contains_key(#[trigger] ids[k]) by {
            if k > 0 {
                assert(ids[k] == ids.drop_first()[k - 1]);
            }
        }
    }
}

proof fn lemma_by_id_at(e: Seq<MessageView<TransactionView>>, i: int)
    requires
        distinct_ids(e),
        0 <= i < e.len(),
    ensures
        by_id(e).contains_key(e[i].id),
        by_id(e)[e[i].id] == e[i],
{
    let id = e[i].id;
    assert(holds_id(e, id));
    let j = choose|j: int| 0 <= j < e.len() && #[trigger] e[j].id == id;
    assert(i == j);
}

/// A block of messages given in strictly ascending order of ID keeps them all, in
/// that order.
proof fn lemma_block_of_sorted(input: Seq<MessageView<TransactionView>>, out: Seq<MessageView<TransactionView>>)
    requires
        ids_sorted(view_ids(input)),
        block_of(input, out),
    ensures
        out == input,
{
    assert forall|i: int, j: int| 0 <= i < j < input.len() implies (#[trigger] input[i]).precedes(#[trigger] input[j]) by {
        assert(view_ids(input)[i] == input[i].id);
        assert(view_ids(input)[j] == input[j].id);
    }
    assert(strictly_sorted(input));
    assert forall|m: MessageView<TransactionView>| out.contains(m) <==> input.contains(m) by {}
    lemma_sorted_unique(out, input);
}

impl View for TransactionStore {
    type V = Map<Id, MessageView<TransactionView>>;

    closed spec fn view(&self) -> Map<Id, MessageView<TransactionView>> {
        by_id(message_views(self.entries@))
    }
}

impl TransactionStore {
    #[verifier::type_invariant]
    closed spec fn inv(self) -> bool {
        distinct_ids(message_views(self.entries@))
    }

    /// An empty store.
    pub fn new() -> (r: Self)
        ensures
            r@ == Map::<Id, MessageView<TransactionView>>::empty(),
    {
        let r = TransactionStore { entries: Vec::new() };
        assert(r@ =~= Map::<Id, MessageView<TransactionView>>::empty());
        r
    }

    fn find(&self, id: &Id) -> (r: Option<usize>)
        ensures
            match r {
                Some(i) => i < self.entries@.len() && self.entries@[i as int]@.id == *id,
                None => !holds_id(message_views(self.entries@), *id),
            },
    {
        let mut i: usize = 0;
        while i < self.entries.len()
            invariant
                i <= self.entries@.len(),
                forall|k: int| 0 <= k < i ==> (#[trigger] self.entries@[k])@.id != *id,
            decreases self.entries@.len() - i,
        {
            if *self.entries[i].id() == *id {
                return Some(i);
            }
            i = i + 1;
        }
        proof {
            let e = message_views(self.entries@);
            if holds_id(e, *id) {
                let k = choose|k: int| 0 <= k < e.len() && #[trigger] e[k].id == *id;
                assert(self.entries@[k]@.id == *id);
            }
        }
        None
    }

    /// Stores `message` under its ID, in place of any message stored there.
    pub fn insert(&mut self, message: VerifiedMessage<Transaction>)
        ensures
            final(self)@ == old(self)@.insert(message@.id, message@),
    {
        proof {
            use_type_invariant(&*self);
        }
        let ghost before = message_views(self.entries@);
        let ghost m = message@;
        let found = self.find(message.id());
        let mut entries: Vec<VerifiedMessage<Transaction>> = Vec::new();
        std::mem::swap(&mut entries, &mut self.entries);
        match found {
            Some(i) => {
                entries.set(i, message);
            },
            None => {
                entries.push(message);
            },
        }
        proof {
            let after = message_views(entries@);
            match found {
                Some(i) => {
                    assert(after =~= before.update(i as int, m));
                },
                None => {
                    assert(after =~= before.push(m));
                },
            }
            assert(distinct_ids(after)) by {
                assert forall|a: int, b: int| 0 <= a < b < after.len() implies #[trigger] after[a].id != #[trigger] after[b].id by {
                    match found {
                        Some(i) => {
                            assert(before[i as int].id == m.id);
                        },
                        None => {
                            if b == before.len() {
                                assert(before[a].id != m.id) by {
                                    if before[a].id == m.id {
                                        assert(holds_id(before, m.id));
                                    }
                                }
                            }
                        },
                    }
                }
            }
            assert forall|id: Id| #[trigger] by_id(after).contains_key(id) == before_insert(before, m).contains_key(id) by {
                lemma_holds_after(before, after, m, found);
            }
            assert forall|id: Id| by_id(after).contains_key(id) implies by_id(after)[id] == #[trigger] before_insert(before, m)[id] by {
                lemma_holds_after(before, after, m, found);
                let j = choose|j: int| 0 <= j < after.len() && #[trigger] after[j].id == id;
                lemma_by_id_at(after, j);
                if id != m.id {
                    match found {
                        Some(i) => {
                            assert(j != i);
                            assert(after[j] == before[j]);
                        },
                        None => {
                            assert(j < before.len());
                            assert(after[j] == before[j]);
                        },
                    }
                    lemma_by_id_at(before, j);
                }
            }
            assert(by_id(after) =~= before_insert(before, m));
        }
        self.entries = entries;
    }

    /// The message stored under `id`, if any.
    pub fn get(&self, id: &Id) -> (r: Option<&VerifiedMessage<Transaction>>)
        ensures
            match r {
                Some(m) => self@.contains_key(*id) && m@ == self@[*id],
                None => !self@.contains_key(*id),
            },
    {
        proof {
            use_type_invariant(self);
        }
        match self.find(id) {
            Some(i) => {
                proof {
                    lemma_by_id_at(message_views(self.entries@), i as int);
                }
                Some(&self.entries[i])
            },
            None => None,
        }
    }

    /// Removes and returns the message stored under `id`, if any.
    pub fn remove(&mut self, id: &Id) -> (r: Option<VerifiedMessage<Transaction>>)
        ensures
            final(self)@ == old(self)@.remove(*id),
            match r {
                Some(m) => old(self)@.contains_key(*id) && m@ == old(self)@[*id],
                None => !old(self)@.contains_key(*id),
            },
    {
        proof {
            use_type_invariant(&*self);
        }
        let ghost before = message_views(self.entries@);
        match self.find(id) {
            Some(i) => {
                proof {
                    lemma_by_id_at(before, i as int);
                }
                let mut entries: Vec<VerifiedMessage<Transaction>> = Vec::new();
                std::mem::swap(&mut entries, &mut self.entries);
                let m = entries.remove(i);
                proof {
                    let after = message_views(entries@);
                    assert(after =~= before.remove(i as int));
                    assert(distinct_ids(after)) by {
                        assert forall|a: int, b: int| 0 <= a < b < after.len() implies #[trigger] after[a].id != #[trigger] after[b].id by {
                            let a0 = if a < i { a } else { a + 1 };
                            let b0 = if b < i { b } else { b + 1 };
                            assert(after[a] == before[a0]);
                            assert(after[b] == before[b0]);
                        }
                    }
                    assert forall|x: Id| #[trigger] by_id(after).contains_key(x) == by_id(before).remove(*id).contains_key(x) by {
                        if holds_id(after, x) {
                            let j = choose|j: int| 0 <= j < after.len() && #[trigger] after[j].id == x;
                            let j0 = if j < i { j } else { j + 1 };
                            assert(after[j] == before[j0]);
                            assert(before[j0].id == x);
                            assert(holds_id(before, x));
                            assert(j0 != i);
                        }
                        if holds_id(before, x) && x != *id {
                            let j = choose|j: int| 0 <= j < before.len() && #[trigger] before[j].id == x;
                            assert(j != i);
                            let j1 = if j < i { j } else { j - 1 };
                            assert(after[j1] == before[j]);
                            assert(after[j1].id == x);
                        }
                    }
                    assert forall|x: Id| by_id(after).contains_key(x) implies by_id(after)[x] == #[trigger] by_id(before).remove(*id)[x] by {
                        let j = choose|j: int| 0 <= j < after.len() && #[trigger] after[j].id == x;
                        let j0 = if j < i { j } else { j + 1 };
                        assert(after[j] == before[j0]);
                        lemma_by_id_at(after, j);
                        lemma_by_id_at(before, j0);
                    }
                    assert(by_id(after) =~= by_id(before).remove(*id));
                }
                self.entries = entries;
                Some(m)
            },
            None => {
                proof {
                    assert(by_id(before) =~= by_id(before).remove(*id));
                }
                None
            },
        }
    }

    /// Builds a block by fetching, in ascending order of ID, every transaction that
    /// a block header names; fails on the first ID that is not stored.
    pub fn build_block_from_header_proposal(&self, block_header: &BlockHeader) -> (r: Result<Block, TransactionStoreError>)
        ensures
            ({
                let ids = block_header@;
                let k = first_missing(self@, ids);
                if k < ids.len() {
                    r == Err::<Block, TransactionStoreError>(TransactionStoreError::MissingTransaction(ids[k]))
                } else {
                    r matches Ok(b) && b@ == stored(self@, ids)
                }
            }),
    {
        let ids = block_header.transactions().iter_ids();
        let ghost hv = block_header@;
        proof {
            lemma_first_missing(self@, hv);
        }
        let mut transactions: Vec<VerifiedMessage<Transaction>> = Vec::new();
        let mut i: usize = 0;
        while i < ids.len()
            invariant
                ids@ == hv,
                hv == block_header@,
                ids_sorted(hv),
                i <= hv.len(),
                0 <= first_missing(self@, hv) <= hv.len(),
                forall|k: int| 0 <= k < first_missing(self@, hv) ==> self@.contains_key(#[trigger] hv[k]),
                first_missing(self@, hv) < hv.len() ==> !self@.contains_key(hv[first_missing(self@, hv)]),
                i <= first_missing(self@, hv),
                message_views(transactions@) == stored(self@, hv.subrange(0, i as int)),
            decreases hv.len() - i,
        {
            let id = &ids[i];
            match self.get(id) {
                Some(m) => {
                    let c = m.clone();
                    let ghost prev = transactions@;
                    transactions.push(c);
                    proof {
                        assert(message_views(transactions@) =~= message_views(prev).push(c@));
                        assert(hv.subrange(0, i + 1) =~= hv.subrange(0, i as int).push(hv[i as int]));
                        assert(stored(self@, hv.subrange(0, i + 1)) =~= stored(self@, hv.subrange(0, i as int)).push(self@[hv[i as int]]));
                        if first_missing(self@, hv) == i {
                            assert(!self@.contains_key(hv[i as int]));
                        }
                        assert(message_views(transactions@) =~= stored(self@, hv.subrange(0, i + 1)));
                    }
                },
                None => {
                    proof {
                        if first_missing(self@, hv) != i {
                            assert(self@.contains_key(hv[i as int]));
                        }
                        assert(*id == hv[i as int]);
                    }
                    return Err(TransactionStoreError::MissingTransaction(*id));
                },
            }
            i = i + 1;
        }
        proof {
            use_type_invariant(self);
            assert(hv.subrange(0, i as int) =~= hv);
            let input = message_views(transactions@);
            assert forall|a: int, b: int| 0 <= a < b < input.len() implies crate::id::id_lt(view_ids(input)[a], view_ids(input)[b]) by {
                lemma_stored_id(message_views(self.entries@), hv, a);
                lemma_stored_id(message_views(self.entries@), hv, b);
            }
        }
        let block = Block::new(transactions);
        proof {
            lemma_block_of_sorted(message_views(transactions@), block@);
        }
        Ok(block)
    }
}

/// The stored message for an ID of `ids` has that ID.
proof fn lemma_stored_id(e: Seq<MessageView<TransactionView>>, ids: Seq<Id>, a: int)
    requires
        distinct_ids(e),
        0 <= a < ids.len(),
        by_id(e).contains_key(ids[a]),
    ensures
        stored(by_id(e), ids)[a].id == ids[a],
{
    let j = choose|j: int| 0 <= j < e.len() && #[trigger] e[j].id == ids[a];
    lemma_by_id_at(e, j);
}

/// The store `before` with `m` stored under its ID.
spec fn before_insert(before: Seq<MessageView<TransactionView>>, m: MessageView<TransactionView>) -> Map<Id, MessageView<TransactionView>> {
    by_id(before).insert(m.id, m)
}

proof fn lemma_holds_after(
    before: Seq<MessageView<TransactionView>>,
    after: Seq<MessageView<TransactionView>>,
    m: MessageView<TransactionView>,
    found: Option<usize>,
)
    requires
        match found {
            Some(i) => i < before.len() && before[i as int].id == m.id && after == before.update(i as int, m),
            None => !holds_id(before, m.id) && after == before.push(m),
        },
    ensures
        forall|id: Id| holds_id(after, id) <==> (holds_id(before, id) || id == m.id),
{
    assert forall|id: Id| holds_id(after, id) <==> (holds_id(before, id) || id == m.id) by {
        if holds_id(after, id) {
            let j = choose|j: int| 0 <= j < after.len() && #[trigger] after[j].id == id;
            match found {
                Some(i) => {
                    if j != i {
                        assert(before[j].id == id);
                    }
                },
                None => {
                    if j < before.len() {
                        assert(before[j].id == id);
                    }
                },
            }
        }
        if holds_id(before, id) {
            let j = choose|j: int| 0 <= j < before.len() && #[trigger] before[j].id == id;
            match found {
                Some(i) => {
                    if j != i {
                        assert(after[j].id == id);
                    } else {
                        assert(after[j].id == m.id);
                    }
                },
                None => {
                    assert(after[j].id == id);
                },
            }
        }
        if id == m.id {
            match found {
                Some(i) => {
                    assert(after[i as int].id == id);
                },
                None => {
                    assert(after[before.len() as int].id == id);
                },
            }
        }
    }
}

/// What building a block from a header decides, for a header in ascending order
/// of ID: it succeeds exactly when every ID of the header is stored, and then
/// holds the stored message of each of them and nothing else; otherwise the ID it
/// reports missing is the least header ID that is not stored.
pub proof fn lemma_build_block_law(store: Map<Id, MessageView<TransactionView>>, ids: Seq<Id>)
    requires
        ids_sorted(ids),
    ensures
        first_missing(store, ids) == ids.len() <==> forall|x: Id| #[trigger] ids.contains(x) ==> store.contains_key(x),
        first_missing(store, ids) < ids.len() ==> {
            let m = ids[first_missing(store, ids)];
            &&& ids.contains(m)
            &&& !store.contains_key(m)
            &&& forall|x: Id| #[trigger] ids.contains(x) && !store.contains_key(x) ==> x == m || crate::id::id_lt(m, x)
        },
        forall|v: MessageView<TransactionView>|
            #[trigger] stored(store, ids).contains(v) <==> exists|x: Id| #[trigger] ids.contains(x) && store[x] == v,
{
    lemma_first_missing(store, ids);
    let k = first_missing(store, ids);
    if k == ids.len() {
        assert forall|x: Id| #[trigger] ids.contains(x) implies store.contains_key(x) by {
            let j = choose|j: int| 0 <= j < ids.len() && ids[j] == x;
            assert(store.contains_key(ids[j]));
        }
    } else {
        assert(ids.contains(ids[k]));
        assert forall|x: Id| #[trigger] ids.contains(x) && !store.contains_key(x) implies x == ids[k] || crate::id::id_lt(ids[k], x) by {
            let j = choose|j: int| 0 <= j < ids.len() && ids[j] == x;
            if j < k {
                assert(store.contains_key(ids[j]));
            }
            if j > k {
                assert(crate::id::id_lt(ids[k], ids[j]));
            }
        }
    }
    assert forall|v: MessageView<TransactionView>|
        #[trigger] stored(store, ids).contains(v) <==> exists|x: Id| #[trigger] ids.contains(x) && store[x] == v by {
        if stored(store, ids).contains(v) {
            let j = choose|j: int| 0 <= j < stored(store, ids).len() && stored(store, ids)[j] == v;
            assert(ids.contains(ids[j]) && store[ids[j]] == v);
        }
        if exists|x: Id| #[trigger] ids.contains(x) && store[x] == v {
            let x = choose|x: Id| #[trigger] ids.contains(x) && store[x] == v;
            let j = choose|j: int| 0 <= j < ids.len() && ids[j] == x;
            assert(stored(store, ids)[j] == v);
        }
    }
}

} // verus!
