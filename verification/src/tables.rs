//! Small association tables used by the mempool: identifiers to numbers, and
//! numbers to identifier sets.
use crate::id::Id;
use crate::transaction_set::{ids_sorted, TransactionSet};
use vstd::prelude::*;

verus! {

/// A table from identifiers to numbers.
pub struct IdTable {
    entries: Vec<(Id, u64)>,
}

impl IdTable {
    /// No identifier appears twice.
    pub closed spec fn wf(&self) -> bool {
        forall|i: int, j: int|
            0 <= i < j < self.entries@.len() ==> #[trigger] self.entries@[i].0 != #[trigger] self.entries@[j].0
    }

    pub closed spec fn has(&self, id: Id) -> bool {
        exists|i: int| 0 <= i < self.entries@.len() && #[trigger] self.entries@[i].0 == id
    }

    /// The table as a map.
    pub closed spec fn map(&self) -> Map<Id, u64> {
        Map::new(
            |id: Id| self.has(id),
            |id: Id|
                self.entries@[choose|i: int|
                    0 <= i < self.entries@.len() && #[trigger] self.entries@[i].0 == id].1,
        )
    }

    proof fn lemma_at(&self, i: int)
        requires
            self.wf(),
            0 <= i < self.entries@.len(),
        ensures
            self.map().contains_key(self.entries@[i].0),
            self.map()[self.entries@[i].0] == self.entries@[i].1,
    {
        let id = self.entries@[i].0;
        assert(self.has(id));
        let j = choose|j: int| 0 <= j < self.entries@.len() && #[trigger] self.entries@[j].0 == id;
        assert(i == j);
    }

    pub fn new() -> (t: Self)
        ensures
            t.wf(),
            t.map() == Map::<Id, u64>::empty(),
    {
        let t = IdTable { entries: Vec::new() };
        assert(t.map() =~= Map::<Id, u64>::empty());
        t
    }

    fn find(&self, id: &Id) -> (r: Option<usize>)
        requires
            self.wf(),
        ensures
            r matches Some(i) ==> i < self.entries@.len() && self.entries@[i as int].0 == *id,
            r is None ==> !self.map().contains_key(*id),
    {
        let mut i: usize = 0;
        while i < self.entries.len()
            invariant
                i <= self.entries@.len(),
                forall|k: int| 0 <= k < i ==> (#[trigger] self.entries@[k]).0 != *id,
            decreases self.entries@.len() - i,
        {
            if self.entries[i].0 == *id {
                return Some(i);
            }
            i = i + 1;
        }
        None
    }

    pub fn get(&self, id: &Id) -> (r: Option<u64>)
        requires
            self.wf(),
        ensures
            r == if self.map().contains_key(*id) {
                Some(self.map()[*id])
            } else {
                None::<u64>
            },
    {
        match self.find(id) {
            Some(i) => {
                proof {
                    self.lemma_at(i as int);
                }
                Some(self.entries[i].1)
            },
            None => None,
        }
    }

    pub fn set(&mut self, id: Id, value: u64)
        requires
            old(self).wf(),
        ensures
            final(self).wf(),
            final(self).map() == old(self).map().insert(id, value),
    {
        match self.find(&id) {
            Some(i) => {
                self.entries.set(i, (id, value));
                proof {
                    assert forall|a: int, b: int| 0 <= a < b < self.entries@.len() implies #[trigger] self.entries@[a].0 != #[trigger] self.entries@[b].0 by {
                        assert(old(self).entries@[a].0 != old(self).entries@[b].0);
                    }
                    assert forall|k: Id| self.has(k) <==> (old(self).has(k) || k == id) by {
                        if self.has(k) {
                            let j = choose|j: int| 0 <= j < self.entries@.len() && #[trigger] self.entries@[j].0 == k;
                            assert(old(self).entries@[j].0 == k);
                        }
                        if old(self).has(k) {
                            let j = choose|j: int| 0 <= j < old(self).entries@.len() && #[trigger] old(self).entries@[j].0 == k;
                            assert(self.entries@[j].0 == k);
                        }
                        if k == id {
                            assert(self.entries@[i as int].0 == k);
                        }
                    }
                    assert forall|k: Id| self.has(k) implies self.map()[k] == old(self).map().insert(id, value)[k] by {
                        let j = choose|j: int| 0 <= j < self.entries@.len() && #[trigger] self.entries@[j].0 == k;
                        self.lemma_at(j);
                        if k != id {
                            old(self).lemma_at(j);
                        }
                    }
                    assert(self.map() =~= old(self).map().insert(id, value));
                }
            },
            None => {
                self.entries.push((id, value));
                proof {
                    let n = old(self).entries@.len() as int;
                    assert forall|a: int, b: int| 0 <= a < b < self.entries@.len() implies #[trigger] self.entries@[a].0 != #[trigger] self.entries@[b].0 by {
                        if b < n {
                            assert(old(self).entries@[a].0 != old(self).entries@[b].0);
                        } else {
                            assert(old(self).has(old(self).entries@[a].0));
                        }
                    }
                    assert forall|k: Id| self.has(k) <==> (old(self).has(k) || k == id) by {
                        if self.has(k) {
                            let j = choose|j: int| 0 <= j < self.entries@.len() && #[trigger] self.entries@[j].0 == k;
                            if j < n {
                                assert(old(self).entries@[j].0 == k);
                            }
                        }
                        if old(self).has(k) {
                            let j = choose|j: int| 0 <= j < old(self).entries@.len() && #[trigger] old(self).entries@[j].0 == k;
                            assert(self.entries@[j].0 == k);
                        }
                        if k == id {
                            assert(self.entries@[n].0 == k);
                        }
                    }
                    assert forall|k: Id| self.has(k) implies self.map()[k] == old(self).map().insert(id, value)[k] by {
                        let j = choose|j: int| 0 <= j < self.entries@.len() && #[trigger] self.entries@[j].0 == k;
                        self.lemma_at(j);
                        if j < n {
                            old(self).lemma_at(j);
                        }
                    }
                    assert(self.map() =~= old(self).map().insert(id, value));
                }
            },
        }
    }

    pub fn remove(&mut self, id: &Id)
        requires
            old(self).wf(),
        ensures
            final(self).wf(),
            final(self).map() == old(self).map().remove(*id),
    {
        match self.find(id) {
            Some(i) => {
                self.entries.remove(i);
                proof {
                    assert forall|a: int, b: int| 0 <= a < b < self.entries@.len() implies #[trigger] self.entries@[a].0 != #[trigger] self.entries@[b].0 by {
                        let oa = if a < i { a } else { a + 1 };
                        let ob = if b < i { b } else { b + 1 };
                        assert(old(self).entries@[oa].0 != old(self).entries@[ob].0);
                    }
                    assert forall|k: Id| self.has(k) <==> (old(self).has(k) && k != *id) by {
                        if self.has(k) {
                            let j = choose|j: int| 0 <= j < self.entries@.len() && #[trigger] self.entries@[j].0 == k;
                            let oj = if j < i { j } else { j + 1 };
                            assert(old(self).entries@[oj].0 == k);
                            assert(old(self).entries@[oj].0 != old(self).entries@[i as int].0);
                        }
                        if old(self).has(k) && k != *id {
                            let j = choose|j: int| 0 <= j < old(self).entries@.len() && #[trigger] old(self).entries@[j].0 == k;
                            if j < i {
                                assert(self.entries@[j].0 == k);
                            } else {
                                assert(self.entries@[j - 1].0 == k);
                            }
                        }
                    }
                    assert forall|k: Id| self.has(k) implies self.map()[k] == old(self).map().remove(*id)[k] by {
                        let j = choose|j: int| 0 <= j < self.entries@.len() && #[trigger] self.entries@[j].0 == k;
                        self.lemma_at(j);
                        let oj = if j < i { j } else { j + 1 };
                        old(self).lemma_at(oj);
                    }
                    assert(self.map() =~= old(self).map().remove(*id));
                }
            },
            None => {
                assert(self.map() =~= old(self).map().remove(*id));
            },
        }
    }
}


/// Entries of a set table: keys strictly ascend, and every set is sorted and non-empty.
pub open spec fn table_wf(e: Seq<(u64, TransactionSet)>) -> bool {
    &&& forall|i: int, j: int| 0 <= i < j < e.len() ==> #[trigger] e[i].0 < #[trigger] e[j].0
    &&& forall|i: int| 0 <= i < e.len() ==> (#[trigger] e[i]).1@.len() > 0 && ids_sorted(e[i].1@)
}

pub open spec fn table_has(e: Seq<(u64, TransactionSet)>, k: u64) -> bool {
    exists|i: int| 0 <= i < e.len() && #[trigger] e[i].0 == k
}

/// The set at key `k` of the entries `e`; empty where there is none.
pub open spec fn table_at(e: Seq<(u64, TransactionSet)>, k: u64) -> Set<Id> {
    if table_has(e, k) {
        e[choose|i: int| 0 <= i < e.len() && #[trigger] e[i].0 == k].1@.to_set()
    } else {
        Set::empty()
    }
}

proof fn lemma_table_at_entry(e: Seq<(u64, TransactionSet)>, i: int)
    requires
        table_wf(e),
        0 <= i < e.len(),
    ensures
        table_at(e, e[i].0) == e[i].1@.to_set(),
{
    let k = e[i].0;
    assert(table_has(e, k));
    let j = choose|j: int| 0 <= j < e.len() && #[trigger] e[j].0 == k;
    if i < j {
        assert(e[i].0 < e[j].0);
    } else if j < i {
        assert(e[j].0 < e[i].0);
    }
}

proof fn lemma_table_update(e: Seq<(u64, TransactionSet)>, i: int, ns: TransactionSet)
    requires
        table_wf(e),
        0 <= i < e.len(),
        ns@.len() > 0,
        ids_sorted(ns@),
    ensures
        table_wf(e.update(i, (e[i].0, ns))),
        forall|q: u64| #[trigger] table_at(e.update(i, (e[i].0, ns)), q) == if q == e[i].0 {
            ns@.to_set()
        } else {
            table_at(e, q)
        },
{
    let a = e.update(i, (e[i].0, ns));
    assert forall|x: int, y: int| 0 <= x < y < a.len() implies #[trigger] a[x].0 < #[trigger] a[y].0 by {
        assert(e[x].0 < e[y].0);
    }
    assert forall|q: u64| #[trigger] table_at(a, q) == if q == e[i].0 { ns@.to_set() } else { table_at(e, q) } by {
        if q == e[i].0 {
            lemma_table_at_entry(a, i);
        } else {
            if table_has(e, q) {
                let j = choose|j: int| 0 <= j < e.len() && #[trigger] e[j].0 == q;
                lemma_table_at_entry(e, j);
                lemma_table_at_entry(a, j);
            } else {
                assert(!table_has(a, q)) by {
                    if table_has(a, q) {
                        let j = choose|j: int| 0 <= j < a.len() && #[trigger] a[j].0 == q;
                        assert(e[j].0 == q);
                    }
                }
            }
        }
    }
}

proof fn lemma_table_insert(e: Seq<(u64, TransactionSet)>, i: int, k: u64, ns: TransactionSet)
    requires
        table_wf(e),
        0 <= i <= e.len(),
        forall|t: int| 0 <= t < i ==> (#[trigger] e[t]).0 < k,
        forall|t: int| i <= t < e.len() ==> (#[trigger] e[t]).0 > k,
        ns@.len() > 0,
        ids_sorted(ns@),
    ensures
        table_wf(e.insert(i, (k, ns))),
        forall|q: u64| #[trigger] table_at(e.insert(i, (k, ns)), q) == if q == k {
            ns@.to_set()
        } else {
            table_at(e, q)
        },
{
    let a = e.insert(i, (k, ns));
    assert forall|x: int, y: int| 0 <= x < y < a.len() implies #[trigger] a[x].0 < #[trigger] a[y].0 by {
        if y < i {
            assert(e[x].0 < e[y].0);
        } else if y == i {
        } else if x < i {
            assert(a[y] == e[y - 1]);
        } else if x == i {
            assert(a[y] == e[y - 1]);
        } else {
            assert(e[x - 1].0 < e[y - 1].0);
        }
    }
    assert forall|t: int| 0 <= t < a.len() implies (#[trigger] a[t]).1@.len() > 0 && ids_sorted(a[t].1@) by {
        if t < i {
        } else if t > i {
            assert(a[t] == e[t - 1]);
        }
    }
    assert forall|q: u64| #[trigger] table_at(a, q) == if q == k { ns@.to_set() } else { table_at(e, q) } by {
        if q == k {
            lemma_table_at_entry(a, i);
        } else {
            if table_has(e, q) {
                let j = choose|j: int| 0 <= j < e.len() && #[trigger] e[j].0 == q;
                lemma_table_at_entry(e, j);
                if j < i {
                    lemma_table_at_entry(a, j);
                } else {
                    assert(a[j + 1] == e[j]);
                    lemma_table_at_entry(a, j + 1);
                }
            } else {
                assert(!table_has(a, q)) by {
                    if table_has(a, q) {
                        let j = choose|j: int| 0 <= j < a.len() && #[trigger] a[j].0 == q;
                        if j < i {
                            assert(e[j].0 == q);
                        } else if j > i {
                            assert(e[j - 1].0 == q);
                        }
                    }
                }
            }
        }
    }
}

proof fn lemma_table_remove(e: Seq<(u64, TransactionSet)>, i: int)
    requires
        table_wf(e),
        0 <= i < e.len(),
    ensures
        table_wf(e.remove(i)),
        forall|q: u64| #[trigger] table_at(e.remove(i), q) == if q == e[i].0 {
            Set::<Id>::empty()
        } else {
            table_at(e, q)
        },
{
    let a = e.remove(i);
    assert forall|x: int, y: int| 0 <= x < y < a.len() implies #[trigger] a[x].0 < #[trigger] a[y].0 by {
        let ox = if x < i { x } else { x + 1 };
        let oy = if y < i { y } else { y + 1 };
        assert(e[ox].0 < e[oy].0);
    }
    assert forall|t: int| 0 <= t < a.len() implies (#[trigger] a[t]).1@.len() > 0 && ids_sorted(a[t].1@) by {
        let ot = if t < i { t } else { t + 1 };
        assert(a[t] == e[ot]);
    }
    assert forall|q: u64| #[trigger] table_at(a, q) == if q == e[i].0 { Set::<Id>::empty() } else { table_at(e, q) } by {
        if q == e[i].0 {
            assert(!table_has(a, q)) by {
                if table_has(a, q) {
                    let j = choose|j: int| 0 <= j < a.len() && #[trigger] a[j].0 == q;
                    let oj = if j < i { j } else { j + 1 };
                    assert(e[oj].0 == q);
                    if oj < i {
                        assert(e[oj].0 < e[i].0);
                    } else {
                        assert(e[i].0 < e[oj].0);
                    }
                }
            }
        } else {
            if table_has(e, q) {
                let j = choose|j: int| 0 <= j < e.len() && #[trigger] e[j].0 == q;
                lemma_table_at_entry(e, j);
                if j < i {
                    lemma_table_at_entry(a, j);
                } else {
                    assert(a[j - 1] == e[j]);
                    lemma_table_at_entry(a, j - 1);
                }
            } else {
                assert(!table_has(a, q)) by {
                    if table_has(a, q) {
                        let j = choose|j: int| 0 <= j < a.len() && #[trigger] a[j].0 == q;
                        let oj = if j < i { j } else { j + 1 };
                        assert(e[oj].0 == q);
                    }
                }
            }
        }
    }
}

/// A table from numbers to non-empty identifier sets, in ascending order of number.
pub struct SetTable {
    entries: Vec<(u64, TransactionSet)>,
}

impl SetTable {
    pub closed spec fn wf(&self) -> bool {
        table_wf(self.entries@)
    }

    /// The number of entries.
    pub closed spec fn count(&self) -> int {
        self.entries@.len() as int
    }

    /// The key of the `i`-th entry.
    pub closed spec fn key(&self, i: int) -> u64 {
        self.entries@[i].0
    }

    /// The identifiers of the `i`-th entry, ascending.
    pub closed spec fn ids(&self, i: int) -> Seq<Id> {
        self.entries@[i].1@
    }

    /// The set at key `k`; empty where there is none.
    pub closed spec fn at(&self, k: u64) -> Set<Id> {
        table_at(self.entries@, k)
    }

    /// What the entries say of the table: keys ascend, each entry's identifiers are
    /// sorted and non-empty and are the set at its key, and a key with no entry has
    /// the empty set.
    pub proof fn lemma_entries(&self)
        requires
            self.wf(),
        ensures
            forall|i: int, j: int| 0 <= i < j < self.count() ==> #[trigger] self.key(i) < #[trigger] self.key(j),
            forall|i: int| 0 <= i < self.count() ==> ids_sorted(#[trigger] self.ids(i)) && self.ids(i).len() > 0,
            forall|i: int| 0 <= i < self.count() ==> self.at(#[trigger] self.key(i)) == self.ids(i).to_set(),
            forall|k: u64|
                (forall|i: int| 0 <= i < self.count() ==> #[trigger] self.key(i) != k) ==> self.at(k)
                    == Set::<Id>::empty(),
    {
        assert forall|i: int| 0 <= i < self.count() implies self.at(#[trigger] self.key(i)) == self.ids(i).to_set() by {
            lemma_table_at_entry(self.entries@, i);
        }
        assert forall|k: u64|
            (forall|i: int| 0 <= i < self.count() ==> #[trigger] self.key(i) != k) implies self.at(k)
                == Set::<Id>::empty() by {
            if table_has(self.entries@, k) {
                let j = choose|j: int| 0 <= j < self.entries@.len() && #[trigger] self.entries@[j].0 == k;
                assert(self.key(j) == k);
            }
        }
    }

    pub fn new() -> (t: Self)
        ensures
            t.wf(),
            forall|k: u64| #[trigger] t.at(k) == Set::<Id>::empty(),
    {
        SetTable { entries: Vec::new() }
    }

    pub fn len(&self) -> (n: usize)
        ensures
            n == self.count(),
    {
        self.entries.len()
    }

    pub fn key_of(&self, i: usize) -> (k: u64)
        requires
            i < self.count(),
        ensures
            k == self.key(i as int),
    {
        self.entries[i].0
    }

    pub fn ids_of(&self, i: usize) -> (r: &TransactionSet)
        requires
            i < self.count(),
        ensures
            r@ == self.ids(i as int),
    {
        &self.entries[i].1
    }

    /// The position where key `k` is or would be inserted.
    fn position(&self, k: u64) -> (r: usize)
        requires
            self.wf(),
        ensures
            r <= self.entries@.len(),
            forall|i: int| 0 <= i < r ==> (#[trigger] self.entries@[i]).0 < k,
            forall|i: int| r <= i < self.entries@.len() ==> (#[trigger] self.entries@[i]).0 >= k,
            r < self.entries@.len() && self.entries@[r as int].0 != k ==> !table_has(self.entries@, k),
            r == self.entries@.len() ==> !table_has(self.entries@, k),
    {
        let mut i: usize = 0;
        while i < self.entries.len() && self.entries[i].0 < k
            invariant
                i <= self.entries@.len(),
                forall|t: int| 0 <= t < i ==> (#[trigger] self.entries@[t]).0 < k,
            decreases self.entries@.len() - i,
        {
            i = i + 1;
        }
        proof {
            assert forall|t: int| i <= t < self.entries@.len() implies (#[trigger] self.entries@[t]).0 >= k by {
                if t > i {
                    assert(self.entries@[i as int].0 < self.entries@[t].0);
                }
            }
            if i < self.entries@.len() && self.entries@[i as int].0 != k {
                if table_has(self.entries@, k) {
                    let j = choose|j: int| 0 <= j < self.entries@.len() && #[trigger] self.entries@[j].0 == k;
                    if j > i {
                        assert(self.entries@[i as int].0 < self.entries@[j].0);
                    }
                }
            }
        }
        i
    }

    /// Whether the set at `k` holds `id`.
    pub fn contains(&self, k: u64, id: &Id) -> (r: bool)
        requires
            self.wf(),
        ensures
            r == self.at(k).contains(*id),
    {
        let i = self.position(k);
        if i < self.entries.len() && self.entries[i].0 == k {
            proof {
                lemma_table_at_entry(self.entries@, i as int);
            }
            self.entries[i].1.contains(id)
        } else {
            false
        }
    }

    /// The set at `k`, as a transaction set (empty where there is none).
    pub fn members(&self, k: u64) -> (r: TransactionSet)
        requires
            self.wf(),
        ensures
            r@.to_set() == self.at(k),
    {
        let i = self.position(k);
        if i < self.entries.len() && self.entries[i].0 == k {
            proof {
                lemma_table_at_entry(self.entries@, i as int);
            }
            self.entries[i].1.clone()
        } else {
            let r = TransactionSet::new();
            proof {
                assert(r@.to_set() =~= Set::<Id>::empty());
            }
            r
        }
    }

    /// Adds `id` to the set at `k`.
    pub fn add(&mut self, k: u64, id: Id)
        requires
            old(self).wf(),
        ensures
            final(self).wf(),
            forall|q: u64| #[trigger] final(self).at(q) == if q == k {
                old(self).at(q).insert(id)
            } else {
                old(self).at(q)
            },
    {
        let i = self.position(k);
        let ghost before = self.entries@;
        if i < self.entries.len() && self.entries[i].0 == k {
            proof {
                lemma_table_at_entry(before, i as int);
            }
            let (key, mut set) = self.entries.remove(i);
            let ghost old_set = set@;
            set.add_id(id);
            proof {
                assert(set@.to_set() =~= old_set.to_set().insert(id));
                assert(set@.len() > 0) by {
                    assert(set@.contains(id));
                }
            }
            self.entries.insert(i, (key, set));
            proof {
                assert(self.entries@ =~= before.update(i as int, (key, set)));
                lemma_table_update(before, i as int, set);
            }
        } else {
            let mut set = TransactionSet::new();
            set.add_id(id);
            proof {
                assert(set@.to_set() =~= Set::<Id>::empty().insert(id));
                assert(set@.len() > 0) by {
                    assert(set@.contains(id));
                }
            }
            self.entries.insert(i, (k, set));
            proof {
                lemma_table_insert(before, i as int, k, set);
            }
        }
    }

    /// Removes `id` from the set at `k`.
    pub fn remove(&mut self, k: u64, id: &Id)
        requires
            old(self).wf(),
        ensures
            final(self).wf(),
            forall|q: u64| #[trigger] final(self).at(q) == if q == k {
                old(self).at(q).remove(*id)
            } else {
                old(self).at(q)
            },
    {
        let i = self.position(k);
        let ghost before = self.entries@;
        if i < self.entries.len() && self.entries[i].0 == k {
            proof {
                lemma_table_at_entry(before, i as int);
            }
            let (key, mut set) = self.entries.remove(i);
            let ghost old_set = set@;
            set.remove_id(id);
            proof {
                assert(set@.to_set() =~= old_set.to_set().remove(*id));
            }
            if set.is_empty() {
                proof {
                    lemma_table_remove(before, i as int);
                    assert(set@.to_set() =~= Set::<Id>::empty());
                }
            } else {
                self.entries.insert(i, (key, set));
                proof {
                    assert(self.entries@ =~= before.update(i as int, (key, set)));
                    lemma_table_update(before, i as int, set);
                }
            }
        } else {
            proof {
                assert(old(self).at(k) =~= old(self).at(k).remove(*id));
            }
        }
    }
}

} // verus!
