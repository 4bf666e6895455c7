//! Sets of transaction identifiers, kept in ascending order.
use crate::id::{id_less, id_lt, Id};
use crate::order::{ids_equal, ids_precede, lex_precedes};
use vstd::prelude::*;

verus! {

/// `s` is strictly ascending: sorted, with no identifier twice.
pub open spec fn ids_sorted(s: Seq<Id>) -> bool {
    forall|i: int, j: int| 0 <= i < j < s.len() ==> id_lt(s[i], s[j])
}

/// The order of identifiers is transitive.
pub proof fn lemma_id_lt_transitive(a: Id, b: Id, c: Id)
    requires
        id_lt(a, b),
        id_lt(b, c),
    ensures
        id_lt(a, c),
{
}

/// Two distinct identifiers are ordered one way or the other, never both.
pub proof fn lemma_id_lt_total(a: Id, b: Id)
    ensures
        a != b ==> (id_lt(a, b) || id_lt(b, a)),
        !(id_lt(a, b) && id_lt(b, a)),
        !id_lt(a, a),
{
}

/// A strictly ascending sequence is determined by its elements: two of them that
/// hold the same identifiers are equal.
pub proof fn lemma_sorted_ids_unique(a: Seq<Id>, b: Seq<Id>)
    requires
        ids_sorted(a),
        ids_sorted(b),
        forall|x: Id| a.contains(x) <==> b.contains(x),
    ensures
        a == b,
    decreases a.len(),
{
    if a.len() == 0 {
        if b.len() > 0 {
            assert(b.contains(b[0]));
        }
        assert(a =~= b);
    } else {
        assert(a.contains(a[0]));
        assert(b.len() > 0);
        assert(b.contains(b[0]));
        let ka = choose|k: int| 0 <= k < a.len() && a[k] == b[0];
        let kb = choose|k: int| 0 <= k < b.len() && b[k] == a[0];
        if ka > 0 {
            assert(id_lt(a[0], a[ka]));
        }
        if kb > 0 {
            assert(id_lt(b[0], b[kb]));
        }
        assert(a[0] == b[0]);
        let a1 = a.drop_first();
        let b1 = b.drop_first();
        assert forall|x: Id| a1.contains(x) implies b1.contains(x) by {
            let i = choose|i: int| 0 <= i < a1.len() && a1[i] == x;
            assert(a.contains(x));
            let j = choose|j: int| 0 <= j < b.len() && b[j] == x;
            assert(id_lt(a[0], a[i + 1]));
            assert(j != 0);
            assert(b1[j - 1] == x);
        }
        assert forall|x: Id| b1.contains(x) implies a1.contains(x) by {
            let i = choose|i: int| 0 <= i < b1.len() && b1[i] == x;
            assert(b.contains(x));
            let j = choose|j: int| 0 <= j < a.len() && a[j] == x;
            assert(id_lt(b[0], b[i + 1]));
            assert(j != 0);
            assert(a1[j - 1] == x);
        }
        lemma_sorted_ids_unique(a1, b1);
        assert forall|i: int| 0 <= i < a.len() implies a[i] == b[i] by {
            if i > 0 {
                assert(a[i] == a1[i - 1]);
                assert(b[i] == b1[i - 1]);
            }
        }
        assert(a =~= b);
    }
}

/// `x` is among the first `n` elements of `s`.
pub open spec fn in_prefix<T>(s: Seq<T>, n: int, x: T) -> bool {
    exists|k: int| 0 <= k < n && s[k] == x
}

pub proof fn lemma_in_prefix_step<T>(s: Seq<T>, n: int)
    requires
        0 <= n < s.len(),
    ensures
        forall|x: T| in_prefix(s, n + 1, x) <==> (in_prefix(s, n, x) || x == s[n]),
{
    assert forall|x: T| in_prefix(s, n + 1, x) <==> (in_prefix(s, n, x) || x == s[n]) by {
        if in_prefix(s, n + 1, x) {
            let k = choose|k: int| 0 <= k < n + 1 && s[k] == x;
            if k < n {
                assert(in_prefix(s, n, x));
            }
        }
        if x == s[n] {
            assert(0 <= n < n + 1 && s[n] == x);
        }
    }
}

pub proof fn lemma_in_prefix_full<T>(s: Seq<T>)
    ensures
        forall|x: T| in_prefix(s, s.len() as int, x) <==> s.contains(x),
{
}

/// What a sequence with one more element at its end holds.
pub proof fn lemma_push_contains<T>(s: Seq<T>, a: T, x: T)
    ensures
        s.push(a).contains(x) <==> (s.contains(x) || x == a),
{
    if s.contains(x) {
        let q = choose|q: int| 0 <= q < s.len() && s[q] == x;
        assert(s.push(a)[q] == x);
    }
    if x == a {
        assert(s.push(a)[s.len() as int] == a);
    }
    if s.push(a).contains(x) {
        let q = choose|q: int| 0 <= q < s.len() + 1 && s.push(a)[q] == x;
        if q < s.len() {
            assert(s[q] == x);
        }
    }
}

/// A strictly ascending sequence whose identifiers all occur in another strictly
/// ascending one is no longer than it.
pub proof fn lemma_sorted_subset_len(a: Seq<Id>, b: Seq<Id>)
    requires
        ids_sorted(a),
        ids_sorted(b),
        forall|x: Id| a.contains(x) ==> b.contains(x),
    ensures
        a.len() <= b.len(),
{
    lemma_sorted_no_duplicates(a);
    lemma_sorted_no_duplicates(b);
    a.unique_seq_to_set();
    b.unique_seq_to_set();
    assert(a.to_set().subset_of(b.to_set()));
    vstd::set_lib::lemma_len_subset(a.to_set(), b.to_set());
}

/// A strictly ascending sequence holds no identifier twice.
pub proof fn lemma_sorted_no_duplicates(a: Seq<Id>)
    requires
        ids_sorted(a),
    ensures
        a.no_duplicates(),
{
    assert forall|i: int, j: int| 0 <= i < a.len() && 0 <= j < a.len() && i != j implies a[i] != a[j] by {
        lemma_id_lt_total(a[i], a[j]);
        if i < j {
            assert(id_lt(a[i], a[j]));
        } else {
            assert(id_lt(a[j], a[i]));
        }
    }
}

/// Intersection is commutative: the intersection of `a` with `b` and that of `b`
/// with `a`, both in ascending order, are the same sequence.
pub proof fn lemma_intersection_commutes(a: Seq<Id>, b: Seq<Id>, ab: Seq<Id>, ba: Seq<Id>)
    requires
        ids_sorted(ab),
        ids_sorted(ba),
        forall|x: Id| ab.contains(x) <==> (a.contains(x) && b.contains(x)),
        forall|x: Id| ba.contains(x) <==> (b.contains(x) && a.contains(x)),
    ensures
        ab == ba,
{
    lemma_sorted_ids_unique(ab, ba);
}

/// Transaction identifier set used by proposal layers.
///
/// Its view is the sequence of its identifiers in ascending order.
#[derive(Debug, PartialEq, Eq, PartialOrd, Ord, Hash)]
pub struct TransactionSet {
    pub(crate) ids: Vec<Id>,
}

impl View for TransactionSet {
    type V = Seq<Id>;

    closed spec fn view(&self) -> Seq<Id> {
        self.ids@
    }
}

impl TransactionSet {
    #[verifier::type_invariant]
    pub(crate) closed spec fn inv(self) -> bool {
        ids_sorted(self.ids@)
    }

    /// The empty set.
    pub fn new() -> (s: Self)
        ensures
            s@ == Seq::<Id>::empty(),
    {
        TransactionSet { ids: Vec::new() }
    }

    /// The identifiers in ascending order.
    pub fn ids(&self) -> (r: &Vec<Id>)
        ensures
            r@ == self@,
            ids_sorted(self@),
    {
        proof {
            use_type_invariant(self);
        }
        &self.ids
    }

    /// The identifiers in ascending order (the order of iteration).
    pub fn iter_ids(&self) -> (r: &Vec<Id>)
        ensures
            r@ == self@,
            ids_sorted(self@),
    {
        self.ids()
    }

    /// The number of identifiers.
    pub fn len(&self) -> (n: usize)
        ensures
            n == self@.len(),
    {
        self.ids.len()
    }

    /// Whether the set holds `id`.
    pub fn contains(&self, id: &Id) -> (r: bool)
        ensures
            r == self@.contains(*id),
    {
        let mut i: usize = 0;
        while i < self.ids.len()
            invariant
                i <= self.ids@.len(),
                forall|k: int| 0 <= k < i ==> self.ids@[k] != *id,
            decreases self.ids@.len() - i,
        {
            if self.ids[i] == *id {
                return true;
            }
            i = i + 1;
        }
        false
    }

    /// Adds `id`; the set is unchanged if it already holds it.
    pub fn add_id(&mut self, id: Id)
        ensures
            ids_sorted(final(self)@),
            forall|x: Id| final(self)@.contains(x) <==> (old(self)@.contains(x) || x == id),
            old(self)@.contains(id) ==> final(self)@ == old(self)@,
            !old(self)@.contains(id) ==> final(self)@.len() == old(self)@.len() + 1,
    {
        proof {
            use_type_invariant(&*self);
        }
        let mut i: usize = 0;
        while i < self.ids.len() && id_less(&self.ids[i], &id)
            invariant
                i <= self.ids@.len(),
                ids_sorted(self.ids@),
                forall|k: int| 0 <= k < i ==> id_lt(#[trigger] self.ids@[k], id),
            decreases self.ids@.len() - i,
        {
            i = i + 1;
        }
        if i < self.ids.len() && self.ids[i] == id {
            return;
        }
        let ghost before = self.ids@;
        proof {
            if i < before.len() {
                assert(id_lt(id, before[i as int]));
            }
            assert forall|k: int| i <= k < before.len() implies id_lt(id, #[trigger] before[k]) by {
                if k > i {
                    assert(id_lt(before[i as int], before[k]));
                }
            }
            assert(!before.contains(id)) by {
                if before.contains(id) {
                    let k = choose|k: int| 0 <= k < before.len() && before[k] == id;
                    if k < i {
                        assert(id_lt(before[k], id));
                    } else {
                        assert(id_lt(id, before[k]));
                    }
                }
            }
        }
        let mut ids: Vec<Id> = Vec::new();
        std::mem::swap(&mut ids, &mut self.ids);
        ids.insert(i, id);
        proof {
            let after = ids@;
            assert(after == before.insert(i as int, id));
            assert forall|a: int, b: int| 0 <= a < b < after.len() implies id_lt(
                after[a],
                after[b],
            ) by {
                if b < i {
                } else if b == i {
                } else if a < i {
                    assert(after[b] == before[b - 1]);
                    assert(id_lt(id, before[b - 1]));
                } else if a == i {
                    assert(after[b] == before[b - 1]);
                } else {
                    assert(after[a] == before[a - 1]);
                    assert(after[b] == before[b - 1]);
                }
            }
            assert forall|x: Id| after.contains(x) <==> (before.contains(x) || x == id) by {
                if after.contains(x) {
                    let k = choose|k: int| 0 <= k < after.len() && after[k] == x;
                    if k < i {
                        assert(before[k] == x);
                    } else if k > i {
                        assert(before[k - 1] == x);
                    }
                }
                if before.contains(x) {
                    let k = choose|k: int| 0 <= k < before.len() && before[k] == x;
                    if k < i {
                        assert(after[k] == x);
                    } else {
                        assert(after[k + 1] == x);
                    }
                }
                if x == id {
                    assert(after[i as int] == x);
                }
            }
        }
        self.ids = ids;
    }

    /// Removes `id`; the set is unchanged if it does not hold it.
    pub fn remove_id(&mut self, id: &Id)
        ensures
            ids_sorted(final(self)@),
            forall|x: Id| final(self)@.contains(x) <==> (old(self)@.contains(x) && x != *id),
            !old(self)@.contains(*id) ==> final(self)@ == old(self)@,
            old(self)@.contains(*id) ==> final(self)@.len() + 1 == old(self)@.len(),
    {
        proof {
            use_type_invariant(&*self);
        }
        let mut i: usize = 0;
        while i < self.ids.len() && self.ids[i] != *id
            invariant
                i <= self.ids@.len(),
                forall|k: int| 0 <= k < i ==> self.ids@[k] != *id,
            decreases self.ids@.len() - i,
        {
            i = i + 1;
        }
        if i == self.ids.len() {
            return;
        }
        let ghost before = self.ids@;
        let mut ids: Vec<Id> = Vec::new();
        std::mem::swap(&mut ids, &mut self.ids);
        ids.remove(i);
        proof {
            let after = ids@;
            assert(after == before.remove(i as int));
            assert forall|a: int, b: int| 0 <= a < b < after.len() implies id_lt(
                after[a],
                after[b],
            ) by {
                if a < i && b < i {
                } else if a < i {
                    assert(after[b] == before[b + 1]);
                } else {
                    assert(after[a] == before[a + 1]);
                    assert(after[b] == before[b + 1]);
                }
            }
            assert forall|x: Id| after.contains(x) <==> (before.contains(x) && x != *id) by {
                if after.contains(x) {
                    let k = choose|k: int| 0 <= k < after.len() && after[k] == x;
                    if k < i {
                        assert(before[k] == x);
                        assert(id_lt(before[k], before[i as int]));
                    } else {
                        assert(before[k + 1] == x);
                        assert(id_lt(before[i as int], before[k + 1]));
                    }
                }
                if before.contains(x) && x != *id {
                    let k = choose|k: int| 0 <= k < before.len() && before[k] == x;
                    if k < i {
                        assert(after[k] == x);
                    } else {
                        assert(after[k - 1] == x);
                    }
                }
            }
        }
        self.ids = ids;
    }

    /// Whether the set holds no identifier.
    pub fn is_empty(&self) -> (r: bool)
        ensures
            r == (self@.len() == 0),
    {
        self.ids.len() == 0
    }

    /// Whether two sets hold the same identifiers.
    pub fn same_as(&self, other: &TransactionSet) -> (r: bool)
        ensures
            r == (self@ == other@),
    {
        ids_equal(self.ids.as_slice(), other.ids.as_slice())
    }

    /// Whether this set comes strictly before `other` in the order of sets:
    /// their ascending sequences compared lexicographically.
    pub fn precedes(&self, other: &TransactionSet) -> (r: bool)
        ensures
            r == lex_precedes(self@, other@),
    {
        ids_precede(self.ids.as_slice(), other.ids.as_slice())
    }

    /// The identifiers held by both sets.
    pub fn intersection(&self, other: &TransactionSet) -> (r: TransactionSet)
        ensures
            ids_sorted(r@),
            forall|x: Id| r@.contains(x) <==> (self@.contains(x) && other@.contains(x)),
            r@.len() <= self@.len(),
            r@.len() <= other@.len(),
    {
        proof {
            use_type_invariant(self);
            use_type_invariant(other);
        }
        let mut r = TransactionSet::new();
        let mut i: usize = 0;
        while i < self.ids.len()
            invariant
                i <= self.ids@.len(),
                self@ == self.ids@,
                forall|x: Id|
                    r@.contains(x) <==> (in_prefix(self.ids@, i as int, x) && other@.contains(x)),
            decreases self.ids@.len() - i,
        {
            let id = self.ids[i];
            if other.contains(&id) {
                r.add_id(id);
            }
            proof {
                lemma_in_prefix_step(self.ids@, i as int);
            }
            i = i + 1;
        }
        proof {
            lemma_in_prefix_full(self.ids@);
        }
        let _ = r.ids();
        proof {
            lemma_sorted_subset_len(r@, self@);
            lemma_sorted_subset_len(r@, other@);
        }
        r
    }

    /// The identifiers held by every set of `sets`; empty when there is no set.
    pub fn intersect_all(sets: &[TransactionSet]) -> (r: TransactionSet)
        ensures
            ids_sorted(r@),
            sets@.len() == 0 ==> r@.len() == 0,
            sets@.len() > 0 ==> forall|x: Id|
                r@.contains(x) <==> (forall|i: int| 0 <= i < sets@.len() ==> (#[trigger] sets@[i])@.contains(x)),
    {
        if sets.len() == 0 {
            return TransactionSet::new();
        }
        let mut acc = sets[0].clone();
        let _ = acc.ids();
        let mut i: usize = 1;
        while i < sets.len()
            invariant
                1 <= i <= sets@.len(),
                ids_sorted(acc@),
                forall|x: Id|
                    acc@.contains(x) <==> (forall|k: int| 0 <= k < i ==> (#[trigger] sets@[k])@.contains(x)),
            decreases sets@.len() - i,
        {
            let next = acc.intersection(&sets[i]);
            proof {
                assert forall|x: Id|
                    next@.contains(x) <==> (forall|k: int| 0 <= k < i + 1 ==> (#[trigger] sets@[k])@.contains(x)) by {
                    if next@.contains(x) {
                        assert forall|k: int| 0 <= k < i + 1 implies (#[trigger] sets@[k])@.contains(x) by {
                            if k < i {
                                assert(acc@.contains(x));
                            }
                        }
                    }
                    if forall|k: int| 0 <= k < i + 1 ==> (#[trigger] sets@[k])@.contains(x) {
                        assert(sets@[i as int]@.contains(x));
                        assert forall|k: int| 0 <= k < i implies (#[trigger] sets@[k])@.contains(x) by {
                            assert(sets@[k]@.contains(x));
                        }
                    }
                }
            }
            acc = next;
            i = i + 1;
        }
        acc
    }
}

impl Clone for TransactionSet {
    fn clone(&self) -> (r: Self)
        ensures
            r@ == self@,
    {
        proof {
            use_type_invariant(self);
        }
        let mut ids: Vec<Id> = Vec::new();
        let mut i: usize = 0;
        while i < self.ids.len()
            invariant
                i <= self.ids@.len(),
                ids@ == self.ids@.subrange(0, i as int),
            decreases self.ids@.len() - i,
        {
            ids.push(self.ids[i]);
            i = i + 1;
            assert(ids@ =~= self.ids@.subrange(0, i as int));
        }
        assert(ids@ =~= self.ids@);
        TransactionSet { ids }
    }
}

} // verus!
