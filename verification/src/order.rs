//! The orders under which sets are kept sorted and majority ties are broken:
//! the derived orders of the values they rank, stated over their views.
use crate::id::{id_less, id_lt, Id};
use vstd::prelude::*;

verus! {

/// A strict order on spec values.
pub trait SpecOrder: Sized {
    /// `self` comes strictly before `other`.
    spec fn precedes(self, other: Self) -> bool;

    proof fn lemma_transitive(a: Self, b: Self, c: Self)
        requires
            a.precedes(b),
            b.precedes(c),
        ensures
            a.precedes(c),
    ;

    proof fn lemma_irreflexive(a: Self)
        ensures
            !a.precedes(a),
    ;

    proof fn lemma_total(a: Self, b: Self)
        ensures
            a != b ==> (a.precedes(b) || b.precedes(a)),
    ;
}

impl SpecOrder for u8 {
    open spec fn precedes(self, other: u8) -> bool {
        self < other
    }

    proof fn lemma_transitive(a: u8, b: u8, c: u8) {
    }

    proof fn lemma_irreflexive(a: u8) {
    }

    proof fn lemma_total(a: u8, b: u8) {
    }
}

impl SpecOrder for Id {
    open spec fn precedes(self, other: Id) -> bool {
        id_lt(self, other)
    }

    proof fn lemma_transitive(a: Id, b: Id, c: Id) {
    }

    proof fn lemma_irreflexive(a: Id) {
    }

    proof fn lemma_total(a: Id, b: Id) {
    }
}

/// The lexicographic order of sequences: the first differing element decides,
/// and a proper prefix comes first.
pub open spec fn lex_precedes<T: SpecOrder>(a: Seq<T>, b: Seq<T>) -> bool
    decreases a.len(),
{
    if a.len() == 0 {
        b.len() > 0
    } else if b.len() == 0 {
        false
    } else if a[0] == b[0] {
        lex_precedes(a.drop_first(), b.drop_first())
    } else {
        a[0].precedes(b[0])
    }
}

pub proof fn lemma_lex_transitive<T: SpecOrder>(a: Seq<T>, b: Seq<T>, c: Seq<T>)
    requires
        lex_precedes(a, b),
        lex_precedes(b, c),
    ensures
        lex_precedes(a, c),
    decreases a.len(),
{
    if a.len() == 0 {
    } else {
        assert(b.len() > 0 && c.len() > 0);
        if a[0] == b[0] && b[0] == c[0] {
            lemma_lex_transitive(a.drop_first(), b.drop_first(), c.drop_first());
        } else if a[0] == b[0] {
        } else if b[0] == c[0] {
        } else {
            T::lemma_transitive(a[0], b[0], c[0]);
            if a[0] == c[0] {
                T::lemma_transitive(c[0], b[0], c[0]);
                T::lemma_irreflexive(c[0]);
            }
        }
    }
}

pub proof fn lemma_lex_irreflexive<T: SpecOrder>(a: Seq<T>)
    ensures
        !lex_precedes(a, a),
    decreases a.len(),
{
    if a.len() > 0 {
        lemma_lex_irreflexive(a.drop_first());
    }
}

pub proof fn lemma_lex_total<T: SpecOrder>(a: Seq<T>, b: Seq<T>)
    ensures
        a != b ==> (lex_precedes(a, b) || lex_precedes(b, a)),
    decreases a.len(),
{
    if a.len() == 0 {
        if b.len() == 0 {
            assert(a =~= b);
        }
    } else if b.len() == 0 {
    } else if a[0] == b[0] {
        lemma_lex_total(a.drop_first(), b.drop_first());
        if a.drop_first() == b.drop_first() {
            assert(a =~= b) by {
                assert forall|i: int| 0 <= i < a.len() implies a[i] == b[i] by {
                    if i > 0 {
                        assert(a[i] == a.drop_first()[i - 1]);
                        assert(b[i] == b.drop_first()[i - 1]);
                    }
                }
            }
        }
    } else {
        T::lemma_total(a[0], b[0]);
    }
}

impl<T: SpecOrder> SpecOrder for Seq<T> {
    open spec fn precedes(self, other: Seq<T>) -> bool {
        lex_precedes(self, other)
    }

    proof fn lemma_transitive(a: Seq<T>, b: Seq<T>, c: Seq<T>) {
        lemma_lex_transitive(a, b, c);
    }

    proof fn lemma_irreflexive(a: Seq<T>) {
        lemma_lex_irreflexive(a);
    }

    proof fn lemma_total(a: Seq<T>, b: Seq<T>) {
        lemma_lex_total(a, b);
    }
}

/// `s` is strictly ascending in the order of `T`.
pub open spec fn strictly_sorted<T: SpecOrder>(s: Seq<T>) -> bool {
    forall|i: int, j: int| 0 <= i < j < s.len() ==> (#[trigger] s[i]).precedes(#[trigger] s[j])
}

/// A strictly ascending sequence holds no value twice.
pub proof fn lemma_sorted_no_duplicates<T: SpecOrder>(s: Seq<T>)
    requires
        strictly_sorted(s),
    ensures
        s.no_duplicates(),
{
    assert forall|i: int, j: int| 0 <= i < s.len() && 0 <= j < s.len() && i != j implies s[i] != s[j] by {
        T::lemma_irreflexive(s[i]);
        if i < j {
            assert(s[i].precedes(s[j]));
        } else {
            assert(s[j].precedes(s[i]));
        }
    }
}

/// A strictly ascending sequence is determined by its values: two of them that
/// hold the same values are equal.
pub proof fn lemma_sorted_unique<T: SpecOrder>(a: Seq<T>, b: Seq<T>)
    requires
        strictly_sorted(a),
        strictly_sorted(b),
        forall|x: T| a.contains(x) <==> b.contains(x),
    ensures
        a == b,
    decreases a.len(),
{
    if a.len() == 0 {
        if b.len() > 0 {
            assert(b.contains(b[0]));
        }
        assert(a =~= b);
    } else {
        assert(a.contains(a[0]));
        assert(b.contains(b[0]));
        let ka = choose|k: int| 0 <= k < a.len() && a[k] == b[0];
        let kb = choose|k: int| 0 <= k < b.len() && b[k] == a[0];
        if ka > 0 && kb > 0 {
            assert(a[0].precedes(a[ka]));
            assert(b[0].precedes(b[kb]));
            T::lemma_transitive(a[0], b[0], a[0]);
            T::lemma_irreflexive(a[0]);
        }
        if ka > 0 && kb == 0 {
            assert(a[0].precedes(a[ka]));
        }
        if ka == 0 && kb > 0 {
            assert(b[0].precedes(b[kb]));
        }
        assert(a[0] == b[0]);
        lemma_sorted_no_duplicates(a);
        lemma_sorted_no_duplicates(b);
        let a1 = a.drop_first();
        let b1 = b.drop_first();
        assert forall|x: T| a1.contains(x) <==> b1.contains(x) by {
            if a1.contains(x) {
                let i = choose|i: int| 0 <= i < a1.len() && a1[i] == x;
                assert(a[i + 1] == x);
                assert(a.contains(x));
                let j = choose|j: int| 0 <= j < b.len() && b[j] == x;
                assert(j != 0);
                assert(b1[j - 1] == x);
            }
            if b1.contains(x) {
                let i = choose|i: int| 0 <= i < b1.len() && b1[i] == x;
                assert(b[i + 1] == x);
                assert(b.contains(x));
                let j = choose|j: int| 0 <= j < a.len() && a[j] == x;
                assert(j != 0);
                assert(a1[j - 1] == x);
            }
        }
        assert forall|i: int, j: int| 0 <= i < j < a1.len() implies (#[trigger] a1[i]).precedes(#[trigger] a1[j]) by {
            assert(a[i + 1].precedes(a[j + 1]));
        }
        assert forall|i: int, j: int| 0 <= i < j < b1.len() implies (#[trigger] b1[i]).precedes(#[trigger] b1[j]) by {
            assert(b[i + 1].precedes(b[j + 1]));
        }
        lemma_sorted_unique(a1, b1);
        assert forall|i: int| 0 <= i < a.len() implies a[i] == b[i] by {
            if i > 0 {
                assert(a[i] == a1[i - 1]);
                assert(b[i] == b1[i - 1]);
            }
        }
        assert(a =~= b);
    }
}

/// Inserting a value where it belongs keeps a sequence strictly ascending.
pub proof fn lemma_sorted_insert<T: SpecOrder>(s: Seq<T>, pos: int, x: T)
    requires
        strictly_sorted(s),
        0 <= pos <= s.len(),
        forall|k: int| 0 <= k < pos ==> (#[trigger] s[k]).precedes(x),
        forall|k: int| pos <= k < s.len() ==> x.precedes(#[trigger] s[k]),
    ensures
        strictly_sorted(s.insert(pos, x)),
{
    let t = s.insert(pos, x);
    assert forall|a: int, b: int| 0 <= a < b < t.len() implies (#[trigger] t[a]).precedes(#[trigger] t[b]) by {
        if b < pos {
            assert(t[a] == s[a] && t[b] == s[b]);
        } else if b == pos {
            assert(t[a] == s[a]);
        } else if a < pos {
            assert(t[a] == s[a]);
            assert(t[b] == s[b - 1]);
            T::lemma_transitive(s[a], x, s[b - 1]);
        } else if a == pos {
            assert(t[b] == s[b - 1]);
        } else {
            assert(t[a] == s[a - 1]);
            assert(t[b] == s[b - 1]);
        }
    }
}

/// The length of a strictly ascending sequence is the number of its values.
pub proof fn lemma_sorted_len<T: SpecOrder>(s: Seq<T>)
    requires
        strictly_sorted(s),
    ensures
        s.to_set().len() == s.len(),
        s.to_set().finite(),
{
    lemma_sorted_no_duplicates(s);
    s.unique_seq_to_set();
}

/// Skipping a common prefix does not change the order of two sequences.
pub proof fn lemma_lex_skip<T: SpecOrder>(a: Seq<T>, b: Seq<T>, i: int)
    requires
        0 <= i < a.len(),
        i < b.len(),
        a[i] == b[i],
    ensures
        lex_precedes(a.skip(i), b.skip(i)) == lex_precedes(a.skip(i + 1), b.skip(i + 1)),
{
    assert(a.skip(i).drop_first() =~= a.skip(i + 1));
    assert(b.skip(i).drop_first() =~= b.skip(i + 1));
}

/// Whether the byte string `a` comes strictly before `b`.
pub fn bytes_precede(a: &[u8], b: &[u8]) -> (r: bool)
    ensures
        r == lex_precedes(a@, b@),
{
    let mut i: usize = 0;
    assert(a@.skip(0) =~= a@);
    assert(b@.skip(0) =~= b@);
    while i < a.len() && i < b.len()
        invariant
            i <= a@.len(),
            i <= b@.len(),
            lex_precedes(a@, b@) == lex_precedes(a@.skip(i as int), b@.skip(i as int)),
        decreases a@.len() - i,
    {
        if a[i] != b[i] {
            return a[i] < b[i];
        }
        proof {
            lemma_lex_skip(a@, b@, i as int);
        }
        i = i + 1;
    }
    i < b.len()
}

/// Whether the identifier sequence `a` comes strictly before `b`.
pub fn ids_precede(a: &[Id], b: &[Id]) -> (r: bool)
    ensures
        r == lex_precedes(a@, b@),
{
    let mut i: usize = 0;
    assert(a@.skip(0) =~= a@);
    assert(b@.skip(0) =~= b@);
    while i < a.len() && i < b.len()
        invariant
            i <= a@.len(),
            i <= b@.len(),
            lex_precedes(a@, b@) == lex_precedes(a@.skip(i as int), b@.skip(i as int)),
        decreases a@.len() - i,
    {
        if a[i] != b[i] {
            return id_less(&a[i], &b[i]);
        }
        proof {
            lemma_lex_skip(a@, b@, i as int);
        }
        i = i + 1;
    }
    i < b.len()
}

/// Whether two byte strings are equal.
pub fn bytes_equal(a: &[u8], b: &[u8]) -> (r: bool)
    ensures
        r == (a@ == b@),
{
    if a.len() != b.len() {
        return false;
    }
    let mut i: usize = 0;
    while i < a.len()
        invariant
            i <= a@.len(),
            a@.len() == b@.len(),
            forall|k: int| 0 <= k < i ==> a@[k] == b@[k],
        decreases a@.len() - i,
    {
        if a[i] != b[i] {
            return false;
        }
        i = i + 1;
    }
    assert(a@ =~= b@);
    true
}

/// Whether two identifier sequences are equal.
pub fn ids_equal(a: &[Id], b: &[Id]) -> (r: bool)
    ensures
        r == (a@ == b@),
{
    if a.len() != b.len() {
        return false;
    }
    let mut i: usize = 0;
    while i < a.len()
        invariant
            i <= a@.len(),
            a@.len() == b@.len(),
            forall|k: int| 0 <= k < i ==> a@[k] == b@[k],
        decreases a@.len() - i,
    {
        if a[i] != b[i] {
            return false;
        }
        i = i + 1;
    }
    assert(a@ =~= b@);
    true
}

} // verus!
