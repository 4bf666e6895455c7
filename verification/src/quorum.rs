//! Consensus conditions and the quorum rules that decide them.
use crate::order::SpecOrder;
use vstd::prelude::*;

verus! {

/// The state of agreement on a value.
#[derive(Debug, Clone, PartialEq, Eq)]
pub enum Condition<T> {
    /// Agreement has been reached on the value.
    Consensus(T),
    /// Agreement may still be reached.
    InProgress,
    /// Agreement can no longer be reached.
    Hung,
}

impl<T: View> View for Condition<T> {
    type V = Condition<T::V>;

    open spec fn view(&self) -> Condition<T::V> {
        match self {
            Condition::Consensus(t) => Condition::Consensus(t@),
            Condition::InProgress => Condition::InProgress,
            Condition::Hung => Condition::Hung,
        }
    }
}

/// `a - b`, or zero when `b` is larger.
pub open spec fn sat_sub(a: int, b: int) -> int {
    if a > b {
        a - b
    } else {
        0
    }
}

/// Stage-level quorum requirement for proposal aggregation.
#[derive(Debug, Clone, Copy, PartialEq, Eq, Structural)]
pub struct ByzantineRequirement {
    pub total_voters: usize,
    pub quorum: usize,
}

/// Number of occurrences of `v` in `s`.
pub open spec fn votes<K>(s: Seq<K>, v: K) -> nat
    decreases s.len(),
{
    if s.len() == 0 {
        0
    } else {
        votes(s.drop_last(), v) + if s.last() == v {
            1nat
        } else {
            0nat
        }
    }
}

/// The largest number of votes any of the first `n` elements of `s` has in `s`.
pub open spec fn max_votes_upto<K>(s: Seq<K>, n: int) -> nat
    decreases n,
{
    if n <= 0 {
        0
    } else {
        let m = max_votes_upto(s, n - 1);
        let c = votes(s, s[n - 1]);
        if c > m {
            c
        } else {
            m
        }
    }
}

/// The largest number of votes any value has in `s`.
pub open spec fn max_votes<K>(s: Seq<K>) -> nat {
    max_votes_upto(s, s.len() as int)
}

/// Some value of `s` has at least `q` votes.
pub open spec fn some_reaches<K>(s: Seq<K>, q: int) -> bool {
    exists|k: int| 0 <= k < s.len() && votes(s, s[k]) >= q
}

/// `w` is the first value, in the order of values, of those with at least `q` votes in `s`.
pub open spec fn majority_winner<K: SpecOrder>(s: Seq<K>, q: int, w: K) -> bool {
    &&& s.contains(w)
    &&& votes(s, w) >= q
    &&& forall|k: int|
        0 <= k < s.len() && votes(s, s[k]) >= q ==> !(#[trigger] s[k]).precedes(w)
}

/// The outcome of a majority vote over the values `s`: consensus on the first
/// value that reaches quorum; else hung when the votes not yet cast cannot bring
/// any value to quorum; else in progress.
pub open spec fn majority_outcome<K: SpecOrder>(
    s: Seq<K>,
    req: ByzantineRequirement,
    r: Condition<K>,
) -> bool {
    if some_reaches(s, req.quorum as int) {
        r matches Condition::Consensus(w) && majority_winner(s, req.quorum as int, w)
    } else if sat_sub(req.total_voters as int, s.len() as int) < sat_sub(
        req.quorum as int,
        max_votes(s) as int,
    ) {
        r is Hung
    } else {
        r is InProgress
    }
}

/// A value that can be put to a majority vote: it has a key by which votes are
/// counted and ties are broken.
pub trait Ballot: Sized {
    type Key: SpecOrder;

    spec fn key(&self) -> Self::Key;

    fn same_ballot(&self, other: &Self) -> (r: bool)
        ensures
            r == (self.key() == other.key()),
    ;

    fn ballot_precedes(&self, other: &Self) -> (r: bool)
        ensures
            r == self.key().precedes(other.key()),
    ;

    fn copy_ballot(&self) -> (r: Self)
        ensures
            r.key() == self.key(),
    ;
}

/// The keys of the ballots `ps`.
pub open spec fn ballot_keys<T: Ballot>(ps: Seq<&T>) -> Seq<T::Key> {
    ps.map_values(|p: &T| p.key())
}

/// The key-level condition of a ballot condition.
pub open spec fn keyed<T: Ballot>(r: Condition<T>) -> Condition<T::Key> {
    match r {
        Condition::Consensus(t) => Condition::Consensus(t.key()),
        Condition::InProgress => Condition::InProgress,
        Condition::Hung => Condition::Hung,
    }
}

proof fn lemma_votes_push<K>(s: Seq<K>, i: int, v: K)
    requires
        0 <= i < s.len(),
    ensures
        votes(s.take(i + 1), v) == votes(s.take(i), v) + if s[i] == v {
            1nat
        } else {
            0nat
        },
{
    assert(s.take(i + 1).drop_last() =~= s.take(i));
}

proof fn lemma_votes_bound<K>(s: Seq<K>, v: K)
    ensures
        votes(s, v) <= s.len(),
    decreases s.len(),
{
    if s.len() > 0 {
        lemma_votes_bound(s.drop_last(), v);
    }
}

proof fn lemma_max_votes_upto<K>(s: Seq<K>, n: int)
    requires
        0 <= n <= s.len(),
    ensures
        forall|k: int| 0 <= k < n ==> votes(s, #[trigger] s[k]) <= max_votes_upto(s, n),
        n > 0 ==> exists|k: int| 0 <= k < n && votes(s, s[k]) == max_votes_upto(s, n),
        n == 0 ==> max_votes_upto(s, n) == 0,
    decreases n,
{
    if n > 0 {
        lemma_max_votes_upto(s, n - 1);
        let m = max_votes_upto(s, n - 1);
        let c = votes(s, s[n - 1]);
        if c > m || n - 1 == 0 {
            assert(votes(s, s[n - 1]) == max_votes_upto(s, n));
        } else {
            let k0 = choose|k: int| 0 <= k < n - 1 && votes(s, s[k]) == max_votes_upto(s, n - 1);
            assert(votes(s, s[k0]) == max_votes_upto(s, n));
        }
    }
}

/// Two values that both reach a quorum larger than half of the votes are the same value.
pub proof fn lemma_quorum_unique_value<K>(s: Seq<K>, q: int, a: K, b: K)
    requires
        2 * q > s.len(),
        votes(s, a) >= q,
        votes(s, b) >= q,
    ensures
        a == b,
    decreases s.len(),
{
    if a != b {
        lemma_votes_disjoint(s, a, b);
    }
}

proof fn lemma_votes_disjoint<K>(s: Seq<K>, a: K, b: K)
    requires
        a != b,
    ensures
        votes(s, a) + votes(s, b) <= s.len(),
    decreases s.len(),
{
    if s.len() > 0 {
        lemma_votes_disjoint(s.drop_last(), a, b);
    }
}

/// The winner of a majority vote is unique.
pub proof fn lemma_majority_winner_unique<K: SpecOrder>(s: Seq<K>, q: int, a: K, b: K)
    requires
        majority_winner(s, q, a),
        majority_winner(s, q, b),
    ensures
        a == b,
{
    let ka = choose|k: int| 0 <= k < s.len() && s[k] == a;
    let kb = choose|k: int| 0 <= k < s.len() && s[k] == b;
    assert(!s[ka].precedes(b));
    assert(!s[kb].precedes(a));
    K::lemma_total(a, b);
}

impl ByzantineRequirement {
    /// The requirement of a Byzantine quorum among `total_voters`: more than two
    /// thirds of them.
    pub fn byzantine_quorum(total_voters: usize) -> (r: Self)
        requires
            total_voters <= usize::MAX / 2,
        ensures
            r.total_voters == total_voters,
            r.quorum == (total_voters * 2) / 3 + 1,
    {
        let quorum = ((total_voters * 2) / 3) + 1;
        ByzantineRequirement { total_voters, quorum }
    }

    /// Whether `votes` votes reach the quorum.
    pub fn reaches_quorum(&self, votes: usize) -> (r: bool)
        ensures
            r == (votes >= self.quorum),
    {
        votes >= self.quorum
    }

    /// Majority-style condition evaluator shared by exact-value stages.
    ///
    /// Values are counted by key; the first value in key order that reaches
    /// quorum wins.
    pub fn aggregate_majority<T: Ballot>(&self, proposals: &[&T]) -> (r: Condition<T>)
        ensures
            majority_outcome(ballot_keys(proposals@), *self, keyed(r)),
    {
        let ghost keys = ballot_keys(proposals@);
        let n = proposals.len();
        // Distinct values, each by the position of its first occurrence, with its votes.
        let mut distinct: Vec<usize> = Vec::new();
        let mut counts: Vec<usize> = Vec::new();
        let mut i: usize = 0;
        while i < n
            invariant
                n == proposals@.len(),
                keys == ballot_keys(proposals@),
                i <= n,
                distinct@.len() == counts@.len(),
                forall|j: int| 0 <= j < distinct@.len() ==> #[trigger] distinct@[j] < i,
                forall|j1: int, j2: int|
                    0 <= j1 < j2 < distinct@.len() ==> keys[distinct@[j1] as int] != keys[distinct@[j2] as int],
                forall|j: int|
                    0 <= j < distinct@.len() ==> #[trigger] counts@[j] == votes(
                        keys.take(i as int),
                        keys[distinct@[j] as int],
                    ),
                forall|j: int| 0 <= j < distinct@.len() ==> #[trigger] counts@[j] <= i,
                forall|k: int|
                    0 <= k < i ==> exists|j: int|
                        0 <= j < distinct@.len() && keys[distinct@[j] as int] == #[trigger] keys[k],
            decreases n - i,
        {
            let mut j: usize = 0;
            while j < distinct.len() && !proposals[distinct[j]].same_ballot(proposals[i])
                invariant
                    n == proposals@.len(),
                    keys == ballot_keys(proposals@),
                    i < n,
                    j <= distinct@.len(),
                    forall|j: int| 0 <= j < distinct@.len() ==> #[trigger] distinct@[j] < i,
                    forall|t: int| 0 <= t < j ==> keys[distinct@[t] as int] != keys[i as int],
                decreases distinct@.len() - j,
            {
                j = j + 1;
            }
            proof {
                assert forall|t: int| 0 <= t < distinct@.len() implies votes(keys.take(i + 1), keys[distinct@[t] as int]) == votes(keys.take(i as int), keys[distinct@[t] as int]) + if keys[i as int] == keys[distinct@[t] as int] { 1nat } else { 0nat } by {
                    lemma_votes_push(keys, i as int, keys[distinct@[t] as int]);
                }
            }
            let ghost old_distinct = distinct@;
            if j < distinct.len() {
                let c = counts[j];
                counts.set(j, c + 1);
                proof {
                    assert(keys[distinct@[j as int] as int] == keys[i as int]);
                }
            } else {
                proof {
                    lemma_votes_push(keys, i as int, keys[i as int]);
                    assert(votes(keys.take(i as int), keys[i as int]) == 0) by {
                        if votes(keys.take(i as int), keys[i as int]) > 0 {
                            lemma_votes_positive_contains(keys.take(i as int), keys[i as int]);
                            let k = choose|k: int| 0 <= k < i && keys.take(i as int)[k] == keys[i as int];
                            assert(keys[k] == keys[i as int]);
                        }
                    }
                }
                distinct.push(i);
                counts.push(1);
                proof {
                    assert(keys[distinct@[old_distinct.len() as int] as int] == keys[i as int]);
                }
            }
            proof {
                assert forall|k: int|
                    0 <= k < i + 1 implies exists|j: int|
                        0 <= j < distinct@.len() && keys[distinct@[j] as int] == #[trigger] keys[k] by {
                    if k < i {
                        let j0 = choose|j: int| 0 <= j < old_distinct.len() && keys[old_distinct[j] as int] == keys[k];
                        assert(distinct@[j0] == old_distinct[j0]);
                    }
                }
            }
            i = i + 1;
        }
        assert(keys.take(n as int) =~= keys);
        // The largest count, and the first value in key order that reaches quorum.
        let mut most: usize = 0;
        let mut best: Option<usize> = None;
        let mut j: usize = 0;
        while j < distinct.len()
            invariant
                n == proposals@.len(),
                keys == ballot_keys(proposals@),
                keys.take(n as int) == keys,
                j <= distinct@.len(),
                distinct@.len() == counts@.len(),
                forall|t: int| 0 <= t < distinct@.len() ==> #[trigger] distinct@[t] < n,
                forall|t: int|
                    0 <= t < distinct@.len() ==> #[trigger] counts@[t] == votes(
                        keys,
                        keys[distinct@[t] as int],
                    ),
                forall|t: int| 0 <= t < j ==> #[trigger] counts@[t] <= most,
                j == 0 ==> most == 0,
                j > 0 ==> exists|t: int| 0 <= t < j && counts@[t] == most,
                best is None <==> (forall|t: int| 0 <= t < j ==> #[trigger] counts@[t] < self.quorum),
                best matches Some(b) ==> b < n && votes(keys, keys[b as int]) >= self.quorum
                    && forall|t: int|
                    0 <= t < j && #[trigger] counts@[t] >= self.quorum ==> !keys[distinct@[t] as int].precedes(keys[b as int]),
            decreases distinct@.len() - j,
        {
            let c = counts[j];
            let d = distinct[j];
            if c > most {
                most = c;
            }
            if c >= self.quorum {
                match best {
                    None => {
                        proof {
                            <T::Key as SpecOrder>::lemma_irreflexive(keys[d as int]);
                        }
                        best = Some(d);
                    },
                    Some(b) => {
                        if proposals[d].ballot_precedes(proposals[b]) {
                            proof {
                                <T::Key as SpecOrder>::lemma_irreflexive(keys[d as int]);
                                assert forall|t: int|
                                    0 <= t < j && #[trigger] counts@[t] >= self.quorum implies !keys[distinct@[t] as int].precedes(keys[d as int]) by {
                                    if keys[distinct@[t] as int].precedes(keys[d as int]) {
                                        <T::Key as SpecOrder>::lemma_transitive(keys[distinct@[t] as int], keys[d as int], keys[b as int]);
                                    }
                                }
                            }
                            best = Some(d);
                        }
                    },
                }
            }
            j = j + 1;
        }
        proof {
            assert forall|k: int| 0 <= k < n implies votes(keys, #[trigger] keys[k]) <= most by {
                let t = choose|t: int| 0 <= t < distinct@.len() && keys[distinct@[t] as int] == keys[k];
                assert(counts@[t] <= most);
            }
            lemma_max_votes_upto(keys, n as int);
            if n > 0 {
                let k0 = choose|k: int| 0 <= k < n && votes(keys, keys[k]) == max_votes_upto(keys, n as int);
                let t0 = choose|t: int| 0 <= t < distinct@.len() && counts@[t] == most;
                assert(votes(keys, keys[distinct@[t0] as int]) <= max_votes_upto(keys, n as int));
            }
            assert(max_votes(keys) == most);
        }
        match best {
            Some(b) => {
                proof {
                    assert(keys[b as int] == proposals@[b as int].key());
                    assert forall|k: int| 0 <= k < keys.len() && votes(keys, keys[k]) >= self.quorum implies !(#[trigger] keys[k]).precedes(keys[b as int]) by {
                        let t = choose|t: int| 0 <= t < distinct@.len() && keys[distinct@[t] as int] == keys[k];
                        assert(counts@[t] >= self.quorum);
                    }
                    assert(keys.contains(keys[b as int]));
                }
                Condition::Consensus(proposals[b].copy_ballot())
            },
            None => {
                proof {
                    assert(!some_reaches(keys, self.quorum as int)) by {
                        if some_reaches(keys, self.quorum as int) {
                            let k = choose|k: int| 0 <= k < keys.len() && votes(keys, keys[k]) >= self.quorum;
                            let t = choose|t: int| 0 <= t < distinct@.len() && keys[distinct@[t] as int] == keys[k];
                            assert(counts@[t] < self.quorum);
                        }
                    }
                }
                let remaining: usize = if self.total_voters > n {
                    self.total_voters - n
                } else {
                    0
                };
                let needed: usize = if self.quorum > most {
                    self.quorum - most
                } else {
                    0
                };
                if remaining < needed {
                    Condition::Hung
                } else {
                    Condition::InProgress
                }
            },
        }
    }
}

proof fn lemma_votes_positive_contains<K>(s: Seq<K>, v: K)
    requires
        votes(s, v) > 0,
    ensures
        exists|k: int| 0 <= k < s.len() && s[k] == v,
    decreases s.len(),
{
    if s.last() == v {
        assert(s[s.len() - 1] == v);
    } else {
        lemma_votes_positive_contains(s.drop_last(), v);
        let k = choose|k: int| 0 <= k < s.drop_last().len() && s.drop_last()[k] == v;
        assert(s[k] == v);
    }
}

} // verus!
