//! Aegeri subcommittees: the sender membership of a consensus stage.
use crate::index::Index;
use crate::proposal::{lemma_consensus_needs_quorum, proposal_views, stage_outcome, Proposal, ProposalView};
use crate::quorum::{ByzantineRequirement, Condition};
use crate::keys::{key_views, PublicKey};
use crate::transaction_set::{in_prefix, lemma_in_prefix_full, lemma_in_prefix_step};
use crate::order::{lemma_lex_irreflexive, lemma_lex_total, lemma_lex_transitive, lemma_sorted_unique, lex_precedes, strictly_sorted};
use vstd::prelude::*;

verus! {

/// `s` is strictly ascending in the bytewise order of keys.
pub open spec fn keys_sorted(s: Seq<Seq<u8>>) -> bool {
    forall|i: int, j: int| 0 <= i < j < s.len() ==> lex_precedes(s[i], s[j])
}

/// Aegeri subcommittee carrying the sender membership and active stage index.
///
/// Members are kept as a set, in ascending bytewise order of their keys.
#[derive(Debug, PartialEq, Eq, PartialOrd, Ord, Hash)]
pub struct AegeriSubcommittee {
    // Including the index in the subcommittee is not strictly necessary,
    // but it serves as a final safety measure.
    pub(crate) index: Index,
    pub(crate) members: Vec<PublicKey>,
}

/// The view of a subcommittee: its index and its members' keys in ascending order.
pub ghost struct SubcommitteeView {
    pub index: Index,
    pub members: Seq<Seq<u8>>,
}

impl View for AegeriSubcommittee {
    type V = SubcommitteeView;

    closed spec fn view(&self) -> SubcommitteeView {
        SubcommitteeView { index: self.index, members: key_views(self.members@) }
    }
}

impl Clone for AegeriSubcommittee {
    fn clone(&self) -> (r: Self)
        ensures
            r@ == self@,
    {
        proof {
            use_type_invariant(self);
        }
        AegeriSubcommittee { index: self.index, members: crate::keys::copy_keys(&self.members) }
    }
}

impl AegeriSubcommittee {
    #[verifier::type_invariant]
    pub(crate) closed spec fn inv(self) -> bool {
        keys_sorted(key_views(self.members@))
    }

    pub fn new(index: Index) -> (r: Self)
        ensures
            r@.index == index,
            r@.members.len() == 0,
    {
        AegeriSubcommittee { index, members: Vec::new() }
    }

    /// The empty subcommittee at the genesis index.
    pub fn genesis() -> (r: Self)
        ensures
            r@.index == Index::genesis_spec(),
            r@.members.len() == 0,
    {
        Self::new(Index::genesis())
    }

    pub fn index(&self) -> (r: &Index)
        ensures
            *r == self@.index,
    {
        &self.index
    }

    /// The same members at another index.
    pub fn with_index(self, index: Index) -> (r: Self)
        ensures
            r@.index == index,
            r@.members == self@.members,
    {
        proof {
            use_type_invariant(&self);
        }
        AegeriSubcommittee { index, members: self.members }
    }

    /// The members, in ascending order.
    pub fn senders(&self) -> (r: &Vec<PublicKey>)
        ensures
            key_views(r@) == self@.members,
            keys_sorted(self@.members),
    {
        proof {
            use_type_invariant(self);
        }
        &self.members
    }

    /// Whether two subcommittees have the same index and the same members.
    pub fn same_as(&self, other: &AegeriSubcommittee) -> (r: bool)
        ensures
            r == (self@ == other@),
    {
        self.index == other.index && crate::keys::keys_equal(&self.members, &other.members)
    }

    pub fn size(&self) -> (n: usize)
        ensures
            n == self@.members.len(),
    {
        self.members.len()
    }

    /// Whether `member` is a member.
    pub fn contains_member(&self, member: &PublicKey) -> (r: bool)
        ensures
            r == self@.members.contains(member@),
    {
        let mut i: usize = 0;
        while i < self.members.len()
            invariant
                i <= self.members@.len(),
                forall|k: int| 0 <= k < i ==> self.members@[k]@ != member@,
            decreases self.members@.len() - i,
        {
            if self.members[i].same_as(member) {
                assert(key_views(self.members@)[i as int] == member@);
                return true;
            }
            i = i + 1;
        }
        proof {
            if self@.members.contains(member@) {
                let k = choose|k: int| 0 <= k < self@.members.len() && self@.members[k] == member@;
                assert(self.members@[k]@ == member@);
            }
        }
        false
    }

    /// Adds `member`; unchanged if it is already a member.
    pub fn add_member(&mut self, member: PublicKey)
        ensures
            final(self)@.index == old(self)@.index,
            keys_sorted(final(self)@.members),
            forall|x: Seq<u8>|
                final(self)@.members.contains(x) <==> (old(self)@.members.contains(x) || x == member@),
            old(self)@.members.contains(member@) ==> final(self)@ == old(self)@,
            !old(self)@.members.contains(member@) ==> final(self)@.members.len() == old(self)@.members.len() + 1,
    {
        proof {
            use_type_invariant(&*self);
        }
        let ghost before = key_views(self.members@);
        let ghost m = member@;
        let mut i: usize = 0;
        while i < self.members.len() && self.members[i].precedes(&member)
            invariant
                i <= self.members@.len(),
                before == key_views(self.members@),
                keys_sorted(before),
                m == member@,
                forall|k: int| 0 <= k < i ==> lex_precedes(#[trigger] before[k], m),
            decreases self.members@.len() - i,
        {
            i = i + 1;
        }
        if i < self.members.len() && self.members[i].same_as(&member) {
            assert(before[i as int] == m);
            assert(before.contains(m));
            return;
        }
        proof {
            if i < before.len() {
                lemma_lex_total(before[i as int], m);
                assert(lex_precedes(m, before[i as int]));
            }
            assert forall|k: int| i <= k < before.len() implies lex_precedes(m, #[trigger] before[k]) by {
                if k > i {
                    lemma_lex_transitive(m, before[i as int], before[k]);
                }
            }
            assert(!before.contains(m)) by {
                if before.contains(m) {
                    let k = choose|k: int| 0 <= k < before.len() && before[k] == m;
                    lemma_lex_irreflexive(m);
                }
            }
        }
        let mut members: Vec<PublicKey> = Vec::new();
        std::mem::swap(&mut members, &mut self.members);
        members.insert(i, member);
        proof {
            let after = key_views(members@);
            assert(after =~= before.insert(i as int, m));
            assert(after.len() == before.len() + 1);
            assert forall|a: int, b: int| 0 <= a < b < after.len() implies lex_precedes(
                after[a],
                after[b],
            ) by {
                if b < i {
                } else if b == i {
                } else if a < i {
                    assert(after[b] == before[b - 1]);
                    lemma_lex_transitive(after[a], m, before[b - 1]);
                } else if a == i {
                    assert(after[b] == before[b - 1]);
                } else {
                    assert(after[a] == before[a - 1]);
                    assert(after[b] == before[b - 1]);
                }
            }
            assert forall|x: Seq<u8>| after.contains(x) <==> (before.contains(x) || x == m) by {
                if after.contains(x) {
                    let k = choose|k: int| 0 <= k < after.len() && after[k] == x;
                    if k < i {
                        assert(before[k] == x);
                    } else if k > i {
                        assert(before[k - 1] == x);
                    }
                }
                if before.contains(x) {
                    let k = choose|k: int| 0 <= k < before.len() && before[k] == x;
                    if k < i {
                        assert(after[k] == x);
                    } else {
                        assert(after[k + 1] == x);
                    }
                }
                if x == m {
                    assert(after[i as int] == x);
                }
            }
        }
        self.members = members;
    }

    /// Removes `member`; unchanged if it is not a member.
    pub fn remove_member(&mut self, member: PublicKey)
        ensures
            final(self)@.index == old(self)@.index,
            keys_sorted(final(self)@.members),
            forall|x: Seq<u8>|
                final(self)@.members.contains(x) <==> (old(self)@.members.contains(x) && x != member@),
            !old(self)@.members.contains(member@) ==> final(self)@ == old(self)@,
            old(self)@.members.contains(member@) ==> final(self)@.members.len() + 1 == old(self)@.members.len(),
    {
        proof {
            use_type_invariant(&*self);
        }
        let ghost before = key_views(self.members@);
        let ghost m = member@;
        let mut i: usize = 0;
        while i < self.members.len() && !self.members[i].same_as(&member)
            invariant
                i <= self.members@.len(),
                before == key_views(self.members@),
                m == member@,
                forall|k: int| 0 <= k < i ==> #[trigger] before[k] != m,
            decreases self.members@.len() - i,
        {
            i = i + 1;
        }
        if i == self.members.len() {
            proof {
                assert(!before.contains(m)) by {
                    if before.contains(m) {
                        let k = choose|k: int| 0 <= k < before.len() && before[k] == m;
                        assert(before[k] != m);
                    }
                }
            }
            return;
        }
        let mut members: Vec<PublicKey> = Vec::new();
        std::mem::swap(&mut members, &mut self.members);
        members.remove(i);
        proof {
            let after = key_views(members@);
            assert(before[i as int] == m);
            assert(before.contains(m));
            assert(after =~= before.remove(i as int));
            assert forall|a: int, b: int| 0 <= a < b < after.len() implies lex_precedes(
                after[a],
                after[b],
            ) by {
                if a < i && b < i {
                } else if a < i {
                    assert(after[b] == before[b + 1]);
                } else {
                    assert(after[a] == before[a + 1]);
                    assert(after[b] == before[b + 1]);
                }
            }
            assert forall|x: Seq<u8>| after.contains(x) <==> (before.contains(x) && x != m) by {
                if after.contains(x) {
                    let k = choose|k: int| 0 <= k < after.len() && after[k] == x;
                    lemma_lex_irreflexive(x);
                    if k < i {
                        assert(before[k] == x);
                        assert(lex_precedes(before[k], before[i as int]));
                    } else {
                        assert(before[k + 1] == x);
                        assert(lex_precedes(before[i as int], before[k + 1]));
                    }
                }
                if before.contains(x) && x != m {
                    let k = choose|k: int| 0 <= k < before.len() && before[k] == x;
                    if k < i {
                        assert(after[k] == x);
                    } else {
                        assert(after[k - 1] == x);
                    }
                }
            }
        }
        self.members = members;
    }

    /// The subcommittee with `members` added.
    pub fn with_members(self, members: Vec<PublicKey>) -> (r: Self)
        ensures
            r@.index == self@.index,
            keys_sorted(r@.members),
            forall|x: Seq<u8>|
                r@.members.contains(x) <==> (self@.members.contains(x) || key_views(
                    members@,
                ).contains(x)),
    {
        let mut r = self;
        let ghost orig = r@.members;
        let ghost added = key_views(members@);
        let mut i: usize = 0;
        let n = members.len();
        let _ = r.senders();
        while i < n
            invariant
                i <= n,
                n == members@.len(),
                added == key_views(members@),
                r@.index == self@.index,
                keys_sorted(r@.members),
                forall|x: Seq<u8>|
                    #[trigger] r@.members.contains(x) <==> (orig.contains(x) || in_prefix(added, i as int, x)),
            decreases n - i,
        {
            let member = members[i].clone();
            let ghost old_i: int = i as int;
            let ghost prev = r@.members;
            assert(member@ == added[old_i]);
            proof {
                lemma_in_prefix_step(added, old_i);
                assert(forall|x: Seq<u8>| #[trigger] prev.contains(x) <==> (orig.contains(x) || in_prefix(added, old_i, x)));
            }
            r.add_member(member);
            i = i + 1;
            proof {
                assert(i as int == old_i + 1);
                assert forall|x: Seq<u8>|
                    #[trigger] r@.members.contains(x) <==> (orig.contains(x) || in_prefix(added, i as int, x)) by {
                    assert(prev.contains(x) <==> (orig.contains(x) || in_prefix(added, old_i, x)));
                    assert(in_prefix(added, old_i + 1, x) <==> (in_prefix(added, old_i, x) || x == added[old_i]));
                }
            }
        }
        proof {
            lemma_in_prefix_full(added);
            assert(i as int == added.len());
            assert forall|x: Seq<u8>| #[trigger] r@.members.contains(x) <==> (orig.contains(x) || added.contains(x)) by {
                assert(in_prefix(added, i as int, x) <==> added.contains(x));
                assert(r@.members.contains(x) <==> (orig.contains(x) || in_prefix(added, i as int, x)));
            }
        }
        r
    }
}


/// A sender's vote: the sender's key and the proposal it backs.
pub type SenderVote = (Seq<u8>, ProposalView);

/// Two key sequences in strictly ascending order that hold the same keys are equal.
pub proof fn lemma_keys_sorted_unique(a: Seq<Seq<u8>>, b: Seq<Seq<u8>>)
    requires
        keys_sorted(a),
        keys_sorted(b),
        forall|x: Seq<u8>| a.contains(x) <==> b.contains(x),
    ensures
        a == b,
{
    assert(strictly_sorted(a));
    assert(strictly_sorted(b));
    lemma_sorted_unique(a, b);
}

/// Adding a member that was not one and then removing it restores the
/// subcommittee: same index, same members in the same order.
pub proof fn lemma_add_remove_restores(s: SubcommitteeView, a: SubcommitteeView, r: SubcommitteeView, m: Seq<u8>)
    requires
        keys_sorted(s.members),
        keys_sorted(a.members),
        keys_sorted(r.members),
        a.index == s.index,
        r.index == a.index,
        forall|x: Seq<u8>| a.members.contains(x) <==> (s.members.contains(x) || x == m),
        forall|x: Seq<u8>| r.members.contains(x) <==> (a.members.contains(x) && x != m),
        !s.members.contains(m),
    ensures
        r == s,
{
    lemma_keys_sorted_unique(r.members, s.members);
}

/// Adding a member twice is adding it once: the second addition, to a
/// subcommittee that holds it, leaves the same subcommittee.
pub proof fn lemma_add_member_idempotent(s: SubcommitteeView, a: SubcommitteeView, b: SubcommitteeView, m: Seq<u8>)
    requires
        keys_sorted(a.members),
        keys_sorted(b.members),
        a.index == s.index,
        b.index == a.index,
        forall|x: Seq<u8>| a.members.contains(x) <==> (s.members.contains(x) || x == m),
        forall|x: Seq<u8>| b.members.contains(x) <==> (a.members.contains(x) || x == m),
    ensures
        b == a,
{
    lemma_keys_sorted_unique(b.members, a.members);
}

/// The votes a subcommittee's members cast for a proposal, in member order.
pub open spec fn member_votes(sub: SubcommitteeView, p: ProposalView) -> Seq<SenderVote> {
    sub.members.map_values(|m: Seq<u8>| (m, p))
}

/// The votes of the partial certificates at `index`, in order; partials at other
/// indexes are ignored.
pub open spec fn relevant_votes(index: Index, partials: Seq<(SubcommitteeView, ProposalView)>) -> Seq<
    SenderVote,
>
    decreases partials.len(),
{
    if partials.len() == 0 {
        Seq::empty()
    } else {
        let rest = relevant_votes(index, partials.drop_last());
        let last = partials.last();
        if last.0.index == index {
            rest + member_votes(last.0, last.1)
        } else {
            rest
        }
    }
}

/// Some sender backs two different proposals.
pub open spec fn has_conflict(v: Seq<SenderVote>) -> bool {
    exists|i: int, j: int| 0 <= i < v.len() && 0 <= j < v.len() && #[trigger] v[i].0 == #[trigger] v[j].0 && v[i].1 != v[j].1
}

/// The sender of `v[k]` appears earlier in `v`.
pub open spec fn seen_before(v: Seq<SenderVote>, k: int) -> bool {
    exists|t: int| 0 <= t < k && #[trigger] v[t].0 == v[k].0
}

/// The votes of `v` that are the first of their sender, in order.
pub open spec fn first_votes(v: Seq<SenderVote>) -> Seq<SenderVote>
    decreases v.len(),
{
    if v.len() == 0 {
        Seq::empty()
    } else {
        let rest = first_votes(v.drop_last());
        if seen_before(v, v.len() - 1) {
            rest
        } else {
            rest.push(v.last())
        }
    }
}

/// The views of the partial certificates.
pub open spec fn partial_views(ps: Seq<(&AegeriSubcommittee, &Proposal)>) -> Seq<(SubcommitteeView, ProposalView)> {
    ps.map_values(|p: (&AegeriSubcommittee, &Proposal)| (p.0@, p.1@))
}

/// The proposals of a sequence of votes.
pub open spec fn vote_proposals(v: Seq<SenderVote>) -> Seq<ProposalView> {
    v.map_values(|e: SenderVote| e.1)
}

/// The senders of a sequence of votes.
pub open spec fn vote_senders(v: Seq<SenderVote>) -> Seq<Seq<u8>> {
    v.map_values(|e: SenderVote| e.0)
}

/// The Byzantine quorum requirement among `n` voters.
pub open spec fn byzantine_requirement(n: int) -> ByzantineRequirement {
    ByzantineRequirement { total_voters: n as usize, quorum: ((n * 2) / 3 + 1) as usize }
}

/// The Byzantine quorum of `n` voters is the least number of them that is more
/// than two thirds of all: a quorum exceeds two thirds of `n`, and one voter
/// fewer does not.
pub proof fn lemma_byzantine_requirement(n: int)
    requires
        0 <= n <= usize::MAX / 2,
    ensures
        byzantine_requirement(n).total_voters == n,
        3 * byzantine_requirement(n).quorum > 2 * n,
        3 * (byzantine_requirement(n).quorum - 1) <= 2 * n,
{
    let q = (n * 2) / 3;
    assert(0 <= q && 3 * q <= 2 * n && 2 * n < 3 * q + 3) by (nonlinear_arith)
        requires
            q == (n * 2) / 3,
            n >= 0,
    ;
}

/// A subcommittee of `n` members reaches consensus only when more than two thirds
/// of `n` distinct senders back proposals for its index: with no sender backing
/// two proposals, a consensus outcome under its Byzantine requirement has more
/// than `2n/3` votes, one per distinct sender.
pub proof fn lemma_condition_needs_two_thirds(
    index: Index,
    partials: Seq<(SubcommitteeView, ProposalView)>,
    n: int,
    v: ProposalView,
)
    requires
        0 <= n <= usize::MAX / 2,
        stage_outcome(
            index,
            vote_proposals(first_votes(relevant_votes(index, partials))),
            byzantine_requirement(n),
            Condition::Consensus(v),
        ),
    ensures
        3 * first_votes(relevant_votes(index, partials)).len() > 2 * n,
{
    let fv = first_votes(relevant_votes(index, partials));
    lemma_consensus_needs_quorum(index, vote_proposals(fv), byzantine_requirement(n), v);
    lemma_byzantine_requirement(n);
}

proof fn lemma_relevant_prefix(index: Index, ps: Seq<(SubcommitteeView, ProposalView)>, i: int)
    requires
        0 <= i <= ps.len(),
    ensures
        relevant_votes(index, ps.take(i)).is_prefix_of(relevant_votes(index, ps)),
    decreases ps.len() - i,
{
    if i == ps.len() {
        assert(ps.take(i) =~= ps);
    } else {
        lemma_relevant_prefix(index, ps, i + 1);
        assert(ps.take(i + 1).drop_last() =~= ps.take(i));
    }
}

proof fn lemma_conflict_prefix(a: Seq<SenderVote>, b: Seq<SenderVote>)
    requires
        a.is_prefix_of(b),
        has_conflict(a),
    ensures
        has_conflict(b),
{
    let (i, j) = choose|i: int, j: int| 0 <= i < a.len() && 0 <= j < a.len() && #[trigger] a[i].0 == #[trigger] a[j].0 && a[i].1 != a[j].1;
    assert(b[i] == a[i] && b[j] == a[j]);
}

/// `v` has no conflict, and its first votes name each sender of `v` once, each
/// with the proposal all of that sender's votes back.
pub open spec fn votes_consistent(v: Seq<SenderVote>) -> bool {
    let fv = first_votes(v);
    &&& !has_conflict(v)
    &&& forall|x: Seq<u8>|
        #![trigger vote_senders(v).contains(x)]
        #![trigger vote_senders(fv).contains(x)]
        vote_senders(v).contains(x) <==> vote_senders(fv).contains(x)
    &&& forall|t: int, k: int|
        0 <= t < fv.len() && 0 <= k < v.len() && #[trigger] v[k].0 == #[trigger] fv[t].0 ==> v[k].1 == fv[t].1
    &&& forall|a: int, b: int| 0 <= a < b < fv.len() ==> #[trigger] fv[a].0 != #[trigger] fv[b].0
}

proof fn lemma_first_votes_push(v: Seq<SenderVote>, e: SenderVote)
    ensures
        first_votes(v.push(e)) == if vote_senders(v).contains(e.0) {
            first_votes(v)
        } else {
            first_votes(v).push(e)
        },
{
    let nv = v.push(e);
    assert(nv.drop_last() =~= v);
    if vote_senders(v).contains(e.0) {
        let t = choose|t: int| 0 <= t < v.len() && vote_senders(v)[t] == e.0;
        assert(nv[t].0 == nv[nv.len() - 1].0);
        assert(seen_before(nv, nv.len() - 1));
    } else {
        assert(!seen_before(nv, nv.len() - 1)) by {
            if seen_before(nv, nv.len() - 1) {
                let t = choose|t: int| 0 <= t < nv.len() - 1 && #[trigger] nv[t].0 == nv[nv.len() - 1].0;
                assert(vote_senders(v)[t] == e.0);
            }
        }
    }
}

/// A vote from a sender not seen before keeps the votes consistent and is a new first vote.
proof fn lemma_vote_new_sender(v: Seq<SenderVote>, e: SenderVote)
    requires
        votes_consistent(v),
        !vote_senders(v).contains(e.0),
    ensures
        first_votes(v.push(e)) == first_votes(v).push(e),
        votes_consistent(v.push(e)),
{
    let nv = v.push(e);
    let fv = first_votes(v);
    let nfv = fv.push(e);
    lemma_first_votes_push(v, e);
    assert(!vote_senders(fv).contains(e.0));
    assert forall|q: int| 0 <= q < v.len() implies v[q].0 != e.0 by {
        assert(vote_senders(v)[q] == v[q].0);
    }
    assert forall|u: int| 0 <= u < fv.len() implies fv[u].0 != e.0 by {
        assert(vote_senders(fv)[u] == fv[u].0);
    }
    assert(!has_conflict(nv)) by {
        if has_conflict(nv) {
            let (a, b) = choose|a: int, b: int| 0 <= a < nv.len() && 0 <= b < nv.len() && #[trigger] nv[a].0 == #[trigger] nv[b].0 && nv[a].1 != nv[b].1;
            if a < v.len() && b < v.len() {
                assert(v[a] == nv[a] && v[b] == nv[b]);
            }
        }
    }
    assert forall|x: Seq<u8>| vote_senders(nv).contains(x) <==> vote_senders(nfv).contains(x) by {
        if vote_senders(nv).contains(x) {
            let q = choose|q: int| 0 <= q < nv.len() && vote_senders(nv)[q] == x;
            if q < v.len() {
                assert(vote_senders(v)[q] == x);
                assert(vote_senders(v).contains(x));
                assert(vote_senders(fv).contains(x));
                let u = choose|u: int| 0 <= u < fv.len() && vote_senders(fv)[u] == x;
                assert(vote_senders(nfv)[u] == x);
            } else {
                assert(vote_senders(nfv)[fv.len() as int] == x);
            }
        }
        if vote_senders(nfv).contains(x) {
            let u = choose|u: int| 0 <= u < nfv.len() && vote_senders(nfv)[u] == x;
            if u < fv.len() {
                assert(vote_senders(fv)[u] == x);
                assert(vote_senders(fv).contains(x));
                assert(vote_senders(v).contains(x));
                let q = choose|q: int| 0 <= q < v.len() && vote_senders(v)[q] == x;
                assert(vote_senders(nv)[q] == x);
            } else {
                assert(vote_senders(nv)[v.len() as int] == x);
            }
        }
    }
    assert forall|t: int, q: int|
        0 <= t < nfv.len() && 0 <= q < nv.len() && #[trigger] nv[q].0 == #[trigger] nfv[t].0 implies nv[q].1 == nfv[t].1 by {
        if q < v.len() && t < fv.len() {
            assert(v[q] == nv[q]);
            assert(fv[t] == nfv[t]);
        } else if q < v.len() {
            assert(v[q] == nv[q]);
        } else if t < fv.len() {
            assert(fv[t] == nfv[t]);
        }
    }
    assert forall|a: int, b: int| 0 <= a < b < nfv.len() implies #[trigger] nfv[a].0 != #[trigger] nfv[b].0 by {
        if b < fv.len() {
            assert(fv[a] == nfv[a] && fv[b] == nfv[b]);
        } else {
            assert(fv[a] == nfv[a]);
        }
    }
}

/// A vote from a sender already seen: the first votes are unchanged; it conflicts
/// exactly when it backs another proposal than the sender's first vote.
proof fn lemma_vote_seen_sender(v: Seq<SenderVote>, e: SenderVote, k: int)
    requires
        votes_consistent(v),
        0 <= k < first_votes(v).len(),
        first_votes(v)[k].0 == e.0,
    ensures
        first_votes(v.push(e)) == first_votes(v),
        e.1 != first_votes(v)[k].1 ==> has_conflict(v.push(e)),
        e.1 == first_votes(v)[k].1 ==> votes_consistent(v.push(e)),
{
    let nv = v.push(e);
    let fv = first_votes(v);
    assert(vote_senders(fv)[k] == e.0);
    assert(vote_senders(v).contains(e.0));
    lemma_first_votes_push(v, e);
    let t = choose|t: int| 0 <= t < v.len() && vote_senders(v)[t] == e.0;
    assert(v[t].0 == fv[k].0);
    assert(v[t].1 == fv[k].1);
    if e.1 != fv[k].1 {
        assert(nv[t].0 == nv[v.len() as int].0 && nv[t].1 != nv[v.len() as int].1);
    } else {
        assert(!has_conflict(nv)) by {
            if has_conflict(nv) {
                let (a, b) = choose|a: int, b: int| 0 <= a < nv.len() && 0 <= b < nv.len() && #[trigger] nv[a].0 == #[trigger] nv[b].0 && nv[a].1 != nv[b].1;
                if a < v.len() && b < v.len() {
                    assert(v[a] == nv[a] && v[b] == nv[b]);
                } else if a < v.len() {
                    assert(v[a] == nv[a]);
                    assert(v[a].0 == fv[k].0);
                } else if b < v.len() {
                    assert(v[b] == nv[b]);
                    assert(v[b].0 == fv[k].0);
                }
            }
        }
        assert forall|x: Seq<u8>| vote_senders(nv).contains(x) <==> vote_senders(fv).contains(x) by {
            if vote_senders(nv).contains(x) {
                let q = choose|q: int| 0 <= q < nv.len() && vote_senders(nv)[q] == x;
                if q < v.len() {
                    assert(vote_senders(v)[q] == x);
                }
            }
            if vote_senders(v).contains(x) {
                let q = choose|q: int| 0 <= q < v.len() && vote_senders(v)[q] == x;
                assert(vote_senders(nv)[q] == x);
            }
        }
        assert forall|u: int, q: int|
            0 <= u < fv.len() && 0 <= q < nv.len() && #[trigger] nv[q].0 == #[trigger] fv[u].0 implies nv[q].1 == fv[u].1 by {
            if q < v.len() {
                assert(v[q] == nv[q]);
            } else {
                assert(fv[u].0 == fv[k].0);
            }
        }
    }
}

impl AegeriSubcommittee {
    /// The condition of agreement at this subcommittee's index, given partial
    /// certificates (a subcommittee of senders and the proposal they back).
    ///
    /// Partials at other indexes are ignored. If a sender backs two different
    /// proposals the condition is hung; otherwise the proposals of the distinct
    /// senders are aggregated for the index's stage under a Byzantine quorum of
    /// this subcommittee's size.
    #[verifier::rlimit(50)]
    pub fn condition(&self, partials: &[(&AegeriSubcommittee, &Proposal)]) -> (r: Condition<Proposal>)
        requires
            self@.members.len() <= usize::MAX / 2,
        ensures
            ({
                let votes = relevant_votes(self@.index, partial_views(partials@));
                if has_conflict(votes) {
                    r is Hung
                } else {
                    stage_outcome(
                        self@.index,
                        vote_proposals(first_votes(votes)),
                        byzantine_requirement(self@.members.len() as int),
                        r@,
                    )
                }
            }),
    {
        let ghost pv = partial_views(partials@);
        let ghost full = relevant_votes(self@.index, pv);
        let mut senders: Vec<&PublicKey> = Vec::new();
        let mut props: Vec<&Proposal> = Vec::new();
        let ghost mut v: Seq<SenderVote> = Seq::empty();
        proof {
            assert(first_votes(v) =~= Seq::<SenderVote>::empty());
            assert(senders@.map_values(|k: &PublicKey| k@) =~= vote_senders(first_votes(v)));
            assert(proposal_views(props@) =~= vote_proposals(first_votes(v)));
        }
        let mut i: usize = 0;
        while i < partials.len()
            invariant
                i <= partials@.len(),
                pv == partial_views(partials@),
                full == relevant_votes(self@.index, pv),
                v == relevant_votes(self@.index, pv.take(i as int)),
                votes_consistent(v),
                senders@.len() == props@.len(),
                senders@.len() == first_votes(v).len(),
                senders@.map_values(|k: &PublicKey| k@) == vote_senders(first_votes(v)),
                proposal_views(props@) == vote_proposals(first_votes(v)),
            decreases partials@.len() - i,
        {
            let (sub, prop) = partials[i];
            let ghost step = member_votes(sub@, prop@);
            proof {
                assert(pv.take(i + 1).drop_last() =~= pv.take(i as int));
                assert(pv[i as int] == (sub@, prop@));
            }
            if sub.index == self.index {
                let members = sub.senders();
                let mut j: usize = 0;
                let ghost base = v;
                proof {
                    assert(v =~= base + step.take(0));
                }
                while j < members.len()
                    invariant
                        i < partials@.len(),
                        pv == partial_views(partials@),
                        full == relevant_votes(self@.index, pv),
                        relevant_votes(self@.index, pv.take(i + 1)) == base + step,
                        step == member_votes(sub@, prop@),
                        key_views(members@) == sub@.members,
                        j <= members@.len(),
                        v == base + step.take(j as int),
                        votes_consistent(v),
                        senders@.len() == props@.len(),
                        senders@.len() == first_votes(v).len(),
                        senders@.map_values(|k: &PublicKey| k@) == vote_senders(first_votes(v)),
                        proposal_views(props@) == vote_proposals(first_votes(v)),
                    decreases members@.len() - j,
                {
                    let member = &members[j];
                    let ghost e: SenderVote = (member@, prop@);
                    let ghost fv = first_votes(v);
                    let ghost nv = v.push(e);
                    proof {
                        assert(key_views(members@)[j as int] == member@);
                        assert(step[j as int] == e);
                        assert(base + step.take(j + 1) =~= nv);
                    }
                    let mut k: usize = 0;
                    while k < senders.len() && !senders[k].same_as(member)
                        invariant
                            k <= senders@.len(),
                            senders@.len() == fv.len(),
                            senders@.map_values(|s: &PublicKey| s@) == vote_senders(fv),
                            e == (member@, prop@),
                            forall|t: int| 0 <= t < k ==> #[trigger] fv[t].0 != e.0,
                        decreases senders@.len() - k,
                    {
                        assert(vote_senders(fv)[k as int] == senders@[k as int]@);
                        assert(senders@[k as int]@ != member@);
                        assert(fv[k as int].0 != e.0);
                        k = k + 1;
                    }
                    if k < senders.len() {
                        proof {
                            assert(vote_senders(fv)[k as int] == senders@[k as int]@);
                            lemma_vote_seen_sender(v, e, k as int);
                            assert(proposal_views(props@)[k as int] == props@[k as int]@);
                        }
                        if !props[k].same_as(prop) {
                            proof {
                                lemma_relevant_prefix(self@.index, pv, i + 1);
                                assert forall|q: int| 0 <= q < nv.len() implies nv[q] == full[q] by {
                                    assert(nv[q] == (base + step)[q]);
                                }
                                assert(nv.is_prefix_of(full));
                                lemma_conflict_prefix(nv, full);
                            }
                            return Condition::Hung;
                        }
                    } else {
                        proof {
                            assert(!vote_senders(v).contains(e.0)) by {
                                if vote_senders(v).contains(e.0) {
                                    let u = choose|u: int| 0 <= u < fv.len() && vote_senders(fv)[u] == e.0;
                                    assert(fv[u].0 == e.0);
                                }
                            }
                            lemma_vote_new_sender(v, e);
                        }
                        let ghost old_s = senders@;
                        let ghost old_p = props@;
                        senders.push(member);
                        props.push(prop);
                        proof {
                            assert forall|t: int| 0 <= t < old_s.len() implies old_s[t]@ == fv[t].0 by {
                                assert(old_s.map_values(|s: &PublicKey| s@)[t] == vote_senders(fv)[t]);
                            }
                            assert forall|t: int| 0 <= t < old_p.len() implies old_p[t]@ == fv[t].1 by {
                                assert(proposal_views(old_p)[t] == vote_proposals(fv)[t]);
                            }
                            assert(senders@.map_values(|s: &PublicKey| s@) =~= vote_senders(fv.push(e)));
                            assert(proposal_views(props@) =~= vote_proposals(fv.push(e)));
                        }
                    }
                    proof {
                        v = nv;
                    }
                    j = j + 1;
                }
                proof {
                    assert(step.take(members@.len() as int) =~= step);
                }
            }
            i = i + 1;
        }
        proof {
            assert(pv.take(partials@.len() as int) =~= pv);
        }
        let requirement = ByzantineRequirement::byzantine_quorum(self.members.len());
        Proposal::consensus_condition_for_index(&self.index, props.as_slice(), requirement)
    }
}


/// `x` is a member of one of the first `n` subcommittees of `subs`.
pub open spec fn member_of_prefix(subs: Seq<AegeriSubcommittee>, n: int, x: Seq<u8>) -> bool {
    exists|k: int| 0 <= k < n && (#[trigger] subs[k])@.members.contains(x)
}

/// `x` is a member of one of the subcommittees `subs`.
pub open spec fn member_of_any(subs: Seq<AegeriSubcommittee>, x: Seq<u8>) -> bool {
    member_of_prefix(subs, subs.len() as int, x)
}

impl AegeriSubcommittee {
    /// Adds every member of each joiner subcommittee, then removes every member
    /// of each leaver subcommittee.
    pub fn update_with_join_set(&mut self, joiners: Vec<AegeriSubcommittee>, leavers: Vec<AegeriSubcommittee>)
        ensures
            final(self)@.index == old(self)@.index,
            keys_sorted(final(self)@.members),
            forall|x: Seq<u8>|
                #[trigger] final(self)@.members.contains(x) <==> ((old(self)@.members.contains(x) || member_of_any(joiners@, x))
                    && !member_of_any(leavers@, x)),
    {
        let ghost orig = self@.members;
        let mut i: usize = 0;
        while i < joiners.len()
            invariant
                i <= joiners@.len(),
                self@.index == old(self)@.index,
                orig == old(self)@.members,
                forall|x: Seq<u8>|
                    #[trigger] self@.members.contains(x) <==> (orig.contains(x) || member_of_prefix(joiners@, i as int, x)),
            decreases joiners@.len() - i,
        {
            let members = joiners[i].senders();
            let ghost sub = joiners@[i as int]@;
            let mut j: usize = 0;
            while j < members.len()
                invariant
                    i < joiners@.len(),
                    j <= members@.len(),
                    key_views(members@) == sub.members,
                    sub == joiners@[i as int]@,
                    self@.index == old(self)@.index,
                    forall|x: Seq<u8>|
                        #[trigger] self@.members.contains(x) <==> (orig.contains(x) || member_of_prefix(joiners@, i as int, x)
                            || in_prefix(sub.members, j as int, x)),
                decreases members@.len() - j,
            {
                let ghost old_j: int = j as int;
                let ghost prev = self@.members;
                proof {
                    lemma_in_prefix_step(sub.members, old_j);
                    assert(key_views(members@)[old_j] == members@[old_j]@);
                }
                self.add_member(members[j].clone());
                j = j + 1;
                proof {
                    assert forall|x: Seq<u8>|
                        #[trigger] self@.members.contains(x) <==> (orig.contains(x) || member_of_prefix(joiners@, i as int, x)
                            || in_prefix(sub.members, j as int, x)) by {
                        assert(prev.contains(x) <==> (orig.contains(x) || member_of_prefix(joiners@, i as int, x)
                            || in_prefix(sub.members, old_j, x)));
                        assert(in_prefix(sub.members, old_j + 1, x) <==> (in_prefix(sub.members, old_j, x) || x == sub.members[old_j]));
                    }
                }
            }
            let ghost old_i: int = i as int;
            i = i + 1;
            proof {
                lemma_in_prefix_full(sub.members);
                assert forall|x: Seq<u8>|
                    #[trigger] self@.members.contains(x) <==> (orig.contains(x) || member_of_prefix(joiners@, i as int, x)) by {
                    assert(in_prefix(sub.members, sub.members.len() as int, x) <==> sub.members.contains(x));
                    if member_of_prefix(joiners@, i as int, x) {
                        let k = choose|k: int| 0 <= k < i && (#[trigger] joiners@[k])@.members.contains(x);
                        if k < old_i {
                            assert(member_of_prefix(joiners@, old_i, x));
                        }
                    }
                    if member_of_prefix(joiners@, old_i, x) {
                        let k = choose|k: int| 0 <= k < old_i && (#[trigger] joiners@[k])@.members.contains(x);
                        assert(0 <= k < i && joiners@[k]@.members.contains(x));
                    }
                    if sub.members.contains(x) {
                        assert(0 <= old_i < i && joiners@[old_i]@.members.contains(x));
                    }
                }
            }
        }
        let ghost added = self@.members;
        let mut i: usize = 0;
        while i < leavers.len()
            invariant
                i <= leavers@.len(),
                self@.index == old(self)@.index,
                forall|x: Seq<u8>|
                    #[trigger] self@.members.contains(x) <==> (added.contains(x) && !member_of_prefix(leavers@, i as int, x)),
            decreases leavers@.len() - i,
        {
            let members = leavers[i].senders();
            let ghost sub = leavers@[i as int]@;
            let mut j: usize = 0;
            while j < members.len()
                invariant
                    i < leavers@.len(),
                    j <= members@.len(),
                    key_views(members@) == sub.members,
                    sub == leavers@[i as int]@,
                    self@.index == old(self)@.index,
                    forall|x: Seq<u8>|
                        #[trigger] self@.members.contains(x) <==> (added.contains(x) && !member_of_prefix(leavers@, i as int, x)
                            && !in_prefix(sub.members, j as int, x)),
                decreases members@.len() - j,
            {
                let ghost old_j: int = j as int;
                let ghost prev = self@.members;
                proof {
                    lemma_in_prefix_step(sub.members, old_j);
                    assert(key_views(members@)[old_j] == members@[old_j]@);
                }
                self.remove_member(members[j].clone());
                j = j + 1;
                proof {
                    assert forall|x: Seq<u8>|
                        #[trigger] self@.members.contains(x) <==> (added.contains(x) && !member_of_prefix(leavers@, i as int, x)
                            && !in_prefix(sub.members, j as int, x)) by {
                        assert(prev.contains(x) <==> (added.contains(x) && !member_of_prefix(leavers@, i as int, x)
                            && !in_prefix(sub.members, old_j, x)));
                        assert(in_prefix(sub.members, old_j + 1, x) <==> (in_prefix(sub.members, old_j, x) || x == sub.members[old_j]));
                    }
                }
            }
            let ghost old_i: int = i as int;
            i = i + 1;
            proof {
                lemma_in_prefix_full(sub.members);
                assert forall|x: Seq<u8>|
                    #[trigger] self@.members.contains(x) <==> (added.contains(x) && !member_of_prefix(leavers@, i as int, x)) by {
                    assert(in_prefix(sub.members, sub.members.len() as int, x) <==> sub.members.contains(x));
                    if member_of_prefix(leavers@, i as int, x) {
                        let k = choose|k: int| 0 <= k < i && (#[trigger] leavers@[k])@.members.contains(x);
                        if k < old_i {
                            assert(member_of_prefix(leavers@, old_i, x));
                        }
                    }
                    if member_of_prefix(leavers@, old_i, x) {
                        let k = choose|k: int| 0 <= k < old_i && (#[trigger] leavers@[k])@.members.contains(x);
                        assert(0 <= k < i && leavers@[k]@.members.contains(x));
                    }
                    if sub.members.contains(x) {
                        assert(0 <= old_i < i && leavers@[old_i]@.members.contains(x));
                    }
                }
            }
        }
        let _ = self.senders();
    }
}

} // verus!
