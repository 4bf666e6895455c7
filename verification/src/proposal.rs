//! Layered proposals and the conditions under which a stage agrees on one.
use crate::id::Id;
use crate::index::Index;
use crate::keys::{key_views, PublicKey};
use crate::quorum::{ballot_keys, keyed, majority_outcome, votes, Ballot, ByzantineRequirement, Condition};
use crate::subcommittee::{keys_sorted, AegeriSubcommittee, SubcommitteeView};
use crate::transaction_set::{ids_sorted, in_prefix, lemma_in_prefix_full, lemma_in_prefix_step, TransactionSet};
use crate::transition::{Transition, TransitionView};
use vstd::prelude::*;

verus! {

/// `x` is held by one of the first `n` sets of `ps`.
pub open spec fn held_in_prefix(ps: Seq<Seq<Id>>, n: int, x: Id) -> bool {
    exists|k: int| 0 <= k < n && (#[trigger] ps[k]).contains(x)
}

/// `x` is held by one of the sets of `ps`.
pub open spec fn held_by_some(ps: Seq<Seq<Id>>, x: Id) -> bool {
    held_in_prefix(ps, ps.len() as int, x)
}

/// The number of sets of `ps` that hold `x`.
pub open spec fn holders(ps: Seq<Seq<Id>>, x: Id) -> nat
    decreases ps.len(),
{
    if ps.len() == 0 {
        0
    } else {
        holders(ps.drop_last(), x) + if ps.last().contains(x) {
            1nat
        } else {
            0nat
        }
    }
}

proof fn lemma_holders_push(ps: Seq<Seq<Id>>, k: int, x: Id)
    requires
        0 <= k < ps.len(),
    ensures
        holders(ps.take(k + 1), x) == holders(ps.take(k), x) + if ps[k].contains(x) {
            1nat
        } else {
            0nat
        },
{
    assert(ps.take(k + 1).drop_last() =~= ps.take(k));
}

/// The outcome of availability aggregation: in progress below quorum proposals,
/// else consensus on the union of the proposed sets.
pub open spec fn availability_outcome(
    ps: Seq<Seq<Id>>,
    req: ByzantineRequirement,
    r: Condition<Seq<Id>>,
) -> bool {
    if ps.len() < req.quorum {
        r is InProgress
    } else {
        r matches Condition::Consensus(u) && ids_sorted(u) && forall|x: Id|
            u.contains(x) <==> held_by_some(ps, x)
    }
}

/// The outcome of confirmation aggregation: in progress below quorum proposals,
/// else consensus on the proposed identifiers that a quorum of proposals holds.
pub open spec fn confirmation_outcome(
    ps: Seq<Seq<Id>>,
    req: ByzantineRequirement,
    r: Condition<Seq<Id>>,
) -> bool {
    if ps.len() < req.quorum {
        r is InProgress
    } else {
        r matches Condition::Consensus(u) && ids_sorted(u) && forall|x: Id|
            u.contains(x) <==> (held_by_some(ps, x) && holders(ps, x) >= req.quorum)
    }
}

/// Confirmation narrows what availability gathers: over the same proposed sets,
/// every identifier that confirmation keeps is in the availability union.
pub proof fn lemma_confirmation_narrows(ps: Seq<Seq<Id>>, req: ByzantineRequirement, u: Seq<Id>, c: Seq<Id>)
    requires
        availability_outcome(ps, req, Condition::Consensus(u)),
        confirmation_outcome(ps, req, Condition::Consensus(c)),
    ensures
        forall|x: Id| c.contains(x) ==> u.contains(x),
{
}

/// The union of the sets `sets`.
pub fn union_all(sets: &[&TransactionSet]) -> (r: TransactionSet)
    ensures
        ids_sorted(r@),
        forall|x: Id| r@.contains(x) <==> held_by_some(sets@.map_values(|s: &TransactionSet| s@), x),
{
    let ghost ps = sets@.map_values(|s: &TransactionSet| s@);
    let mut r = TransactionSet::new();
    let mut i: usize = 0;
    while i < sets.len()
        invariant
            i <= sets@.len(),
            ps == sets@.map_values(|s: &TransactionSet| s@),
            ids_sorted(r@),
            forall|x: Id| #[trigger] r@.contains(x) <==> held_in_prefix(ps, i as int, x),
        decreases sets@.len() - i,
    {
        let ids = sets[i].ids();
        let mut j: usize = 0;
        while j < ids.len()
            invariant
                i < sets@.len(),
                j <= ids@.len(),
                ids@ == ps[i as int],
                ps == sets@.map_values(|s: &TransactionSet| s@),
                ids_sorted(r@),
                forall|x: Id|
                    #[trigger] r@.contains(x) <==> (held_in_prefix(ps, i as int, x) || in_prefix(ids@, j as int, x)),
            decreases ids@.len() - j,
        {
            let ghost old_j: int = j as int;
            let ghost prev = r@;
            proof {
                lemma_in_prefix_step(ids@, old_j);
                assert(forall|x: Id| #[trigger] prev.contains(x) <==> (held_in_prefix(ps, i as int, x) || in_prefix(ids@, old_j, x)));
            }
            r.add_id(ids[j]);
            j = j + 1;
            proof {
                assert forall|x: Id|
                    #[trigger] r@.contains(x) <==> (held_in_prefix(ps, i as int, x) || in_prefix(ids@, j as int, x)) by {
                    assert(prev.contains(x) <==> (held_in_prefix(ps, i as int, x) || in_prefix(ids@, old_j, x)));
                    assert(in_prefix(ids@, old_j + 1, x) <==> (in_prefix(ids@, old_j, x) || x == ids@[old_j]));
                }
            }
        }
        let ghost old_i: int = i as int;
        proof {
            lemma_in_prefix_full(ids@);
        }
        i = i + 1;
        proof {
            assert forall|x: Id| #[trigger] r@.contains(x) <==> held_in_prefix(ps, i as int, x) by {
                assert(in_prefix(ids@, ids@.len() as int, x) <==> ids@.contains(x));
                if held_in_prefix(ps, i as int, x) {
                    let k = choose|k: int| 0 <= k < i && (#[trigger] ps[k]).contains(x);
                    if k < old_i {
                        assert(held_in_prefix(ps, old_i, x));
                    }
                }
                if held_in_prefix(ps, old_i, x) {
                    let k = choose|k: int| 0 <= k < old_i && (#[trigger] ps[k]).contains(x);
                    assert(0 <= k < i && ps[k].contains(x));
                }
                if ids@.contains(x) {
                    assert(0 <= old_i < i && ps[old_i].contains(x));
                }
            }
        }
    }
    r
}

/// Availability proposal from one replica.
#[derive(Debug, PartialEq, Eq, PartialOrd, Ord, Hash)]
pub struct Availability(TransactionSet);

/// Confirmation proposal from one replica.
#[derive(Debug, PartialEq, Eq, PartialOrd, Ord, Hash)]
pub struct Confirmation(TransactionSet);

/// Exact block-header proposal from one replica.
#[derive(Debug, PartialEq, Eq, PartialOrd, Ord, Hash)]
pub struct BlockHeader(TransactionSet);

impl View for Availability {
    type V = Seq<Id>;

    closed spec fn view(&self) -> Seq<Id> {
        self.0@
    }
}

impl View for Confirmation {
    type V = Seq<Id>;

    closed spec fn view(&self) -> Seq<Id> {
        self.0@
    }
}

impl View for BlockHeader {
    type V = Seq<Id>;

    closed spec fn view(&self) -> Seq<Id> {
        self.0@
    }
}

impl Clone for Availability {
    fn clone(&self) -> (r: Self)
        ensures
            r@ == self@,
    {
        Availability(self.0.clone())
    }
}

impl Clone for Confirmation {
    fn clone(&self) -> (r: Self)
        ensures
            r@ == self@,
    {
        Confirmation(self.0.clone())
    }
}

impl Clone for BlockHeader {
    fn clone(&self) -> (r: Self)
        ensures
            r@ == self@,
    {
        BlockHeader(self.0.clone())
    }
}

impl Availability {
    pub fn new() -> (r: Self)
        ensures
            r@.len() == 0,
    {
        Availability(TransactionSet::new())
    }

    pub fn genesis() -> (r: Self)
        ensures
            r@.len() == 0,
    {
        Availability(TransactionSet::new())
    }

    pub fn from_transactions(transactions: TransactionSet) -> (r: Self)
        ensures
            r@ == transactions@,
            ids_sorted(r@),
    {
        // The identifiers of a transaction set are sorted.
        let _ = transactions.ids();
        Availability(transactions)
    }

    pub fn transactions(&self) -> (r: &TransactionSet)
        ensures
            r@ == self@,
    {
        &self.0
    }

    /// Aggregates availability proposals into a union once quorum proposals exist.
    pub fn consensus_condition(proposals: &[&Availability], requirement: ByzantineRequirement) -> (r:
        Condition<Availability>)
        ensures
            availability_outcome(proposals@.map_values(|p: &Availability| p@), requirement, r@),
    {
        if proposals.len() < requirement.quorum {
            return Condition::InProgress;
        }
        let mut sets: Vec<&TransactionSet> = Vec::new();
        let mut i: usize = 0;
        while i < proposals.len()
            invariant
                i <= proposals@.len(),
                sets@.len() == i,
                forall|k: int| 0 <= k < i ==> (#[trigger] sets@[k])@ == proposals@[k]@,
            decreases proposals@.len() - i,
        {
            sets.push(proposals[i].transactions());
            i = i + 1;
        }
        assert(sets@.map_values(|s: &TransactionSet| s@) =~= proposals@.map_values(|p: &Availability| p@));
        let union = union_all(sets.as_slice());
        Condition::Consensus(Availability::from_transactions(union))
    }
}

impl Confirmation {
    pub fn new() -> (r: Self)
        ensures
            r@.len() == 0,
    {
        Confirmation(TransactionSet::new())
    }

    pub fn genesis() -> (r: Self)
        ensures
            r@.len() == 0,
    {
        Confirmation(TransactionSet::new())
    }

    pub fn from_transactions(transactions: TransactionSet) -> (r: Self)
        ensures
            r@ == transactions@,
            ids_sorted(r@),
    {
        // The identifiers of a transaction set are sorted.
        let _ = transactions.ids();
        Confirmation(transactions)
    }

    pub fn transactions(&self) -> (r: &TransactionSet)
        ensures
            r@ == self@,
    {
        &self.0
    }

    /// Aggregates confirmation proposals by counting per-transaction confirmations.
    pub fn consensus_condition(proposals: &[&Confirmation], requirement: ByzantineRequirement) -> (r:
        Condition<Confirmation>)
        ensures
            confirmation_outcome(proposals@.map_values(|p: &Confirmation| p@), requirement, r@),
    {
        if !requirement.reaches_quorum(proposals.len()) {
            return Condition::InProgress;
        }
        let ghost ps = proposals@.map_values(|p: &Confirmation| p@);
        let mut sets: Vec<&TransactionSet> = Vec::new();
        let mut i: usize = 0;
        while i < proposals.len()
            invariant
                i <= proposals@.len(),
                sets@.len() == i,
                forall|k: int| 0 <= k < i ==> (#[trigger] sets@[k])@ == proposals@[k]@,
            decreases proposals@.len() - i,
        {
            sets.push(proposals[i].transactions());
            i = i + 1;
        }
        assert(sets@.map_values(|s: &TransactionSet| s@) =~= ps);
        let union = union_all(sets.as_slice());
        let candidates = union.ids();
        let mut merged = TransactionSet::new();
        let mut c: usize = 0;
        while c < candidates.len()
            invariant
                c <= candidates@.len(),
                candidates@ == union@,
                ids_sorted(union@),
                forall|x: Id| union@.contains(x) <==> held_by_some(ps, x),
                ps == proposals@.map_values(|p: &Confirmation| p@),
                sets@.len() == proposals@.len(),
                forall|k: int| 0 <= k < sets@.len() ==> (#[trigger] sets@[k])@ == ps[k],
                ids_sorted(merged@),
                forall|x: Id|
                    #[trigger] merged@.contains(x) <==> (in_prefix(candidates@, c as int, x) && holders(ps, x)
                        >= requirement.quorum),
            decreases candidates@.len() - c,
        {
            let id = candidates[c];
            let mut count: usize = 0;
            let mut k: usize = 0;
            while k < sets.len()
                invariant
                    k <= sets@.len(),
                    sets@.len() == ps.len(),
                    forall|t: int| 0 <= t < sets@.len() ==> (#[trigger] sets@[t])@ == ps[t],
                    count <= k,
                    count == holders(ps.take(k as int), id),
                decreases sets@.len() - k,
            {
                proof {
                    lemma_holders_push(ps, k as int, id);
                }
                if sets[k].contains(&id) {
                    count = count + 1;
                }
                k = k + 1;
            }
            assert(ps.take(k as int) =~= ps);
            let ghost old_c: int = c as int;
            let ghost prev = merged@;
            proof {
                lemma_in_prefix_step(candidates@, old_c);
                assert(forall|x: Id| #[trigger] prev.contains(x) <==> (in_prefix(candidates@, old_c, x) && holders(ps, x) >= requirement.quorum));
            }
            if requirement.reaches_quorum(count) {
                merged.add_id(id);
            }
            c = c + 1;
            proof {
                assert forall|x: Id|
                    #[trigger] merged@.contains(x) <==> (in_prefix(candidates@, c as int, x) && holders(ps, x)
                        >= requirement.quorum) by {
                    assert(prev.contains(x) <==> (in_prefix(candidates@, old_c, x) && holders(ps, x) >= requirement.quorum));
                    assert(in_prefix(candidates@, old_c + 1, x) <==> (in_prefix(candidates@, old_c, x) || x == candidates@[old_c]));
                }
            }
        }
        proof {
            lemma_in_prefix_full(candidates@);
            assert forall|x: Id|
                #[trigger] merged@.contains(x) <==> (held_by_some(ps, x) && holders(ps, x) >= requirement.quorum) by {
                assert(in_prefix(candidates@, c as int, x) <==> union@.contains(x));
            }
        }
        Condition::Consensus(Confirmation::from_transactions(merged))
    }
}

impl Ballot for BlockHeader {
    type Key = Seq<Id>;

    open spec fn key(&self) -> Seq<Id> {
        self@
    }

    fn same_ballot(&self, other: &Self) -> (r: bool) {
        self.0.same_as(&other.0)
    }

    fn ballot_precedes(&self, other: &Self) -> (r: bool) {
        self.0.precedes(&other.0)
    }

    fn copy_ballot(&self) -> (r: Self) {
        self.clone()
    }
}

impl BlockHeader {
    pub fn new() -> (r: Self)
        ensures
            r@.len() == 0,
    {
        BlockHeader(TransactionSet::new())
    }

    pub fn genesis() -> (r: Self)
        ensures
            r@.len() == 0,
    {
        BlockHeader(TransactionSet::new())
    }

    pub fn from_transactions(transactions: TransactionSet) -> (r: Self)
        ensures
            r@ == transactions@,
            ids_sorted(r@),
    {
        // The identifiers of a transaction set are sorted.
        let _ = transactions.ids();
        BlockHeader(transactions)
    }

    pub fn transactions(&self) -> (r: &TransactionSet)
        ensures
            r@ == self@,
    {
        &self.0
    }

    /// Aggregates exact block-header proposals with majority-style condition logic.
    pub fn aggregate(proposals: &[&BlockHeader], requirement: ByzantineRequirement) -> (r: Condition<
        BlockHeader,
    >)
        ensures
            majority_outcome(ballot_keys(proposals@), requirement, keyed(r)),
    {
        requirement.aggregate_majority(proposals)
    }
}


/// Layered proposal family for certificates.
#[derive(Debug, PartialEq, Eq, PartialOrd, Ord, Hash)]
pub enum Proposal {
    /// Availability values are merged to maximize candidate visibility.
    Availability(Availability),
    /// Confirmation values narrow candidates toward quorum-observed content.
    Confirmation(Confirmation),
    /// Block-header proposals finalize exact transaction ids before transition agreement.
    BlockHeader(BlockHeader),
    /// Transition proposals finalize post-state commitment.
    Transition(Transition),
    /// A broadcast of the subcommittee a replica observed at an index.
    SubcommitteeBroadcast(AegeriSubcommittee),
}

/// The view of a proposal.
pub ghost enum ProposalView {
    Availability(Seq<Id>),
    Confirmation(Seq<Id>),
    BlockHeader(Seq<Id>),
    Transition(TransitionView),
    SubcommitteeBroadcast(SubcommitteeView),
}

impl View for Proposal {
    type V = ProposalView;

    open spec fn view(&self) -> ProposalView {
        match self {
            Proposal::Availability(a) => ProposalView::Availability(a@),
            Proposal::Confirmation(c) => ProposalView::Confirmation(c@),
            Proposal::BlockHeader(b) => ProposalView::BlockHeader(b@),
            Proposal::Transition(t) => ProposalView::Transition(t@),
            Proposal::SubcommitteeBroadcast(s) => ProposalView::SubcommitteeBroadcast(s@),
        }
    }
}

impl Clone for Proposal {
    fn clone(&self) -> (r: Self)
        ensures
            r@ == self@,
    {
        match self {
            Proposal::Availability(a) => Proposal::Availability(a.clone()),
            Proposal::Confirmation(c) => Proposal::Confirmation(c.clone()),
            Proposal::BlockHeader(b) => Proposal::BlockHeader(b.clone()),
            Proposal::Transition(t) => Proposal::Transition(t.clone()),
            Proposal::SubcommitteeBroadcast(s) => Proposal::SubcommitteeBroadcast(s.clone()),
        }
    }
}

/// The availability values among `ps`, in order.
pub open spec fn availability_views(ps: Seq<ProposalView>) -> Seq<Seq<Id>>
    decreases ps.len(),
{
    if ps.len() == 0 {
        Seq::empty()
    } else {
        let rest = availability_views(ps.drop_last());
        match ps.last() {
            ProposalView::Availability(a) => rest.push(a),
            _ => rest,
        }
    }
}

/// The confirmation values among `ps`, in order.
pub open spec fn confirmation_views(ps: Seq<ProposalView>) -> Seq<Seq<Id>>
    decreases ps.len(),
{
    if ps.len() == 0 {
        Seq::empty()
    } else {
        let rest = confirmation_views(ps.drop_last());
        match ps.last() {
            ProposalView::Confirmation(a) => rest.push(a),
            _ => rest,
        }
    }
}

/// The block-header values among `ps`, in order.
pub open spec fn block_header_views(ps: Seq<ProposalView>) -> Seq<Seq<Id>>
    decreases ps.len(),
{
    if ps.len() == 0 {
        Seq::empty()
    } else {
        let rest = block_header_views(ps.drop_last());
        match ps.last() {
            ProposalView::BlockHeader(a) => rest.push(a),
            _ => rest,
        }
    }
}

/// The transition values among `ps`, in order.
pub open spec fn transition_views(ps: Seq<ProposalView>) -> Seq<TransitionView>
    decreases ps.len(),
{
    if ps.len() == 0 {
        Seq::empty()
    } else {
        let rest = transition_views(ps.drop_last());
        match ps.last() {
            ProposalView::Transition(a) => rest.push(a),
            _ => rest,
        }
    }
}

/// The outcome of aggregating the proposals `ps` for the stage of `index`: the
/// proposals of other stages are ignored; availability takes the union,
/// confirmation the quorum-held identifiers, block header and transition a
/// majority; an unassigned index stays in progress.
pub open spec fn stage_outcome(
    index: Index,
    ps: Seq<ProposalView>,
    req: ByzantineRequirement,
    r: Condition<ProposalView>,
) -> bool {
    match index {
        Index::Availability(_) => match r {
            Condition::Consensus(ProposalView::Availability(a)) => availability_outcome(
                availability_views(ps),
                req,
                Condition::Consensus(a),
            ),
            Condition::Consensus(_) => false,
            Condition::InProgress => availability_outcome(availability_views(ps), req, Condition::InProgress),
            Condition::Hung => availability_outcome(availability_views(ps), req, Condition::Hung),
        },
        Index::Confirmation(_) => match r {
            Condition::Consensus(ProposalView::Confirmation(a)) => confirmation_outcome(
                confirmation_views(ps),
                req,
                Condition::Consensus(a),
            ),
            Condition::Consensus(_) => false,
            Condition::InProgress => confirmation_outcome(confirmation_views(ps), req, Condition::InProgress),
            Condition::Hung => confirmation_outcome(confirmation_views(ps), req, Condition::Hung),
        },
        Index::Block(_) => match r {
            Condition::Consensus(ProposalView::BlockHeader(a)) => majority_outcome(
                block_header_views(ps),
                req,
                Condition::Consensus(a),
            ),
            Condition::Consensus(_) => false,
            Condition::InProgress => majority_outcome(block_header_views(ps), req, Condition::InProgress),
            Condition::Hung => majority_outcome(block_header_views(ps), req, Condition::Hung),
        },
        Index::Transition(_) => match r {
            Condition::Consensus(ProposalView::Transition(a)) => majority_outcome(
                transition_views(ps),
                req,
                Condition::Consensus(a),
            ),
            Condition::Consensus(_) => false,
            Condition::InProgress => majority_outcome(transition_views(ps), req, Condition::InProgress),
            Condition::Hung => majority_outcome(transition_views(ps), req, Condition::Hung),
        },
        Index::Unassigned => r is InProgress,
    }
}

/// Keeping the values of one stage never lengthens a sequence of proposals.
proof fn lemma_stage_views_len(ps: Seq<ProposalView>)
    ensures
        availability_views(ps).len() <= ps.len(),
        confirmation_views(ps).len() <= ps.len(),
        block_header_views(ps).len() <= ps.len(),
        transition_views(ps).len() <= ps.len(),
    decreases ps.len(),
{
    if ps.len() > 0 {
        lemma_stage_views_len(ps.drop_last());
    }
}

/// A value has no more votes than there are votes.
proof fn lemma_votes_le_len<K>(s: Seq<K>, v: K)
    ensures
        votes(s, v) <= s.len(),
    decreases s.len(),
{
    if s.len() > 0 {
        lemma_votes_le_len(s.drop_last(), v);
    }
}

/// No stage reaches consensus with fewer proposals than the quorum: whatever the
/// stage, a consensus outcome needs at least `req.quorum` proposals.
pub proof fn lemma_consensus_needs_quorum(index: Index, ps: Seq<ProposalView>, req: ByzantineRequirement, v: ProposalView)
    requires
        stage_outcome(index, ps, req, Condition::Consensus(v)),
    ensures
        ps.len() >= req.quorum,
{
    lemma_stage_views_len(ps);
    match index {
        Index::Block(_) => {
            if let ProposalView::BlockHeader(w) = v {
                lemma_votes_le_len(block_header_views(ps), w);
            }
        },
        Index::Transition(_) => {
            if let ProposalView::Transition(w) = v {
                lemma_votes_le_len(transition_views(ps), w);
            }
        },
        _ => {},
    }
}

/// At a confirmation index, an identifier is in the agreed confirmation only if
/// at least a quorum of the confirmation proposals hold it, and every identifier
/// that a quorum of them holds is in it: a single replica cannot confirm a
/// transaction on its own.
pub proof fn lemma_confirmation_stage_keeps_quorum_held(
    index: Index,
    ps: Seq<ProposalView>,
    req: ByzantineRequirement,
    c: Seq<Id>,
)
    requires
        index is Confirmation,
        req.quorum > 0,
        stage_outcome(index, ps, req, Condition::Consensus(ProposalView::Confirmation(c))),
    ensures
        forall|x: Id| #[trigger] c.contains(x) ==> holders(confirmation_views(ps), x) >= req.quorum,
        forall|x: Id| holders(confirmation_views(ps), x) >= req.quorum ==> #[trigger] c.contains(x),
        ids_sorted(c),
{
    let cv = confirmation_views(ps);
    assert forall|x: Id| holders(cv, x) >= req.quorum implies #[trigger] c.contains(x) by {
        lemma_holders_held(cv, x);
    }
}

/// An identifier that some set holds is held by one of them.
proof fn lemma_holders_held(ps: Seq<Seq<Id>>, x: Id)
    ensures
        holders(ps, x) > 0 ==> held_by_some(ps, x),
    decreases ps.len(),
{
    if ps.len() > 0 {
        lemma_holders_held(ps.drop_last(), x);
        if holders(ps.drop_last(), x) > 0 {
            let k = choose|k: int| 0 <= k < ps.drop_last().len() && (#[trigger] ps.drop_last()[k]).contains(x);
            assert(ps[k] == ps.drop_last()[k]);
        } else if ps.last().contains(x) {
            assert(ps[ps.len() - 1].contains(x));
        }
    }
}

/// The views of a sequence of proposal references.
pub open spec fn proposal_views(ps: Seq<&Proposal>) -> Seq<ProposalView> {
    ps.map_values(|p: &Proposal| p@)
}

impl Proposal {
    pub fn genesis() -> (r: Self)
        ensures
            r@ == ProposalView::Availability(Seq::empty()),
    {
        let a = Availability::genesis();
        assert(a@ =~= Seq::<Id>::empty());
        Proposal::Availability(a)
    }

    /// Aggregates proposals for the given stage index.
    ///
    /// Proposals that do not match the index stage are ignored.
    pub fn consensus_condition_for_index(
        index: &Index,
        proposals: &[&Proposal],
        requirement: ByzantineRequirement,
    ) -> (r: Condition<Proposal>)
        ensures
            stage_outcome(*index, proposal_views(proposals@), requirement, r@),
    {
        let ghost pv = proposal_views(proposals@);
        match index {
            Index::Availability(_) => {
                let mut picked: Vec<&Availability> = Vec::new();
                let mut i: usize = 0;
                while i < proposals.len()
                    invariant
                        i <= proposals@.len(),
                        pv == proposal_views(proposals@),
                        picked@.map_values(|p: &Availability| p@) == availability_views(pv.take(i as int)),
                    decreases proposals@.len() - i,
                {
                    proof {
                        assert(pv.take(i + 1).drop_last() =~= pv.take(i as int));
                    }
                    let ghost before = picked@;
                    match proposals[i] {
                        Proposal::Availability(value) => {
                            picked.push(value);
                            assert(picked@.map_values(|p: &Availability| p@) =~= before.map_values(|p: &Availability| p@).push(value@));
                        },
                        _ => {},
                    }
                    i = i + 1;
                }
                assert(pv.take(proposals@.len() as int) =~= pv);
                match Availability::consensus_condition(picked.as_slice(), requirement) {
                    Condition::Consensus(value) => Condition::Consensus(Proposal::Availability(value)),
                    Condition::InProgress => Condition::InProgress,
                    Condition::Hung => Condition::Hung,
                }
            },
            Index::Confirmation(_) => {
                let mut picked: Vec<&Confirmation> = Vec::new();
                let mut i: usize = 0;
                while i < proposals.len()
                    invariant
                        i <= proposals@.len(),
                        pv == proposal_views(proposals@),
                        picked@.map_values(|p: &Confirmation| p@) == confirmation_views(pv.take(i as int)),
                    decreases proposals@.len() - i,
                {
                    proof {
                        assert(pv.take(i + 1).drop_last() =~= pv.take(i as int));
                    }
                    let ghost before = picked@;
                    match proposals[i] {
                        Proposal::Confirmation(value) => {
                            picked.push(value);
                            assert(picked@.map_values(|p: &Confirmation| p@) =~= before.map_values(|p: &Confirmation| p@).push(value@));
                        },
                        _ => {},
                    }
                    i = i + 1;
                }
                assert(pv.take(proposals@.len() as int) =~= pv);
                match Confirmation::consensus_condition(picked.as_slice(), requirement) {
                    Condition::Consensus(value) => Condition::Consensus(Proposal::Confirmation(value)),
                    Condition::InProgress => Condition::InProgress,
                    Condition::Hung => Condition::Hung,
                }
            },
            Index::Block(_) => {
                let mut picked: Vec<&BlockHeader> = Vec::new();
                let mut i: usize = 0;
                while i < proposals.len()
                    invariant
                        i <= proposals@.len(),
                        pv == proposal_views(proposals@),
                        ballot_keys(picked@) == block_header_views(pv.take(i as int)),
                    decreases proposals@.len() - i,
                {
                    proof {
                        assert(pv.take(i + 1).drop_last() =~= pv.take(i as int));
                    }
                    let ghost before = picked@;
                    match proposals[i] {
                        Proposal::BlockHeader(value) => {
                            picked.push(value);
                            assert(ballot_keys(picked@) =~= ballot_keys(before).push(value@));
                        },
                        _ => {},
                    }
                    i = i + 1;
                }
                assert(pv.take(proposals@.len() as int) =~= pv);
                match BlockHeader::aggregate(picked.as_slice(), requirement) {
                    Condition::Consensus(value) => Condition::Consensus(Proposal::BlockHeader(value)),
                    Condition::InProgress => Condition::InProgress,
                    Condition::Hung => Condition::Hung,
                }
            },
            Index::Transition(_) => {
                let mut picked: Vec<&Transition> = Vec::new();
                let mut i: usize = 0;
                while i < proposals.len()
                    invariant
                        i <= proposals@.len(),
                        pv == proposal_views(proposals@),
                        ballot_keys(picked@) == transition_views(pv.take(i as int)),
                    decreases proposals@.len() - i,
                {
                    proof {
                        assert(pv.take(i + 1).drop_last() =~= pv.take(i as int));
                    }
                    let ghost before = picked@;
                    match proposals[i] {
                        Proposal::Transition(value) => {
                            picked.push(value);
                            assert(ballot_keys(picked@) =~= ballot_keys(before).push(value@));
                        },
                        _ => {},
                    }
                    i = i + 1;
                }
                assert(pv.take(proposals@.len() as int) =~= pv);
                match Transition::aggregate(picked.as_slice(), requirement) {
                    Condition::Consensus(value) => Condition::Consensus(Proposal::Transition(value)),
                    Condition::InProgress => Condition::InProgress,
                    Condition::Hung => Condition::Hung,
                }
            },
            Index::Unassigned => Condition::InProgress,
        }
    }

    /// The joiners and leavers of a transition proposal, each as a one-member
    /// subcommittee at the unassigned index; none for other proposals.
    pub fn joiners_and_leavers(&self) -> (r: Option<(Vec<AegeriSubcommittee>, Vec<AegeriSubcommittee>)>)
        ensures
            r is Some <==> self is Transition,
            r matches Some((joiners, leavers)) ==> self matches Proposal::Transition(t) && singletons_of(
                joiners@,
                t@.join_set.joiners,
            ) && singletons_of(leavers@, t@.join_set.leavers),
    {
        match self {
            Proposal::Transition(value) => {
                let joiners = singleton_subcommittees(value.join_set().joiners());
                let leavers = singleton_subcommittees(value.join_set().leavers());
                Some((joiners, leavers))
            },
            _ => None,
        }
    }

    /// Whether two proposals are the same value.
    pub fn same_as(&self, other: &Proposal) -> (r: bool)
        ensures
            r == (self@ == other@),
    {
        match (self, other) {
            (Proposal::Availability(a), Proposal::Availability(b)) => a.0.same_as(&b.0),
            (Proposal::Confirmation(a), Proposal::Confirmation(b)) => a.0.same_as(&b.0),
            (Proposal::BlockHeader(a), Proposal::BlockHeader(b)) => a.0.same_as(&b.0),
            (Proposal::Transition(a), Proposal::Transition(b)) => a.same_ballot(b),
            (Proposal::SubcommitteeBroadcast(a), Proposal::SubcommitteeBroadcast(b)) => a.same_as(b),
            _ => false,
        }
    }
}

/// `subs` are one-member subcommittees at the unassigned index, one for each key of
/// `keys`, in order.
pub open spec fn singletons_of(subs: Seq<AegeriSubcommittee>, keys: Seq<Seq<u8>>) -> bool {
    &&& subs.len() == keys.len()
    &&& forall|i: int|
        0 <= i < subs.len() ==> (#[trigger] subs[i])@.index == Index::Unassigned && keys_sorted(
            subs[i]@.members,
        ) && forall|x: Seq<u8>| subs[i]@.members.contains(x) <==> x == keys[i]
}

fn singleton_subcommittees(keys: &Vec<PublicKey>) -> (r: Vec<AegeriSubcommittee>)
    ensures
        singletons_of(r@, key_views(keys@)),
{
    let mut r: Vec<AegeriSubcommittee> = Vec::new();
    let mut i: usize = 0;
    while i < keys.len()
        invariant
            i <= keys@.len(),
            r@.len() == i,
            forall|k: int|
                0 <= k < i ==> (#[trigger] r@[k])@.index == Index::Unassigned && keys_sorted(
                    r@[k]@.members,
                ) && forall|x: Seq<u8>| r@[k]@.members.contains(x) <==> x == keys@[k]@,
        decreases keys@.len() - i,
    {
        let mut one: Vec<PublicKey> = Vec::new();
        one.push(keys[i].clone());
        proof {
            assert(key_views(one@) =~= seq![keys@[i as int]@]);
        }
        let sub = AegeriSubcommittee::new(Index::Unassigned).with_members(one);
        proof {
            assert forall|x: Seq<u8>| sub@.members.contains(x) <==> x == keys@[i as int]@ by {
                if x == keys@[i as int]@ {
                    assert(key_views(one@)[0] == x);
                }
            }
        }
        r.push(sub);
        i = i + 1;
    }
    r
}

} // verus!
