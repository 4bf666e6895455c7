//! Transition proposals: the post-state commitment of a round.
use crate::id::Id;
use crate::keys::{copy_bytes, copy_keys, key_views, keys_equal, keys_precede, PublicKey};
use crate::order::{bytes_equal, bytes_precede, lemma_lex_irreflexive, lemma_lex_total, lemma_lex_transitive, lex_precedes, SpecOrder};
use crate::quorum::{ballot_keys, keyed, majority_outcome, Ballot, ByzantineRequirement, Condition};
use crate::transaction_set::TransactionSet;
use vstd::prelude::*;

verus! {

/// State root produced by execution.
#[derive(Debug, PartialEq, Eq, PartialOrd, Ord, Hash)]
pub struct StateRoot(pub Vec<u8>);

impl View for StateRoot {
    type V = Seq<u8>;

    open spec fn view(&self) -> Seq<u8> {
        self.0@
    }
}

impl Clone for StateRoot {
    fn clone(&self) -> (r: Self)
        ensures
            r@ == self@,
    {
        StateRoot(copy_bytes(&self.0))
    }
}

impl StateRoot {
    pub fn new(root: Vec<u8>) -> (r: Self)
        ensures
            r@ == root@,
    {
        StateRoot(root)
    }

    pub fn as_bytes(&self) -> (r: &[u8])
        ensures
            r@ == self@,
    {
        self.0.as_slice()
    }
}

/// The joiners and leavers of the subcommittee included in a transition.
#[derive(Debug, PartialEq, Eq, PartialOrd, Ord, Hash)]
pub struct JoinSet {
    joiners: Vec<PublicKey>,
    leavers: Vec<PublicKey>,
}

/// The view of a join set: the keys of its joiners and of its leavers, in order.
pub ghost struct JoinSetView {
    pub joiners: Seq<Seq<u8>>,
    pub leavers: Seq<Seq<u8>>,
}

impl View for JoinSet {
    type V = JoinSetView;

    closed spec fn view(&self) -> JoinSetView {
        JoinSetView { joiners: key_views(self.joiners@), leavers: key_views(self.leavers@) }
    }
}

impl Clone for JoinSet {
    fn clone(&self) -> (r: Self)
        ensures
            r@ == self@,
    {
        JoinSet { joiners: copy_keys(&self.joiners), leavers: copy_keys(&self.leavers) }
    }
}

impl JoinSet {
    pub fn new() -> (r: Self)
        ensures
            r@.joiners.len() == 0,
            r@.leavers.len() == 0,
    {
        JoinSet { joiners: Vec::new(), leavers: Vec::new() }
    }

    pub fn add_joiner(&mut self, joiner: PublicKey)
        ensures
            final(self)@.joiners == old(self)@.joiners.push(joiner@),
            final(self)@.leavers == old(self)@.leavers,
    {
        self.joiners.push(joiner);
        assert(key_views(self.joiners@) =~= key_views(old(self).joiners@).push(joiner@));
    }

    pub fn add_leaver(&mut self, leaver: PublicKey)
        ensures
            final(self)@.leavers == old(self)@.leavers.push(leaver@),
            final(self)@.joiners == old(self)@.joiners,
    {
        self.leavers.push(leaver);
        assert(key_views(self.leavers@) =~= key_views(old(self).leavers@).push(leaver@));
    }

    pub fn joiners(&self) -> (r: &Vec<PublicKey>)
        ensures
            key_views(r@) == self@.joiners,
    {
        &self.joiners
    }

    pub fn leavers(&self) -> (r: &Vec<PublicKey>)
        ensures
            key_views(r@) == self@.leavers,
    {
        &self.leavers
    }
}

/// Transition proposal: exact post-state commitment.
#[derive(Debug, PartialEq, Eq, PartialOrd, Ord, Hash)]
pub struct Transition {
    block: TransactionSet,
    state_root: StateRoot,
    join_set: JoinSet,
}

/// The view of a transition.
pub ghost struct TransitionView {
    pub block: Seq<Id>,
    pub state_root: Seq<u8>,
    pub join_set: JoinSetView,
}

impl View for Transition {
    type V = TransitionView;

    closed spec fn view(&self) -> TransitionView {
        TransitionView { block: self.block@, state_root: self.state_root@, join_set: self.join_set@ }
    }
}

/// Transitions are ordered by block, then state root, then joiners, then leavers.
impl SpecOrder for TransitionView {
    open spec fn precedes(self, other: TransitionView) -> bool {
        ||| lex_precedes(self.block, other.block)
        ||| (self.block == other.block && lex_precedes(self.state_root, other.state_root))
        ||| (self.block == other.block && self.state_root == other.state_root && lex_precedes(
            self.join_set.joiners,
            other.join_set.joiners,
        ))
        ||| (self.block == other.block && self.state_root == other.state_root
            && self.join_set.joiners == other.join_set.joiners && lex_precedes(
            self.join_set.leavers,
            other.join_set.leavers,
        ))
    }

    proof fn lemma_transitive(a: TransitionView, b: TransitionView, c: TransitionView) {
        lemma_lex_irreflexive(a.block);
        lemma_lex_irreflexive(a.state_root);
        lemma_lex_irreflexive(a.join_set.joiners);
        lemma_lex_irreflexive(a.join_set.leavers);
        if lex_precedes(a.block, b.block) && lex_precedes(b.block, c.block) {
            lemma_lex_transitive(a.block, b.block, c.block);
        }
        if lex_precedes(a.state_root, b.state_root) && lex_precedes(b.state_root, c.state_root) {
            lemma_lex_transitive(a.state_root, b.state_root, c.state_root);
        }
        if lex_precedes(a.join_set.joiners, b.join_set.joiners) && lex_precedes(
            b.join_set.joiners,
            c.join_set.joiners,
        ) {
            lemma_lex_transitive(a.join_set.joiners, b.join_set.joiners, c.join_set.joiners);
        }
        if lex_precedes(a.join_set.leavers, b.join_set.leavers) && lex_precedes(
            b.join_set.leavers,
            c.join_set.leavers,
        ) {
            lemma_lex_transitive(a.join_set.leavers, b.join_set.leavers, c.join_set.leavers);
        }
    }

    proof fn lemma_irreflexive(a: TransitionView) {
        lemma_lex_irreflexive(a.block);
        lemma_lex_irreflexive(a.state_root);
        lemma_lex_irreflexive(a.join_set.joiners);
        lemma_lex_irreflexive(a.join_set.leavers);
    }

    proof fn lemma_total(a: TransitionView, b: TransitionView) {
        lemma_lex_total(a.block, b.block);
        lemma_lex_total(a.state_root, b.state_root);
        lemma_lex_total(a.join_set.joiners, b.join_set.joiners);
        lemma_lex_total(a.join_set.leavers, b.join_set.leavers);
    }
}

impl Clone for Transition {
    fn clone(&self) -> (r: Self)
        ensures
            r@ == self@,
    {
        Transition {
            block: self.block.clone(),
            state_root: self.state_root.clone(),
            join_set: self.join_set.clone(),
        }
    }
}

impl Ballot for Transition {
    type Key = TransitionView;

    open spec fn key(&self) -> TransitionView {
        self@
    }

    fn same_ballot(&self, other: &Self) -> (r: bool) {
        let r = self.block.same_as(&other.block) && bytes_equal(
            self.state_root.0.as_slice(),
            other.state_root.0.as_slice(),
        ) && keys_equal(&self.join_set.joiners, &other.join_set.joiners) && keys_equal(
            &self.join_set.leavers,
            &other.join_set.leavers,
        );
        r
    }

    fn ballot_precedes(&self, other: &Self) -> (r: bool) {
        proof {
            lemma_lex_irreflexive(self@.block);
            lemma_lex_irreflexive(self@.state_root);
            lemma_lex_irreflexive(self@.join_set.joiners);
        }
        if !self.block.same_as(&other.block) {
            return self.block.precedes(&other.block);
        }
        if !bytes_equal(self.state_root.0.as_slice(), other.state_root.0.as_slice()) {
            return bytes_precede(self.state_root.0.as_slice(), other.state_root.0.as_slice());
        }
        if !keys_equal(&self.join_set.joiners, &other.join_set.joiners) {
            return keys_precede(&self.join_set.joiners, &other.join_set.joiners);
        }
        keys_precede(&self.join_set.leavers, &other.join_set.leavers)
    }

    fn copy_ballot(&self) -> (r: Self) {
        self.clone()
    }
}

impl Transition {
    pub fn new(block: TransactionSet, state_root: StateRoot, join_set: JoinSet) -> (r: Self)
        ensures
            r@ == (TransitionView { block: block@, state_root: state_root@, join_set: join_set@ }),
    {
        Transition { block, state_root, join_set }
    }

    /// The transition of the genesis round: no transaction, empty state root, no join.
    pub fn genesis() -> (r: Self)
        ensures
            r@.block.len() == 0,
            r@.state_root.len() == 0,
            r@.join_set.joiners.len() == 0,
            r@.join_set.leavers.len() == 0,
    {
        Self::new(TransactionSet::new(), StateRoot::new(Vec::new()), JoinSet::new())
    }

    pub fn block(&self) -> (r: &TransactionSet)
        ensures
            r@ == self@.block,
    {
        &self.block
    }

    pub fn state_root(&self) -> (r: &StateRoot)
        ensures
            r@ == self@.state_root,
    {
        &self.state_root
    }

    pub fn join_set(&self) -> (r: &JoinSet)
        ensures
            r@ == self@.join_set,
    {
        &self.join_set
    }

    /// Aggregates exact transition proposals with majority-style condition logic.
    pub fn aggregate(proposals: &[&Transition], requirement: ByzantineRequirement) -> (r: Condition<
        Transition,
    >)
        ensures
            majority_outcome(ballot_keys(proposals@), requirement, keyed(r)),
    {
        requirement.aggregate_majority(proposals)
    }
}

} // verus!
