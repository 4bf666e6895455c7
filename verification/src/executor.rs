//! Task-side execution of transaction flows.
//!
//! The executor walks the transactions of a flow in order: an ELF transaction is
//! handed to the machine that runs programs (supplied by the caller), a join is
//! counted. Executing a block also commits its transition: its transaction IDs,
//! the state root, and the signers that join and leave.
use crate::block::{message_views, view_ids, Block};
use crate::id::Id;
use crate::message::{Elf, MessageView, Transaction, TransactionView};
use crate::proposal::singletons_of;
use crate::subcommittee::{member_of_any, AegeriSubcommittee};
use crate::transaction_set::{ids_sorted, lemma_sorted_ids_unique, TransactionSet};
use crate::transition::{JoinSet, StateRoot, Transition, TransitionView};
use vstd::prelude::*;

verus! {

/// Result of one task-flow pass over a transaction set.
#[derive(Debug, Clone, Copy, PartialEq, Eq, Structural)]
pub struct TaskFlowResult {
    pub executed_elf_count: usize,
    pub join_count: usize,
}

impl Default for TaskFlowResult {
    /// No ELF executed and no join counted.
    fn default() -> (r: Self)
        ensures
            r.executed_elf_count == 0,
            r.join_count == 0,
    {
        TaskFlowResult { executed_elf_count: 0, join_count: 0 }
    }
}

/// Why running an ELF transaction failed, with the machine's message.
#[derive(Debug, Clone, PartialEq, Eq)]
pub enum TaskFlowError {
    /// Failed to load or parse the ELF payload.
    ElfLoader(String),
    /// Failed while running the machine.
    Machine(String),
}

/// Why executing a block failed.
#[derive(Debug, Clone, PartialEq, Eq)]
pub enum AegeriExecutionError {
    /// One of its ELF transactions failed.
    TaskFlow(TaskFlowError),
}

/// The number of join transactions among `s`.
pub open spec fn join_count(s: Seq<TransactionView>) -> nat
    decreases s.len(),
{
    if s.len() == 0 {
        0
    } else {
        join_count(s.drop_last()) + if s.last() is Join { 1nat } else { 0nat }
    }
}

/// The number of ELF transactions among `s`.
pub open spec fn elf_count(s: Seq<TransactionView>) -> nat
    decreases s.len(),
{
    if s.len() == 0 {
        0
    } else {
        elf_count(s.drop_last()) + if s.last() is Elf { 1nat } else { 0nat }
    }
}

proof fn lemma_counts_bounded(s: Seq<TransactionView>)
    ensures
        join_count(s) <= s.len(),
        elf_count(s) <= s.len(),
    decreases s.len(),
{
    if s.len() > 0 {
        lemma_counts_bounded(s.drop_last());
    }
}

/// The views of a sequence of transactions.
pub open spec fn transaction_views(s: Seq<Transaction>) -> Seq<TransactionView> {
    s.map_values(|t: Transaction| t@)
}

/// `run` succeeded on every ELF transaction among the first `n` of `s`.
pub open spec fn elves_ran<F: Fn(&Elf) -> Result<(), TaskFlowError>>(run: F, s: Seq<Transaction>, n: int) -> bool {
    forall|k: int| 0 <= k < n && (#[trigger] s[k]) is Elf ==> call_ensures(run, (&s[k]->Elf_0,), Ok(()))
}

impl Default for AegeriExecutor {
    fn default() -> (r: Self)
        ensures
            r == (AegeriExecutor {}),
    {
        AegeriExecutor::new()
    }
}

/// The keys of the signers of the messages of `s` whose payload satisfies `p`, in order.
pub open spec fn signers_where(s: Seq<MessageView<TransactionView>>, p: spec_fn(TransactionView) -> bool) -> Seq<Seq<u8>>
    decreases s.len(),
{
    if s.len() == 0 {
        Seq::empty()
    } else if p(s.last().payload) {
        signers_where(s.drop_last(), p).push(s.last().public_key)
    } else {
        signers_where(s.drop_last(), p)
    }
}

/// The IDs of the messages of `b`, each once, in ascending order.
pub open spec fn block_ids(b: Seq<MessageView<TransactionView>>) -> Seq<Id> {
    choose|s: Seq<Id>| ids_sorted(s) && forall|x: Id| #[trigger] s.contains(x) <==> view_ids(b).contains(x)
}

/// The transition that a block commits: its transaction IDs in ascending order, an
/// empty state root, the signers of its join transactions as joiners and those of
/// its leave transactions as leavers, in block order.
pub open spec fn block_transition(b: Seq<MessageView<TransactionView>>) -> TransitionView {
    TransitionView {
        block: block_ids(b),
        state_root: Seq::empty(),
        join_set: crate::transition::JoinSetView {
            joiners: signers_where(b, |t: TransactionView| t is Join),
            leavers: signers_where(b, |t: TransactionView| t is Leave),
        },
    }
}

/// Fuste-backed task executor for Aegeri transaction flows.
///
/// - `Transaction::Elf` is handed to the machine that runs ELF programs.
/// - `Transaction::Join` is counted for task-side joiner handling.
#[derive(Debug)]
pub struct AegeriExecutor {}

impl AegeriExecutor {
    pub fn new() -> (r: Self)
        ensures
            r == (AegeriExecutor {}),
    {
        AegeriExecutor {}
    }

    /// Executes the transactions in order: each ELF transaction is run by
    /// `run_elf`, and the first failure stops the flow with its error; joins are
    /// counted.
    pub fn execute<F: Fn(&Elf) -> Result<(), TaskFlowError>>(&self, transactions: &[Transaction], run_elf: &F) -> (r:
        Result<TaskFlowResult, TaskFlowError>)
        requires
            forall|e: &Elf| call_requires(*run_elf, (e,)),
        ensures
            match r {
                Ok(res) => res.join_count == join_count(transaction_views(transactions@))
                    && res.executed_elf_count == elf_count(transaction_views(transactions@))
                    && elves_ran(*run_elf, transactions@, transactions@.len() as int),
                Err(e) => exists|i: int|
                    0 <= i < transactions@.len() && (#[trigger] transactions@[i]) is Elf && elves_ran(
                        *run_elf,
                        transactions@,
                        i,
                    ) && call_ensures(*run_elf, (&transactions@[i]->Elf_0,), Err(e)),
            },
            (forall|i: int| 0 <= i < transactions@.len() ==> !(#[trigger] transactions@[i] is Elf)) ==> r is Ok,
    {
        let mut executed_elf_count: usize = 0;
        let mut joins: usize = 0;
        let mut i: usize = 0;
        let ghost tv = transaction_views(transactions@);
        proof {
            lemma_counts_bounded(tv);
        }
        while i < transactions.len()
            invariant
                i <= transactions@.len(),
                tv == transaction_views(transactions@),
                forall|e: &Elf| call_requires(*run_elf, (e,)),
                joins == join_count(tv.take(i as int)),
                executed_elf_count == elf_count(tv.take(i as int)),
                elves_ran(*run_elf, transactions@, i as int),
            decreases transactions@.len() - i,
        {
            proof {
                assert(tv.take(i + 1).drop_last() =~= tv.take(i as int));
                assert(tv.take(i + 1).last() == transactions@[i as int]@);
                lemma_counts_bounded(tv.take(i + 1));
            }
            match &transactions[i] {
                Transaction::Elf(elf) => {
                    let outcome = run_elf(elf);
                    proof {
                        assert(*elf == transactions@[i as int]->Elf_0);
                        assert(call_ensures(*run_elf, (&transactions@[i as int]->Elf_0,), outcome));
                    }
                    match outcome {
                        Ok(()) => {
                            proof {
                                let u: () = outcome->Ok_0;
                                assert(u == ());
                                assert(outcome == Ok::<(), TaskFlowError>(()));
                            }
                        },
                        Err(e) => {
                            return Err(e);
                        },
                    }
                    executed_elf_count = executed_elf_count + 1;
                },
                Transaction::Join => {
                    joins = joins + 1;
                },
                Transaction::Leave => {},
            }
            proof {
                assert forall|k: int| 0 <= k < i + 1 && (#[trigger] transactions@[k]) is Elf implies call_ensures(
                    *run_elf,
                    (&transactions@[k]->Elf_0,),
                    Ok(()),
                ) by {
                    if k < i {
                        assert(elves_ran(*run_elf, transactions@, i as int));
                    }
                }
            }
            i = i + 1;
        }
        proof {
            assert(tv.take(i as int) =~= tv);
        }
        Ok(TaskFlowResult { executed_elf_count, join_count: joins })
    }

    /// Executes a block's transactions (see `execute`) and returns the transition
    /// it commits (see `block_transition`).
    pub fn execute_block<F: Fn(&Elf) -> Result<(), TaskFlowError>>(&self, block: &Block, run_elf: &F) -> (r: Result<
        Transition,
        AegeriExecutionError,
    >)
        requires
            forall|e: &Elf| call_requires(*run_elf, (e,)),
        ensures
            exists|payloads: Seq<Transaction>|
                #![trigger transaction_views(payloads)]
                transaction_views(payloads) == block@.map_values(|m: MessageView<TransactionView>| m.payload) && match r {
                    Ok(t) => t@ == block_transition(block@) && elves_ran(*run_elf, payloads, payloads.len() as int),
                    Err(AegeriExecutionError::TaskFlow(e)) => exists|i: int|
                        0 <= i < payloads.len() && (#[trigger] payloads[i]) is Elf && elves_ran(*run_elf, payloads, i)
                            && call_ensures(*run_elf, (&payloads[i]->Elf_0,), Err(e)),
                },
            (forall|i: int| 0 <= i < block@.len() ==> !(#[trigger] block@[i].payload is Elf)) ==> r is Ok,
    {
        let messages = block.transactions();
        let ghost bv = block@;
        let mut payloads: Vec<Transaction> = Vec::new();
        let mut ids = TransactionSet::new();
        let mut join_set = JoinSet::new();
        let mut i: usize = 0;
        while i < messages.len()
            invariant
                i <= messages@.len(),
                message_views(messages@) == bv,
                transaction_views(payloads@) == bv.take(i as int).map_values(|m: MessageView<TransactionView>| m.payload),
                forall|x: Id| ids@.contains(x) <==> view_ids(bv).take(i as int).contains(x),
                ids_sorted(ids@),
                join_set@.joiners == signers_where(bv.take(i as int), |t: TransactionView| t is Join),
                join_set@.leavers == signers_where(bv.take(i as int), |t: TransactionView| t is Leave),
            decreases messages@.len() - i,
        {
            let m = &messages[i];
            let ghost mv = bv[i as int];
            proof {
                assert(m@ == mv);
                assert(bv.take(i + 1).drop_last() =~= bv.take(i as int));
                assert(bv.take(i + 1).last() == mv);
                assert(view_ids(bv).take(i + 1) =~= view_ids(bv).take(i as int).push(mv.id));
            }
            let ghost before_payloads = payloads@;
            payloads.push(m.payload().clone());
            proof {
                assert(transaction_views(payloads@) =~= transaction_views(before_payloads).push(mv.payload));
                assert(bv.take(i + 1).map_values(|m: MessageView<TransactionView>| m.payload) =~= bv.take(
                    i as int,
                ).map_values(|m: MessageView<TransactionView>| m.payload).push(mv.payload));
            }
            ids.add_id(*m.id());
            proof {
                assert forall|x: Id| ids@.contains(x) <==> view_ids(bv).take(i + 1).contains(x) by {
                    let t = view_ids(bv).take(i as int);
                    if t.push(mv.id).contains(x) && x != mv.id {
                        let q = choose|q: int| 0 <= q < t.len() + 1 && t.push(mv.id)[q] == x;
                        assert(t[q] == x);
                    }
                    if t.contains(x) {
                        let q = choose|q: int| 0 <= q < t.len() && t[q] == x;
                        assert(t.push(mv.id)[q] == x);
                    }
                    if x == mv.id {
                        assert(t.push(mv.id)[t.len() as int] == x);
                    }
                }
            }
            match m.payload() {
                Transaction::Join => {
                    join_set.add_joiner(m.public_key().clone());
                },
                Transaction::Leave => {
                    join_set.add_leaver(m.public_key().clone());
                },
                Transaction::Elf(_) => {},
            }
            i = i + 1;
        }
        proof {
            assert(bv.take(i as int) =~= bv);
            assert(view_ids(bv).take(i as int) =~= view_ids(bv));
            assert(ids_sorted(ids@) && forall|x: Id| #[trigger] ids@.contains(x) <==> view_ids(bv).contains(x));
            let c = block_ids(bv);
            lemma_sorted_ids_unique(ids@, c);
        }
        let state_root = StateRoot::new(Vec::new());
        let ghost pv = payloads@;
        let outcome = self.execute(payloads.as_slice(), run_elf);
        proof {
            assert(transaction_views(pv) == bv.map_values(|m: MessageView<TransactionView>| m.payload));
            assert forall|k: int| 0 <= k < pv.len() && (#[trigger] pv[k]) is Elf implies bv[k].payload is Elf by {
                assert(transaction_views(pv)[k] == pv[k]@);
            }
        }
        match outcome {
            Ok(_) => Ok(Transition::new(ids, state_root, join_set)),
            Err(e) => Err(AegeriExecutionError::TaskFlow(e)),
        }
    }
}

/// A signer is among the signers of `s` that satisfy `p` exactly when some message
/// of `s` whose payload satisfies `p` is signed by it.
pub proof fn lemma_signers_where(s: Seq<MessageView<TransactionView>>, p: spec_fn(TransactionView) -> bool, x: Seq<u8>)
    ensures
        signers_where(s, p).contains(x) <==> exists|i: int| 0 <= i < s.len() && p(#[trigger] s[i].payload) && s[i].public_key == x,
    decreases s.len(),
{
    if s.len() > 0 {
        let t = s.drop_last();
        lemma_signers_where(t, p, x);
        if p(s.last().payload) {
            crate::transaction_set::lemma_push_contains(signers_where(t, p), s.last().public_key, x);
        }
        if exists|i: int| 0 <= i < s.len() && p(#[trigger] s[i].payload) && s[i].public_key == x {
            let i = choose|i: int| 0 <= i < s.len() && p(#[trigger] s[i].payload) && s[i].public_key == x;
            if i < s.len() - 1 {
                assert(t[i] == s[i]);
            }
        }
        if exists|i: int| 0 <= i < t.len() && p(#[trigger] t[i].payload) && t[i].public_key == x {
            let i = choose|i: int| 0 <= i < t.len() && p(#[trigger] t[i].payload) && t[i].public_key == x;
            assert(s[i] == t[i]);
        }
    }
}

/// Applying a block's transition to a subcommittee (its joiners and leavers as
/// one-member subcommittees, see `Proposal::joiners_and_leavers` and
/// `AegeriSubcommittee::update_with_join_set`) brings in exactly the signers of
/// the block's join transactions and takes out exactly the signers of its leave
/// transactions.
pub proof fn lemma_transition_membership(
    b: Seq<MessageView<TransactionView>>,
    joiners: Seq<AegeriSubcommittee>,
    leavers: Seq<AegeriSubcommittee>,
    x: Seq<u8>,
)
    requires
        singletons_of(joiners, block_transition(b).join_set.joiners),
        singletons_of(leavers, block_transition(b).join_set.leavers),
    ensures
        member_of_any(joiners, x) <==> exists|i: int| 0 <= i < b.len() && (#[trigger] b[i].payload) is Join && b[i].public_key == x,
        member_of_any(leavers, x) <==> exists|i: int| 0 <= i < b.len() && (#[trigger] b[i].payload) is Leave && b[i].public_key == x,
{
    let pj = |t: TransactionView| t is Join;
    let pl = |t: TransactionView| t is Leave;
    lemma_signers_where(b, pj, x);
    lemma_signers_where(b, pl, x);
    lemma_singletons_members(joiners, signers_where(b, pj), x);
    lemma_singletons_members(leavers, signers_where(b, pl), x);
}

/// A key is a member of one of the one-member subcommittees of `keys` exactly when
/// it is one of `keys`.
proof fn lemma_singletons_members(subs: Seq<AegeriSubcommittee>, keys: Seq<Seq<u8>>, x: Seq<u8>)
    requires
        singletons_of(subs, keys),
    ensures
        member_of_any(subs, x) <==> keys.contains(x),
{
    if member_of_any(subs, x) {
        let k = choose|k: int| 0 <= k < subs.len() && (#[trigger] subs[k])@.members.contains(x);
        assert(keys[k] == x);
    }
    if keys.contains(x) {
        let k = choose|k: int| 0 <= k < keys.len() && keys[k] == x;
        assert(subs[k]@.members.contains(x));
    }
}

} // verus!
