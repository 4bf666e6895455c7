//! The task flow of a participant: it coordinates the mempool, the transaction
//! store and the executor, and answers each value agreement with the proposal of
//! the next stage.
use crate::clock::epoch_millis_now;
use crate::executor::{block_transition, elves_ran, transaction_views, AegeriExecutionError, AegeriExecutor, TaskFlowError};
use crate::id::Id;
use crate::index::{has_next_value, spec_next, spec_value, Index};
use crate::mempool::{
    inflight_consistent, inserted, lemma_reconciled, marked_all, popped, reconciled, removed, Mempool, MempoolError,
    MempoolView,
};
use crate::message::{Elf, MessageView, Transaction, TransactionView, VerifiedMessage};
use crate::proposal::{Proposal, ProposalView};
use crate::store::{first_missing, stored, TransactionStore, TransactionStoreError};
use crate::subcommittee::{AegeriSubcommittee, SubcommitteeView};
use crate::transaction_set::ids_sorted;
use vstd::prelude::*;

verus! {

/// Why a task could not be built or an agreement not handled.
#[derive(Debug, Clone, PartialEq, Eq)]
pub enum AegeriTaskError {
    /// mempool error
    Mempool(MempoolError),
    /// transaction store error
    TransactionStore(TransactionStoreError),
    /// execution error
    Execution(AegeriExecutionError),
    /// provided index does not match certificate index
    IndexMismatch,
    /// provided index does not match certificate proposal stage
    StageMismatch,
    /// provided index is not the next round of the provided proposal index
    NotNextRound,
    /// subcommittee broadcast not supported
    SubcommitteeBroadcastNotSupported,
}

/// The most transactions an availability proposal takes from the mempool.
pub const AVAILABILITY_BATCH: usize = 128;

/// The ping frequency a new task starts with, in milliseconds.
pub const DEFAULT_PING_FREQUENCY_MS: u64 = 1000;

/// Whether `proposal` is of the stage of `index`.
pub open spec fn stage_matches(index: Index, proposal: ProposalView) -> bool {
    ||| (index is Availability && proposal is Availability)
    ||| (index is Confirmation && proposal is Confirmation)
    ||| (index is Block && proposal is BlockHeader)
    ||| (index is Transition && proposal is Transition)
}

/// The mempool view after removing each of `ids`, in order.
pub open spec fn removed_all(v: MempoolView, ids: Seq<Id>) -> MempoolView
    decreases ids.len(),
{
    if ids.len() == 0 {
        v
    } else {
        removed(removed_all(v, ids.drop_last()), ids.last())
    }
}

/// What handling the agreement on `proposal` at `index`, at time `now` and with
/// `run_elf` running ELF transactions, does to the task `before`, making it
/// `after` and returning `r`:
///
/// - a proposal of another stage than the index's is refused;
/// - availability: the agreed IDs are reconciled with the mempool, and the known
///   ones are proposed for confirmation;
/// - confirmation: the same, proposed as the block header;
/// - block header: the block is materialized from the store (the first missing
///   transaction is an error) and executed, its transactions leave the store and
///   the mempool, and its transition is proposed;
/// - transition: the mempool's ready transactions, up to a batch, are proposed
///   for availability at the next round.
pub open spec fn agreement_handled<F: Fn(&Elf) -> Result<(), TaskFlowError>>(
    before: AegeriTask,
    after: AegeriTask,
    index: Index,
    proposal: ProposalView,
    now: u64,
    run_elf: F,
    r: Result<(Index, Proposal), AegeriTaskError>,
) -> bool {
    &&& after.ping_settings() == before.ping_settings()
    &&& !stage_matches(index, proposal) ==> r == Err::<(Index, Proposal), AegeriTaskError>(AegeriTaskError::StageMismatch)
        && after.pool() == before.pool() && after.store() == before.store()
    &&& stage_matches(index, proposal) ==> match proposal {
        ProposalView::Availability(a) => {
            &&& after.store() == before.store()
            &&& after.pool() == reconciled(before.pool(), spec_value(index).0, a)
            &&& r matches Ok((i, p)) && i == spec_next(index)->Some_0 && (p@ matches ProposalView::Confirmation(c)
                && ids_sorted(c) && forall|x: Id| c.contains(x) <==> a.contains(x) && before.pool().slot_of.contains_key(x))
        },
        ProposalView::Confirmation(a) => {
            &&& after.store() == before.store()
            &&& after.pool() == reconciled(before.pool(), spec_value(index).0, a)
            &&& r matches Ok((i, p)) && i == spec_next(index)->Some_0 && (p@ matches ProposalView::BlockHeader(c)
                && ids_sorted(c) && forall|x: Id| c.contains(x) <==> a.contains(x) && before.pool().slot_of.contains_key(x))
        },
        ProposalView::BlockHeader(h) => {
            let k = first_missing(before.store(), h);
            if k < h.len() {
                r == Err::<(Index, Proposal), AegeriTaskError>(
                    AegeriTaskError::TransactionStore(TransactionStoreError::MissingTransaction(h[k])),
                ) && after.pool() == before.pool() && after.store() == before.store()
            } else {
                let b = stored(before.store(), h);
                exists|payloads: Seq<Transaction>|
                    #![trigger transaction_views(payloads)]
                    transaction_views(payloads) == b.map_values(|m: MessageView<TransactionView>| m.payload)
                        && match r {
                        Ok((i, p)) => i == spec_next(index)->Some_0 && p@ == ProposalView::Transition(
                            block_transition(b),
                        ) && elves_ran(run_elf, payloads, payloads.len() as int) && after.store()
                            == before.store().remove_keys(h.to_set()) && after.pool() == removed_all(
                            before.pool(),
                            h,
                        ),
                        Err(AegeriTaskError::Execution(AegeriExecutionError::TaskFlow(e))) => exists|i: int|
                            #![trigger payloads[i]]
                            0 <= i < payloads.len() && payloads[i] is Elf && elves_ran(
                                run_elf,
                                payloads,
                                i,
                            ) && call_ensures(run_elf, (&payloads[i]->Elf_0,), Err(e)) && after.pool()
                                == before.pool() && after.store() == before.store(),
                        Err(_) => false,
                    }
            }
        },
        ProposalView::Transition(_) => {
            let next = spec_next(index)->Some_0;
            &&& after.store() == before.store()
            &&& r matches Ok((i, p)) && i == next && (p@ matches ProposalView::Availability(a) && ids_sorted(a)
                && exists|q: Seq<Id>|
                #[trigger] popped(before.pool(), now, AVAILABILITY_BATCH, q) && after.pool()
                    == marked_all(before.pool(), q, spec_value(next).0) && forall|x: Id|
                    a.contains(x) <==> q.contains(x))
        },
        ProposalView::SubcommitteeBroadcast(_) => false,
    }
}

/// What the ping step at `now_ms`, with the observed subcommittee agreement if
/// any, does to the ping records of the task `before`, making it `after` and
/// returning `r`: with pings off nothing; else a recorded ping older than the
/// ping frequency is forgotten, and then an observed agreement other than the
/// recorded ping is broadcast and recorded with the time.
pub open spec fn pinged(
    before: AegeriTask,
    after: AegeriTask,
    now_ms: u64,
    observed: Option<(&Index, &AegeriSubcommittee)>,
    r: Option<(Index, Proposal)>,
) -> bool {
    let (pings, last, frequency, last_time) = before.ping_settings();
    if !pings {
        r is None && after.ping_settings() == before.ping_settings()
    } else {
        let kept = if now_ms - last_time > frequency {
            None
        } else {
            last
        };
        match observed {
            Some((i, s)) => if kept != Some((*i, s@)) {
                after.ping_settings() == (pings, Some((*i, s@)), frequency, now_ms) && (r matches Some((ri, rp)) && ri
                    == *i && rp@ == ProposalView::SubcommitteeBroadcast(s@))
            } else {
                r is None && after.ping_settings() == (pings, kept, frequency, last_time)
            },
            None => r is None && after.ping_settings() == (pings, kept, frequency, last_time),
        }
    }
}

/// High-level task flow that coordinates mempool, storage, and execution.
pub struct AegeriTask {
    mempool: Mempool,
    transaction_store: TransactionStore,
    executor: AegeriExecutor,
    pings: bool,
    last_ping: Option<(Index, AegeriSubcommittee)>,
    ping_frequency_ms: u64,
    last_ping_time_ms: u64,
}

impl AegeriTask {
    /// The internal consistency of the task: that of its mempool.
    pub closed spec fn wf(&self) -> bool {
        self.mempool.wf()
    }

    /// The abstract state of the task's mempool.
    pub closed spec fn pool(&self) -> MempoolView {
        self.mempool@
    }

    /// The transactions the task stores, by ID.
    pub closed spec fn store(&self) -> Map<Id, MessageView<TransactionView>> {
        self.transaction_store@
    }

    /// The settings and records of pings.
    pub closed spec fn ping_settings(&self) -> (bool, Option<(Index, SubcommitteeView)>, u64, u64) {
        (
            self.pings,
            match self.last_ping {
                Some((i, s)) => Some((i, s@)),
                None => None,
            },
            self.ping_frequency_ms,
            self.last_ping_time_ms,
        )
    }

    /// A task with an empty mempool of slots `slot_width_ms` wide, an empty store,
    /// pings off, no ping recorded, and the default ping frequency.
    pub fn new(slot_width_ms: u64) -> (r: Result<Self, AegeriTaskError>)
        ensures
            r is Ok <==> slot_width_ms > 0,
            slot_width_ms == 0 <==> r == Err::<Self, AegeriTaskError>(AegeriTaskError::Mempool(MempoolError::InvalidSlotWidth)),
            r matches Ok(t) ==> t.wf() && t.pool().slot_width == slot_width_ms && t.pool().slot_of.is_empty()
                && t.pool().inflight.is_empty() && (forall|s: u64| #[trigger] t.pool().pools[s].is_empty())
                && t.store().is_empty() && t.ping_settings() == (false, None::<(Index, SubcommitteeView)>, DEFAULT_PING_FREQUENCY_MS, 0u64),
    {
        let mempool = match Mempool::new(slot_width_ms) {
            Ok(m) => m,
            Err(e) => return Err(AegeriTaskError::Mempool(e)),
        };
        let transaction_store = TransactionStore::new();
        proof {
            assert(transaction_store@.is_empty()) by {
                assert(transaction_store@.dom() =~= Set::<Id>::empty());
            }
        }
        Ok(AegeriTask {
            mempool,
            transaction_store,
            executor: AegeriExecutor::new(),
            pings: false,
            last_ping: None,
            ping_frequency_ms: DEFAULT_PING_FREQUENCY_MS,
            last_ping_time_ms: 0,
        })
    }

    /// The task with pings switched on or off.
    pub fn with_pings(self, pings: bool) -> (r: Self)
        requires
            self.wf(),
        ensures
            r.wf(),
            r.pool() == self.pool(),
            r.store() == self.store(),
            r.ping_settings() == (pings, self.ping_settings().1, self.ping_settings().2, self.ping_settings().3),
    {
        let mut r = self;
        r.pings = pings;
        r
    }

    pub fn pings(&self) -> (r: bool)
        ensures
            r == self.ping_settings().0,
    {
        self.pings
    }

    /// The index and subcommittee of the last ping, if any.
    pub fn last_ping(&self) -> (r: Option<(&Index, &AegeriSubcommittee)>)
        ensures
            match r {
                Some((i, s)) => self.ping_settings().1 == Some((*i, s@)),
                None => self.ping_settings().1 == None::<(Index, SubcommitteeView)>,
            },
    {
        match &self.last_ping {
            Some((index, subcommittee)) => Some((index, subcommittee)),
            None => None,
        }
    }

    pub fn set_last_ping(&mut self, last_ping: Option<(Index, AegeriSubcommittee)>)
        ensures
            final(self).pool() == old(self).pool(),
            final(self).store() == old(self).store(),
            final(self).ping_settings() == (
                old(self).ping_settings().0,
                match last_ping {
                    Some((i, s)) => Some((i, s@)),
                    None => None,
                },
                old(self).ping_settings().2,
                old(self).ping_settings().3,
            ),
    {
        self.last_ping = last_ping;
    }

    pub fn ping_frequency_ms(&self) -> (r: u64)
        ensures
            r == self.ping_settings().2,
    {
        self.ping_frequency_ms
    }

    pub fn set_ping_frequency_ms(&mut self, ping_frequency_ms: u64)
        requires
            old(self).wf(),
        ensures
            final(self).wf(),
            final(self).pool() == old(self).pool(),
            final(self).store() == old(self).store(),
            final(self).ping_settings() == (
                old(self).ping_settings().0,
                old(self).ping_settings().1,
                ping_frequency_ms,
                old(self).ping_settings().3,
            ),
    {
        self.ping_frequency_ms = ping_frequency_ms;
    }

    pub fn last_ping_time_ms(&self) -> (r: u64)
        ensures
            r == self.ping_settings().3,
    {
        self.last_ping_time_ms
    }

    pub fn set_last_ping_time_ms(&mut self, last_ping_time_ms: u64)
        requires
            old(self).wf(),
        ensures
            final(self).wf(),
            final(self).pool() == old(self).pool(),
            final(self).store() == old(self).store(),
            final(self).ping_settings() == (
                old(self).ping_settings().0,
                old(self).ping_settings().1,
                old(self).ping_settings().2,
                last_ping_time_ms,
            ),
    {
        self.last_ping_time_ms = last_ping_time_ms;
    }

    pub fn slot_width_ms(&self) -> (r: u64)
        ensures
            r == self.pool().slot_width,
    {
        self.mempool.slot_width_ms()
    }

    /// The task's mempool.
    pub fn mempool(&self) -> (r: &Mempool)
        requires
            self.wf(),
        ensures
            r@ == self.pool(),
            r.wf(),
    {
        &self.mempool
    }

    /// The task's transaction store.
    pub fn transaction_store(&self) -> (r: &TransactionStore)
        ensures
            r@ == self.store(),
    {
        &self.transaction_store
    }

    /// Adds a transaction, received at `received_at_epoch_ms`, to both the store
    /// and the mempool's schedule.
    pub fn add_transaction_at(&mut self, transaction: VerifiedMessage<Transaction>, received_at_epoch_ms: u64)
        requires
            old(self).wf(),
        ensures
            final(self).wf(),
            final(self).store() == old(self).store().insert(transaction@.id, transaction@),
            final(self).pool() == inserted(old(self).pool(), received_at_epoch_ms, transaction@.id),
            final(self).ping_settings() == old(self).ping_settings(),
    {
        let id = *transaction.id();
        self.transaction_store.insert(transaction);
        self.mempool.insert_at(received_at_epoch_ms, id);
    }

    /// Adds a transaction to both the store and the mempool's schedule, as received
    /// now by the system clock; fails, with the store updated and the mempool
    /// unchanged, where the clock reads before the Unix epoch.
    pub fn add_transaction(&mut self, transaction: VerifiedMessage<Transaction>) -> (r: Result<(), AegeriTaskError>)
        requires
            old(self).wf(),
        ensures
            final(self).wf(),
            final(self).store() == old(self).store().insert(transaction@.id, transaction@),
            final(self).ping_settings() == old(self).ping_settings(),
            match r {
                Ok(()) => exists|ms: u64| final(self).pool() == #[trigger] inserted(old(self).pool(), ms, transaction@.id),
                Err(e) => e == AegeriTaskError::Mempool(MempoolError::SystemTimeBeforeEpoch) && final(self).pool()
                    == old(self).pool(),
            },
    {
        let id = *transaction.id();
        self.transaction_store.insert(transaction);
        let ghost pool0 = self.mempool@;
        match self.mempool.insert_now(id) {
            Ok(()) => {
                proof {
                    let ms = choose|ms: u64| self.mempool@ == #[trigger] inserted(pool0, ms, id);
                    assert(self.pool() == inserted(old(self).pool(), ms, transaction@.id));
                }
                Ok(())
            },
            Err(e) => Err(AegeriTaskError::Mempool(e)),
        }
    }

    /// Whether `proposal` is of the stage of `index`.
    fn proposal_matches_index(index: &Index, proposal: &Proposal) -> (r: bool)
        ensures
            r == stage_matches(*index, proposal@),
    {
        match (index, proposal) {
            (Index::Availability(_), Proposal::Availability(_)) => true,
            (Index::Confirmation(_), Proposal::Confirmation(_)) => true,
            (Index::Block(_), Proposal::BlockHeader(_)) => true,
            (Index::Transition(_), Proposal::Transition(_)) => true,
            _ => false,
        }
    }

    /// Handles the agreement on `proposal` at `index` and returns the next index
    /// with the proposal for it (see `agreement_handled`); `now_epoch_ms` is the
    /// current time, and `run_elf` runs ELF transactions.
    pub fn handle_value_agreement_at<F: Fn(&Elf) -> Result<(), TaskFlowError>>(
        &mut self,
        index: &Index,
        proposal: &Proposal,
        now_epoch_ms: u64,
        run_elf: &F,
    ) -> (r: Result<(Index, Proposal), AegeriTaskError>)
        requires
            old(self).wf(),
            has_next_value(*index),
            forall|e: &Elf| call_requires(*run_elf, (e,)),
        ensures
            final(self).wf(),
            agreement_handled(*old(self), *final(self), *index, proposal@, now_epoch_ms, *run_elf, r),
    {
        if !Self::proposal_matches_index(index, proposal) {
            return Err(AegeriTaskError::StageMismatch);
        }
        match proposal {
            Proposal::Availability(availability) => {
                let confirmation = match self.mempool.build_confirmation_proposal(index, availability) {
                    Ok(c) => c,
                    Err(e) => return Err(AegeriTaskError::Mempool(e)),
                };

                let next_index = match index.next() {
                    Some(i) => i,
                    None => return Err(AegeriTaskError::NotNextRound),
                };
                Ok((next_index, Proposal::Confirmation(confirmation)))
            },
            Proposal::Confirmation(confirmation) => {
                let block_header = match self.mempool.build_block_header_proposal(index, confirmation) {
                    Ok(b) => b,
                    Err(e) => return Err(AegeriTaskError::Mempool(e)),
                };
                let next_index = match index.next() {
                    Some(i) => i,
                    None => return Err(AegeriTaskError::NotNextRound),
                };
                Ok((next_index, Proposal::BlockHeader(block_header)))
            },
            Proposal::BlockHeader(block_header) => {
                let block = match self.transaction_store.build_block_from_header_proposal(block_header) {
                    Ok(b) => b,
                    Err(e) => return Err(AegeriTaskError::TransactionStore(e)),
                };
                let transition = match self.executor.execute_block(&block, run_elf) {
                    Ok(t) => t,
                    Err(e) => return Err(AegeriTaskError::Execution(e)),
                };
                let ids = block_header.transactions().iter_ids();
                let ghost h = ids@;
                let ghost store0 = self.transaction_store@;
                let ghost pool0 = self.mempool@;
                let mut i: usize = 0;
                while i < ids.len()
                    invariant
                        self.mempool.wf(),
                        self.ping_settings() == old(self).ping_settings(),
                        i <= h.len(),
                        ids@ == h,
                        self.transaction_store@ == store0.remove_keys(h.take(i as int).to_set()),
                        self.mempool@ == removed_all(pool0, h.take(i as int)),
                    decreases h.len() - i,
                {
                    let id = &ids[i];
                    self.transaction_store.remove(id);
                    self.mempool.remove(*id);
                    proof {
                        assert(h.take(i + 1).drop_last() =~= h.take(i as int));
                        assert(h.take(i + 1).last() == *id);
                        assert(h.take(i + 1).to_set() =~= h.take(i as int).to_set().insert(*id));
                        assert(self.transaction_store@ =~= store0.remove_keys(h.take(i + 1).to_set()));
                    }
                    i = i + 1;
                }
                proof {
                    assert(h.take(i as int) =~= h);
                }
                let next_index = match index.next() {
                    Some(i) => i,
                    None => return Err(AegeriTaskError::NotNextRound),
                };
                Ok((next_index, Proposal::Transition(transition)))
            },
            Proposal::Transition(_) => {
                let next_index = match index.next() {
                    Some(i) => i,
                    None => return Err(AegeriTaskError::NotNextRound),
                };
                let ghost pool0 = self.mempool@;
                let availability = match self.mempool.build_availability_proposal(
                    now_epoch_ms,
                    AVAILABILITY_BATCH,
                    &next_index,
                ) {
                    Ok(a) => a,
                    Err(e) => return Err(AegeriTaskError::Mempool(e)),
                };
                proof {
                    let q = choose|q: Seq<Id>|
                        #[trigger] popped(pool0, now_epoch_ms, AVAILABILITY_BATCH, q) && self.mempool@ == marked_all(
                            pool0,
                            q,
                            spec_value(next_index).0,
                        ) && ids_sorted(availability@) && forall|x: Id| availability@.contains(x) <==> q.contains(x);
                    assert(popped(old(self).pool(), now_epoch_ms, AVAILABILITY_BATCH, q));
                }
                Ok((next_index, Proposal::Availability(availability)))
            },
            Proposal::SubcommitteeBroadcast(_subcommittee) => {
                // This is not the channel for handling subcommittee broadcasts.
                // They trigger no value agreement handling.
                Err(AegeriTaskError::SubcommitteeBroadcastNotSupported)
            },
        }
    }

    /// Handles the agreement on `proposal` at `index` (see `agreement_handled`),
    /// reading the system clock for a transition agreement; that reading failing
    /// (the clock before the Unix epoch) is returned as a mempool error, with the
    /// task unchanged.
    pub fn handle_value_agreement<F: Fn(&Elf) -> Result<(), TaskFlowError>>(
        &mut self,
        index: &Index,
        proposal: &Proposal,
        run_elf: &F,
    ) -> (r: Result<(Index, Proposal), AegeriTaskError>)
        requires
            old(self).wf(),
            has_next_value(*index),
            forall|e: &Elf| call_requires(*run_elf, (e,)),
        ensures
            final(self).wf(),
            !(stage_matches(*index, proposal@) && proposal@ is Transition) ==> agreement_handled(
                *old(self),
                *final(self),
                *index,
                proposal@,
                0,
                *run_elf,
                r,
            ),
            stage_matches(*index, proposal@) && proposal@ is Transition ==> (exists|now: u64|
                #[trigger] agreement_handled(*old(self), *final(self), *index, proposal@, now, *run_elf, r)) || (r
                == Err::<(Index, Proposal), AegeriTaskError>(AegeriTaskError::Mempool(MempoolError::SystemTimeBeforeEpoch))
                && final(self).pool() == old(self).pool() && final(self).store() == old(self).store()
                && final(self).ping_settings() == old(self).ping_settings()),
    {
        let now_epoch_ms = match proposal {
            Proposal::Transition(_) => {
                if Self::proposal_matches_index(index, proposal) {
                    match epoch_millis_now() {
                        Some(ms) => ms,
                        None => return Err(AegeriTaskError::Mempool(MempoolError::SystemTimeBeforeEpoch)),
                    }
                } else {
                    0
                }
            },
            _ => 0,
        };
        self.handle_value_agreement_at(index, proposal, now_epoch_ms, run_elf)
    }

    /// The ping step of a participant at `now_ms` (see `pinged`), with the index
    /// and subcommittee of the latest subcommittee agreement, if any.
    pub fn ping_at(&mut self, now_ms: u64, observed: Option<(&Index, &AegeriSubcommittee)>) -> (r: Option<(Index, Proposal)>)
        requires
            old(self).wf(),
            old(self).ping_settings().0 ==> now_ms >= old(self).ping_settings().3,
        ensures
            final(self).wf(),
            final(self).pool() == old(self).pool(),
            final(self).store() == old(self).store(),
            pinged(*old(self), *final(self), now_ms, observed, r),
    {
        if !self.pings {
            return None;
        }
        // Reset the ping if it's too old.
        if now_ms - self.last_ping_time_ms > self.ping_frequency_ms {
            self.last_ping = None;
        }
        match observed {
            Some((index, subcommittee)) => {
                let same = match &self.last_ping {
                    Some((last_index, last_subcommittee)) => *last_index == *index && last_subcommittee.same_as(subcommittee),
                    None => false,
                };
                if same {
                    None
                } else {
                    self.last_ping = Some((*index, subcommittee.clone()));
                    self.last_ping_time_ms = now_ms;
                    Some((*index, Proposal::SubcommitteeBroadcast(subcommittee.clone())))
                }
            },
            None => None,
        }
    }

    /// The ping step (see `pinged`) at the system clock's time; nothing happens
    /// where the clock reads before the Unix epoch or before the recorded ping.
    pub fn ping(&mut self, observed: Option<(&Index, &AegeriSubcommittee)>) -> (r: Option<(Index, Proposal)>)
        requires
            old(self).wf(),
        ensures
            final(self).wf(),
            final(self).pool() == old(self).pool(),
            final(self).store() == old(self).store(),
            (exists|now_ms: u64| #[trigger] pinged(*old(self), *final(self), now_ms, observed, r)) || (r is None
                && final(self).ping_settings() == old(self).ping_settings()),
    {
        if !self.pings {
            return None;
        }
        match epoch_millis_now() {
            Some(now_ms) => {
                if now_ms < self.last_ping_time_ms {
                    None
                } else {
                    self.ping_at(now_ms, observed)
                }
            },
            None => None,
        }
    }
}

/// What an availability or confirmation agreement makes the node propose next is
/// exactly what it then holds in flight at the agreed index value: the agreed
/// identifiers its mempool had received. An identifier the mempool never received
/// is never proposed, and every proposed one was agreed.
pub proof fn lemma_agreement_proposes_what_it_holds<F: Fn(&Elf) -> Result<(), TaskFlowError>>(
    before: AegeriTask,
    after: AegeriTask,
    index: Index,
    a: Seq<Id>,
    now: u64,
    run_elf: F,
    r: Result<(Index, Proposal), AegeriTaskError>,
)
    requires
        before.wf(),
        (index is Availability && agreement_handled(before, after, index, ProposalView::Availability(a), now, run_elf, r))
            || (index is Confirmation && agreement_handled(before, after, index, ProposalView::Confirmation(a), now, run_elf, r)),
    ensures
        r matches Ok((i, p)) && i == spec_next(index)->Some_0 && ({
            let c = match p@ {
                ProposalView::Confirmation(c) => c,
                ProposalView::BlockHeader(c) => c,
                _ => Seq::empty(),
            };
            &&& (index is Availability ==> p@ is Confirmation)
            &&& (index is Confirmation ==> p@ is BlockHeader)
            &&& forall|x: Id| #[trigger] c.contains(x) <==> after.pool().inflight_sets[spec_value(index).0].contains(x)
            &&& forall|x: Id| #[trigger] c.contains(x) ==> a.contains(x)
            &&& forall|x: Id| !before.pool().slot_of.contains_key(x) ==> !#[trigger] c.contains(x)
        }),
{
    before.mempool.lemma_view_wf();
    lemma_reconciled(before.pool(), spec_value(index).0, a);
}

} // verus!
