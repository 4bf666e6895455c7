use aegeri::block::Block;
use aegeri::crypto::Signer;
use aegeri::executor::{AegeriExecutor, TaskFlowError};
use aegeri::id::Id;
use aegeri::index::{Index, IndexValue};
use aegeri::keys::{Nonce, PublicKey};
use aegeri::mempool::Mempool;
use aegeri::message::{Elf, Message, Transaction, VerifiedMessage};
use aegeri::proposal::{Proposal, Availability};
use aegeri::quorum::{ByzantineRequirement, Condition};
use aegeri::subcommittee::AegeriSubcommittee;
use aegeri::transaction_set::TransactionSet;
use aegeri::transition::{JoinSet, StateRoot, Transition};

fn tx(seed: u8, payload: Transaction, nonce: &[u8]) -> VerifiedMessage<Transaction> {
    let signer = Signer::from_seed([seed; 32]);
    let bytes: Vec<u8> = match &payload {
        Transaction::Join => b"\"Join\"".to_vec(),
        Transaction::Leave => b"\"Leave\"".to_vec(),
        Transaction::Elf(elf) => elf.as_bytes().to_vec(),
    };
    let message =
        Message::<Transaction>::try_new(&signer, payload, Some(bytes.as_slice()), Nonce::new(nonce.to_vec())).unwrap();
    message.into_verified(Some(bytes.as_slice())).unwrap()
}

fn run_nothing(_elf: &Elf) -> Result<(), TaskFlowError> {
    Ok(())
}

#[test]
fn id_digest_round_trips() {
    let id = *tx(1, Transaction::Join, b"r").id();
    assert_eq!(Id::from_digest(&id.as_bytes()), id);
}

#[test]
fn transaction_sets_are_canonical() {
    let a = *tx(2, Transaction::Join, b"a").id();
    let b = *tx(3, Transaction::Join, b"b").id();
    let c = *tx(4, Transaction::Join, b"c").id();
    let mut one = TransactionSet::new();
    for id in [a, b, c, a] {
        one.add_id(id);
    }
    let mut two = TransactionSet::new();
    for id in [c, a, b] {
        two.add_id(id);
    }
    assert_eq!(one.ids(), two.ids());
    assert_eq!(one.len(), 3);
}

#[test]
fn four_steps_advance_the_round() {
    let mut index = Index::Availability(IndexValue(6));
    for _ in 0..4 {
        index = index.next().unwrap();
    }
    assert_eq!(index, Index::Availability(IndexValue(7)));
    assert_eq!(Index::Unassigned.next(), None);
}

#[test]
fn only_one_value_reaches_a_byzantine_quorum() {
    let requirement = ByzantineRequirement::byzantine_quorum(4);
    assert_eq!(requirement.quorum, 3);
    let a = Transition::new(TransactionSet::new(), StateRoot::new(vec![1]), JoinSet::new());
    let b = Transition::new(TransactionSet::new(), StateRoot::new(vec![2]), JoinSet::new());
    let condition = Transition::aggregate(&[&a, &a, &b, &a], requirement);
    assert_eq!(condition, Condition::Consensus(a.clone()));
    let split = Transition::aggregate(&[&a, &a, &b, &b], requirement);
    assert_eq!(split, Condition::Hung);
}

#[test]
fn blocks_do_not_depend_on_arrival_order() {
    let a = tx(5, Transaction::Join, b"a");
    let b = tx(6, Transaction::Leave, b"b");
    let c = tx(7, Transaction::Join, b"c");
    let one = Block::new(vec![a.clone(), b.clone(), c.clone()]);
    let two = Block::new(vec![c.clone(), a.clone(), b.clone()]);
    let ids_one: Vec<Id> = one.transactions().iter().map(|m| *m.id()).collect();
    let ids_two: Vec<Id> = two.transactions().iter().map(|m| *m.id()).collect();
    assert_eq!(ids_one, ids_two);
}

#[test]
fn reconciling_returns_dropped_ids_to_their_slot() {
    let mut mempool = Mempool::new(100).unwrap();
    let early = *tx(8, Transaction::Join, b"early").id();
    let late = *tx(9, Transaction::Join, b"late").id();
    mempool.insert_at(100, early);
    mempool.insert_at(500, late);
    let index = Index::Availability(IndexValue(1));
    let availability = mempool.build_availability_proposal(1000, 10, &index).unwrap();
    assert_eq!(availability.transactions().len(), 2);
    let mut agreed = TransactionSet::new();
    agreed.add_id(late);
    mempool.reconcile_transactions(IndexValue(1), &agreed);
    // `early` is back in its own (older) slot, so it pops even at a time when the
    // slot of `late` would not be ready.
    assert_eq!(mempool.pop_ready_at(400, 10, IndexValue(2)), vec![early]);
    assert_eq!(mempool.inflight_ids_at(IndexValue(1)).ids(), &vec![late]);
}

#[test]
fn applying_a_transition_moves_join_and_leave_signers() {
    let joiner = tx(10, Transaction::Join, b"j");
    let leaver = tx(11, Transaction::Leave, b"l");
    let block = Block::new(vec![joiner, leaver]);
    let transition = AegeriExecutor::new().execute_block(&block, &run_nothing).unwrap();
    let (joiners, leavers) = Proposal::Transition(transition).joiners_and_leavers().unwrap();
    let joiner_key = PublicKey::new(&Signer::from_seed([10; 32]));
    let leaver_key = PublicKey::new(&Signer::from_seed([11; 32]));
    let mut committee = AegeriSubcommittee::new(Index::Availability(IndexValue(0))).with_members(vec![leaver_key.clone()]);
    committee.update_with_join_set(joiners, leavers);
    assert!(committee.contains_member(&joiner_key));
    assert!(!committee.contains_member(&leaver_key));
}

#[test]
fn genesis_proposal_is_an_empty_availability() {
    assert_eq!(Proposal::genesis(), Proposal::Availability(Availability::genesis()));
}

#[test]
fn blocks_collapse_repeated_messages() {
    let a = tx(5, Transaction::Join, b"a");
    let b = tx(6, Transaction::Leave, b"b");
    let one = Block::new(vec![a.clone(), b.clone(), a.clone(), b.clone()]);
    let two = Block::new(vec![b.clone(), a.clone()]);
    assert_eq!(one.transactions().len(), 2);
    let ids_one: Vec<Id> = one.transactions().iter().map(|m| *m.id()).collect();
    let ids_two: Vec<Id> = two.transactions().iter().map(|m| *m.id()).collect();
    assert_eq!(ids_one, ids_two);
    assert!(ids_one[0] < ids_one[1]);
}

#[test]
fn intersection_is_no_larger_than_either_set() {
    let x = tx(8, Transaction::Join, b"x");
    let y = tx(9, Transaction::Join, b"y");
    let z = tx(10, Transaction::Join, b"z");
    let mut a = TransactionSet::new();
    a.add_id(*x.id());
    a.add_id(*y.id());
    let mut b = TransactionSet::new();
    b.add_id(*y.id());
    b.add_id(*z.id());
    b.add_id(*x.id());
    let ab = a.intersection(&b);
    let ba = b.intersection(&a);
    assert_eq!(ab.ids(), ba.ids());
    assert_eq!(ab.len(), 2);
    assert!(ab.len() <= a.len() && ab.len() <= b.len());
}

#[test]
fn adding_then_removing_a_member_restores_the_subcommittee() {
    let k1 = PublicKey::new_for_test(1);
    let k2 = PublicKey::new_for_test(2);
    let original = AegeriSubcommittee::new(Index::Availability(IndexValue(3))).with_members(vec![k1.clone()]);
    let mut s = original.clone();
    s.add_member(k2.clone());
    assert_eq!(s.size(), 2);
    s.add_member(k2.clone());
    assert_eq!(s.size(), 2);
    s.remove_member(k2.clone());
    assert!(s.same_as(&original));
    s.remove_member(k2);
    assert!(s.same_as(&original));
}
