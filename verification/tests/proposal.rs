use aegeri::crypto::Signer;
use aegeri::id::Id;
use aegeri::index::{Index, IndexValue};
use aegeri::keys::{Nonce, PublicKey};
use aegeri::message::{Message, Transaction};
use aegeri::proposal::{Availability, Confirmation, Proposal};
use aegeri::quorum::{ByzantineRequirement, Condition};
use aegeri::subcommittee::AegeriSubcommittee;
use aegeri::transaction_set::TransactionSet;
use aegeri::transition::{JoinSet, StateRoot, Transition};

fn tx_id(seed: u8) -> Id {
    let signer = Signer::from_seed([seed; 32]);
    let payload: &[u8] = b"\"Join\"";
    let message = Message::<Transaction>::try_new(&signer, Transaction::Join, Some(payload), Nonce::new(vec![seed])).unwrap();
    *message.id()
}

fn set(ids: Vec<Id>) -> TransactionSet {
    let mut s = TransactionSet::new();
    for id in ids {
        s.add_id(id);
    }
    s
}

#[test]
fn test_aggregate_for_index_filters_to_matching_stage() {
    let availability = Proposal::Availability(Availability::new());
    let transition =
        Proposal::Transition(Transition::new(TransactionSet::new(), StateRoot::new(Vec::new()), JoinSet::new()));
    let condition = Proposal::consensus_condition_for_index(
        &Index::Transition(IndexValue(0)),
        &[&availability, &transition],
        ByzantineRequirement { total_voters: 2, quorum: 1 },
    );
    assert_eq!(condition, Condition::Consensus(transition));
}

#[test]
fn test_consensus_condition_unions_on_quorum() {
    let id1 = tx_id(1);
    let id2 = tx_id(2);
    let id3 = tx_id(3);
    let a = Availability::from_transactions(set(vec![id1, id2]));
    let b = Availability::from_transactions(set(vec![id2, id3]));
    let condition = Availability::consensus_condition(&[&a, &b], ByzantineRequirement { total_voters: 3, quorum: 2 });
    match condition {
        Condition::Consensus(availability) => {
            let mut expected = vec![id1, id2, id3];
            expected.sort();
            assert_eq!(availability.transactions().ids(), &expected);
        }
        other => panic!("unexpected condition: {other:?}"),
    }
}

#[test]
fn availability_test_consensus_condition_in_progress_without_quorum() {
    let a = Availability::from_transactions(set(vec![tx_id(1)]));
    let condition = Availability::consensus_condition(&[&a], ByzantineRequirement { total_voters: 3, quorum: 2 });
    assert_eq!(condition, Condition::InProgress);
}

#[test]
fn test_consensus_condition_merges_quorum_confirmed_ids() {
    let id1 = tx_id(1);
    let id2 = tx_id(2);
    let id3 = tx_id(3);

    let a = Confirmation::from_transactions(set(vec![id1, id2]));
    let b = Confirmation::from_transactions(set(vec![id1, id3]));
    let c = Confirmation::from_transactions(set(vec![id1]));
    let condition =
        Confirmation::consensus_condition(&[&a, &b, &c], ByzantineRequirement { total_voters: 4, quorum: 3 });

    match condition {
        Condition::Consensus(merged) => {
            assert_eq!(merged.transactions().ids(), &vec![id1]);
        }
        other => panic!("unexpected condition: {other:?}"),
    }
}

#[test]
fn confirmation_test_consensus_condition_in_progress_without_quorum() {
    let a = Confirmation::from_transactions(set(vec![tx_id(1)]));
    let condition = Confirmation::consensus_condition(&[&a], ByzantineRequirement { total_voters: 3, quorum: 2 });
    assert_eq!(condition, Condition::InProgress);
}

#[test]
fn test_aegeri_subcommittee_reaches_consensus() {
    let committee = AegeriSubcommittee::new(Index::Availability(IndexValue(0)))
        .with_members(vec![PublicKey::new_for_test(1), PublicKey::new_for_test(2), PublicKey::new_for_test(3)]);
    let proposal = Proposal::Availability(Availability::new());
    let condition = committee.condition(&[(&committee, &proposal)]);
    assert_eq!(condition, Condition::Consensus(proposal));
}

#[test]
fn test_aegeri_subcommittee_hung_on_sender_conflict() {
    let committee = AegeriSubcommittee::new(Index::Availability(IndexValue(0)))
        .with_members(vec![PublicKey::new_for_test(1), PublicKey::new_for_test(2), PublicKey::new_for_test(3)]);
    let left = AegeriSubcommittee::new(Index::Availability(IndexValue(0))).with_members(vec![PublicKey::new_for_test(1), PublicKey::new_for_test(2)]);
    let right = AegeriSubcommittee::new(Index::Availability(IndexValue(0))).with_members(vec![PublicKey::new_for_test(2), PublicKey::new_for_test(3)]);
    let availability = Proposal::Availability(Availability::new());
    let confirmation = Proposal::Confirmation(Confirmation::new());
    let condition = committee.condition(&[(&left, &availability), (&right, &confirmation)]);
    assert_eq!(condition, Condition::Hung);
}
