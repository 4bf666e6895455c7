use aegeri::crypto::Signer;
use aegeri::id::Id;
use aegeri::index::{Index, IndexValue};
use aegeri::keys::Nonce;
use aegeri::mempool::{Mempool, MempoolError};
use aegeri::message::{Message, Transaction};
use aegeri::proposal::Confirmation;
use aegeri::transaction_set::TransactionSet;

fn tx_id(seed: u8, nonce: &[u8]) -> Id {
    let signer = Signer::from_seed([seed; 32]);
    let payload: &[u8] = b"\"Join\"";
    let message =
        Message::<Transaction>::try_new(&signer, Transaction::Join, Some(payload), Nonce::new(nonce.to_vec())).unwrap();
    let verified = message.into_verified(Some(payload)).unwrap();
    *verified.id()
}

fn ids_of(set: &TransactionSet) -> Vec<Id> {
    set.ids().clone()
}

#[test]
fn test_does_not_pop_transactions_from_current_slot() {
    let mut mempool = Mempool::new(100).unwrap();
    let id = tx_id(1, b"a");
    mempool.insert_at(1000, id);
    assert!(mempool.pop_ready_at(1099, 10, IndexValue(0)).is_empty());
    assert!(mempool.pop_ready_at(1100, 10, IndexValue(0)).is_empty());
    assert_eq!(mempool.pop_ready_at(1200, 10, IndexValue(0)), vec![id]);
}

#[test]
fn test_pops_from_any_eligible_slot_less_than_current_minus_one() {
    let mut mempool = Mempool::new(100).unwrap();
    let older = tx_id(2, b"older");
    let previous = tx_id(3, b"previous");
    mempool.insert_at(850, older);
    mempool.insert_at(950, previous);
    assert_eq!(mempool.pop_ready_at(1000, 10, IndexValue(0)), vec![older]);
    assert_eq!(mempool.pop_ready_at(1100, 10, IndexValue(0)), vec![previous]);
}

#[test]
fn test_inflight_ids_are_not_selected_again() {
    let mut mempool = Mempool::new(100).unwrap();
    let index = Index::Availability(IndexValue(9));
    let tx_a = tx_id(9, b"a");
    let tx_b = tx_id(10, b"b");
    mempool.insert_at(700, tx_a);
    mempool.insert_at(700, tx_b);

    let availability = mempool.build_availability_proposal(1000, 1, &index).unwrap();
    let first_selected = ids_of(availability.transactions());
    assert_eq!(first_selected.len(), 1);
    let selected_id = match first_selected.as_slice() {
        [selected] => *selected,
        _ => panic!("expected exactly one selected id"),
    };

    let next = mempool.pop_ready_at(1000, 10, IndexValue(0));
    let expected = if tx_a == selected_id { vec![tx_b] } else { vec![tx_a] };
    assert_eq!(next, expected);
}

#[test]
fn test_build_availability_confirmation_and_block_header() {
    let mut mempool = Mempool::new(100).unwrap();
    let index = Index::Availability(IndexValue(7));
    let tx_a = tx_id(7, b"a");
    let tx_b = tx_id(8, b"b");
    mempool.insert_at(10, tx_a);
    mempool.insert_at(20, tx_b);

    let availability = mempool.build_availability_proposal(210, 100, &index).unwrap();
    assert!(availability.transactions().ids().contains(&tx_a));
    assert!(availability.transactions().ids().contains(&tx_b));

    let confirmation = mempool.build_confirmation_proposal(&index, &availability).unwrap();
    assert_eq!(confirmation.transactions().ids(), availability.transactions().ids());

    let block_header = mempool.build_block_header_proposal(&index, &confirmation).unwrap();
    assert_eq!(block_header.transactions().ids(), confirmation.transactions().ids());
}

#[test]
fn test_build_block_header_returns_unconfirmed_ids_to_original_slot() {
    let mut mempool = Mempool::new(100).unwrap();
    let index = Index::Availability(IndexValue(11));
    let tx_a = tx_id(11, b"a");
    let tx_b = tx_id(12, b"b");
    mempool.insert_at(700, tx_a);
    mempool.insert_at(700, tx_b);

    let _availability = mempool.build_availability_proposal(1000, 100, &index).unwrap();
    let mut only_a = TransactionSet::new();
    only_a.add_id(tx_a);
    let confirmation = Confirmation::from_transactions(only_a);
    let _block_header = mempool.build_block_header_proposal(&index, &confirmation).unwrap();

    let next = mempool.pop_ready_at(1000, 10, IndexValue(0));
    assert_eq!(next, vec![tx_b]);
}

#[test]
fn test_mark_inflight_tracks_id_in_both_maps() {
    let mut mempool = Mempool::new(100).unwrap();
    let id = tx_id(13, b"a");
    let index_value = IndexValue(2);

    mempool.mark_inflight(id, index_value);

    assert_eq!(mempool.inflight_index_of(&id), Some(index_value));
    assert!(mempool.inflight_ids_at(index_value).contains(&id));
}

#[test]
fn test_mark_inflight_reassigns_index_membership() {
    let mut mempool = Mempool::new(100).unwrap();
    let id = tx_id(14, b"a");
    let first = IndexValue(3);
    let second = IndexValue(4);

    mempool.mark_inflight(id, first);
    mempool.mark_inflight(id, second);

    assert_eq!(mempool.inflight_index_of(&id), Some(second));
    assert!(!mempool.inflight_ids_at(first).contains(&id));
    assert!(mempool.inflight_ids_at(second).contains(&id));
}

#[test]
fn test_unmark_inflight_removes_id_from_tracking() {
    let mut mempool = Mempool::new(100).unwrap();
    let id = tx_id(15, b"a");
    let index_value = IndexValue(5);
    mempool.mark_inflight(id, index_value);

    mempool.unmark_inflight(id);

    assert_eq!(mempool.inflight_index_of(&id), None);
    assert!(!mempool.inflight_ids_at(index_value).contains(&id));
}

#[test]
fn test_remove_clears_slot_and_inflight_membership() {
    let mut mempool = Mempool::new(100).unwrap();
    let id = tx_id(16, b"a");
    let index_value = IndexValue(6);
    mempool.insert_at(700, id);
    mempool.mark_inflight(id, index_value);

    mempool.remove(id);

    assert!(!mempool.is_pooled(&id));
    assert_eq!(mempool.inflight_index_of(&id), None);
    assert!(!mempool.inflight_ids_at(index_value).contains(&id));
}

#[test]
fn test_reconcile_transactions_filters_to_known_ids() {
    let mut mempool = Mempool::new(100).unwrap();
    let known = tx_id(17, b"known");
    let unknown = tx_id(18, b"unknown");
    let index_value = IndexValue(7);
    mempool.insert_at(700, known);

    let mut transactions = TransactionSet::new();
    transactions.add_id(known);
    transactions.add_id(unknown);

    let reconciled = mempool.reconcile_transactions(index_value, &transactions);

    assert_eq!(ids_of(&reconciled), vec![known]);
    assert_eq!(mempool.inflight_index_of(&known), Some(index_value));
    assert_eq!(mempool.inflight_index_of(&unknown), None);
}

#[test]
fn test_reconcile_transactions_unmarks_stale_ids_only_for_target_index() {
    let mut mempool = Mempool::new(100).unwrap();
    let index_value = IndexValue(8);
    let other_index = IndexValue(9);
    let keep = tx_id(19, b"keep");
    let drop = tx_id(20, b"drop");
    let untouched = tx_id(21, b"untouched");

    mempool.insert_at(700, keep);
    mempool.insert_at(700, drop);
    mempool.insert_at(700, untouched);
    mempool.mark_inflight(keep, index_value);
    mempool.mark_inflight(drop, index_value);
    mempool.mark_inflight(untouched, other_index);

    let mut agreed = TransactionSet::new();
    agreed.add_id(keep);

    let reconciled = mempool.reconcile_transactions(index_value, &agreed);

    assert_eq!(ids_of(&reconciled), vec![keep]);
    assert_eq!(mempool.inflight_index_of(&keep), Some(index_value));
    assert_eq!(mempool.inflight_index_of(&drop), None);
    assert_eq!(mempool.inflight_index_of(&untouched), Some(other_index));
    assert_eq!(ids_of(&mempool.inflight_ids_at(index_value)), vec![keep]);
    assert_eq!(ids_of(&mempool.inflight_ids_at(other_index)), vec![untouched]);
}

#[test]
fn mempool_rejects_zero_slot_width() {
    assert!(matches!(Mempool::new(0), Err(MempoolError::InvalidSlotWidth)));
    assert_eq!(Mempool::new(250).unwrap().slot_width_ms(), 250);
}

#[test]
fn mempool_pops_newer_slots_first_and_larger_ids_first_within_a_slot() {
    let mut mempool = Mempool::new(100).unwrap();
    let a = tx_id(30, b"a");
    let b = tx_id(31, b"b");
    let c = tx_id(32, b"c");
    mempool.insert_at(100, a);
    mempool.insert_at(300, b);
    mempool.insert_at(300, c);
    let (low, high) = if b < c { (b, c) } else { (c, b) };
    assert_eq!(mempool.pop_ready_at(1000, 10, IndexValue(1)), vec![high, low, a]);
}

#[test]
fn mempool_pop_respects_the_limit() {
    let mut mempool = Mempool::new(100).unwrap();
    let a = tx_id(33, b"a");
    let b = tx_id(34, b"b");
    mempool.insert_at(100, a);
    mempool.insert_at(200, b);
    assert_eq!(mempool.pop_ready_at(1000, 1, IndexValue(1)), vec![b]);
    assert!(mempool.pop_ready_at(1000, 0, IndexValue(1)).is_empty());
    assert_eq!(mempool.pop_ready_at(1000, 1, IndexValue(1)), vec![a]);
}

#[test]
fn mempool_keeps_the_first_slot_of_an_id() {
    let mut mempool = Mempool::new(100).unwrap();
    let a = tx_id(35, b"a");
    mempool.insert_at(100, a);
    mempool.insert_at(900, a);
    assert_eq!(mempool.pop_ready_at(300, 10, IndexValue(1)), vec![a]);
}

#[test]
fn mempool_insert_now_pools_the_id() {
    let mut mempool = Mempool::new(100).unwrap();
    let a = tx_id(36, b"a");
    mempool.insert_now(a).unwrap();
    assert!(mempool.is_pooled(&a));
}

#[test]
fn mempool_accepts_positive_slot_width() {
    assert!(Mempool::new(1).is_ok());
    assert_eq!(Mempool::new(100).unwrap().slot_width_ms(), 100);
}

#[test]
fn unmarking_at_another_index_value_leaves_ownership() {
    let mut mempool = Mempool::new(100).unwrap();
    let id = tx_id(14, b"a");
    mempool.mark_inflight(id, IndexValue(3));
    mempool.unmark_inflight_at(id, IndexValue(4));
    assert_eq!(mempool.inflight_index_of(&id), Some(IndexValue(3)));
    assert!(mempool.inflight_ids_at(IndexValue(3)).contains(&id));
    assert!(!mempool.inflight_ids_at(IndexValue(4)).contains(&id));
    mempool.unmark_inflight_at(id, IndexValue(3));
    assert_eq!(mempool.inflight_index_of(&id), None);
    assert!(!mempool.inflight_ids_at(IndexValue(3)).contains(&id));
}

#[test]
fn removed_ids_can_be_received_again() {
    let mut mempool = Mempool::new(100).unwrap();
    let id = tx_id(16, b"a");
    mempool.insert_at(700, id);
    mempool.mark_inflight(id, IndexValue(6));
    mempool.remove(id);
    assert!(mempool.pop_ready_at(1000, 10, IndexValue(0)).is_empty());
    mempool.insert_at(900, id);
    assert!(mempool.is_pooled(&id));
    assert!(mempool.pop_ready_at(1000, 10, IndexValue(0)).is_empty());
    assert_eq!(mempool.pop_ready_at(1100, 10, IndexValue(0)), vec![id]);
}

#[test]
fn pop_takes_as_many_as_are_ready_up_to_the_limit() {
    let mut mempool = Mempool::new(100).unwrap();
    let a = tx_id(40, b"a");
    let b = tx_id(41, b"b");
    let c = tx_id(42, b"c");
    mempool.insert_at(100, a);
    mempool.insert_at(200, b);
    mempool.insert_at(900, c);
    // At 1000 the current slot is 10: slots below 9 are ready, so a and b, not c.
    let first = mempool.pop_ready_at(1000, 5, IndexValue(1));
    assert_eq!(first, vec![b, a]);
    assert_eq!(mempool.inflight_index_of(&a), Some(IndexValue(1)));
    assert_eq!(mempool.inflight_index_of(&c), None);
    assert!(mempool.pop_ready_at(1000, 5, IndexValue(2)).is_empty());
}
