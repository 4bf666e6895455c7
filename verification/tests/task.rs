use aegeri::block::Block;
use aegeri::crypto::Signer;
use aegeri::executor::{AegeriExecutor, TaskFlowError};
use aegeri::index::{Index, IndexValue};
use aegeri::keys::{Nonce, PublicKey};
use aegeri::message::{Elf, Message, Transaction, VerifiedMessage};
use aegeri::proposal::{BlockHeader, Confirmation, Proposal};
use aegeri::store::{TransactionStore, TransactionStoreError};
use aegeri::task::{AegeriTask, AegeriTaskError};
use aegeri::transaction_set::TransactionSet;

fn payload_bytes(payload: &Transaction) -> Vec<u8> {
    match payload {
        Transaction::Join => b"\"Join\"".to_vec(),
        Transaction::Leave => b"\"Leave\"".to_vec(),
        Transaction::Elf(elf) => {
            let array = serde_json::to_string(&elf.as_bytes().to_vec()).unwrap();
            format!("{{\"Elf\":{}}}", array).into_bytes()
        }
    }
}

fn tx(seed: u8, payload: Transaction, nonce: &[u8]) -> VerifiedMessage<Transaction> {
    let signer = Signer::from_seed([seed; 32]);
    let bytes = payload_bytes(&payload);
    let message =
        Message::<Transaction>::try_new(&signer, payload, Some(bytes.as_slice()), Nonce::new(nonce.to_vec())).unwrap();
    message.into_verified(Some(bytes.as_slice())).unwrap()
}

fn run_nothing(_elf: &Elf) -> Result<(), TaskFlowError> {
    Ok(())
}

fn run_failing(_elf: &Elf) -> Result<(), TaskFlowError> {
    Err(TaskFlowError::Machine("halted".to_string()))
}

#[test]
fn test_handle_agreement_returns_error_on_stage_mismatch() {
    let mut task = AegeriTask::new(100).unwrap();
    let index = Index::Availability(IndexValue(1));
    let proposal = Proposal::Confirmation(Confirmation::new());
    let result = task.handle_value_agreement(&index, &proposal, &run_nothing);
    assert!(matches!(result, Err(AegeriTaskError::StageMismatch)));
}

#[test]
fn test_handle_agreement_block_stage_executes_and_prunes() {
    let mut task = AegeriTask::new(100).unwrap();
    let transaction = tx(7, Transaction::Join, b"a");
    let id = *transaction.id();
    task.add_transaction(transaction).unwrap();

    let mut txs = TransactionSet::new();
    txs.add_id(id);
    let header = BlockHeader::from_transactions(txs);
    let index = Index::Block(IndexValue(5));
    let proposal = Proposal::BlockHeader(header);

    let output = task.handle_value_agreement(&index, &proposal, &run_nothing).unwrap();
    assert!(matches!(output, (_, Proposal::Transition(_))));
    assert!(task.transaction_store().get(&id).is_none());
}

#[test]
fn task_flow_counts_join_transactions() {
    let flow = AegeriExecutor::new();
    let transactions = vec![Transaction::Join, Transaction::Join];
    let result = flow.execute(&transactions, &run_nothing).expect("join counting should not fail");
    assert_eq!(result.join_count, 2);
    assert_eq!(result.executed_elf_count, 0);
}

#[test]
fn test_build_block_from_header_proposal_fetches_all_transactions() {
    let mut store = TransactionStore::new();
    let tx_a = tx(1, Transaction::Join, b"a");
    let tx_b = tx(2, Transaction::Join, b"b");
    let (id_a, id_b) = (*tx_a.id(), *tx_b.id());
    store.insert(tx_a);
    store.insert(tx_b);

    let mut ids = TransactionSet::new();
    ids.add_id(id_a);
    ids.add_id(id_b);
    let header = BlockHeader::from_transactions(ids);

    let block = store.build_block_from_header_proposal(&header).unwrap();
    let mut block_ids: Vec<_> = block.transactions().iter().map(|m| *m.id()).collect();
    let mut expected = vec![id_a, id_b];
    expected.sort();
    assert_eq!(block_ids, expected);
    block_ids.dedup();
    assert_eq!(block_ids.len(), 2);
}

#[test]
fn test_build_block_from_header_proposal_errors_when_missing_transaction() {
    let mut store = TransactionStore::new();
    let tx_a = tx(3, Transaction::Join, b"a");
    let tx_missing = tx(4, Transaction::Join, b"missing");
    let id_a = *tx_a.id();
    store.insert(tx_a);

    let mut ids = TransactionSet::new();
    ids.add_id(id_a);
    ids.add_id(*tx_missing.id());
    let header = BlockHeader::from_transactions(ids);

    let result = store.build_block_from_header_proposal(&header);
    assert_eq!(result.err(), Some(TransactionStoreError::MissingTransaction(*tx_missing.id())));
}

#[test]
fn executor_stops_at_the_first_failing_elf() {
    let flow = AegeriExecutor::new();
    let transactions = vec![Transaction::Join, Transaction::Elf(Elf::new(vec![0x7f])), Transaction::Join];
    let result = flow.execute(&transactions, &run_failing);
    assert_eq!(result, Err(TaskFlowError::Machine("halted".to_string())));
    let counted = flow.execute(&transactions, &run_nothing).unwrap();
    assert_eq!((counted.executed_elf_count, counted.join_count), (1, 2));
}

#[test]
fn executor_block_transition_records_joiners_and_leavers() {
    let joiner = tx(40, Transaction::Join, b"j");
    let leaver = tx(41, Transaction::Leave, b"l");
    let ids = vec![*joiner.id(), *leaver.id()];
    let block = Block::new(vec![joiner, leaver]);
    let transition = AegeriExecutor::new().execute_block(&block, &run_nothing).unwrap();
    let mut sorted = ids.clone();
    sorted.sort();
    assert_eq!(transition.block().ids(), &sorted);
    assert!(transition.state_root().as_bytes().is_empty());
    assert_eq!(transition.join_set().joiners(), &vec![PublicKey::new(&Signer::from_seed([40; 32]))]);
    assert_eq!(transition.join_set().leavers(), &vec![PublicKey::new(&Signer::from_seed([41; 32]))]);
}

#[test]
fn block_keeps_one_message_per_id_in_ascending_order() {
    let a = tx(42, Transaction::Join, b"a");
    let b = tx(43, Transaction::Join, b"b");
    let block = Block::new(vec![b.clone(), a.clone(), b.clone()]);
    let ids: Vec<_> = block.transactions().iter().map(|m| *m.id()).collect();
    let mut expected = vec![*a.id(), *b.id()];
    expected.sort();
    assert_eq!(ids, expected);
}

#[test]
fn task_rejects_zero_slot_width() {
    assert!(matches!(
        AegeriTask::new(0),
        Err(AegeriTaskError::Mempool(aegeri::mempool::MempoolError::InvalidSlotWidth))
    ));
}

#[test]
fn task_walks_the_stages_of_a_round() {
    let mut task = AegeriTask::new(100).unwrap();
    let transaction = tx(44, Transaction::Join, b"round");
    let id = *transaction.id();
    task.add_transaction_at(transaction, 100);

    let (index, proposal) = task
        .handle_value_agreement_at(&Index::Transition(IndexValue(0)), &Proposal::Transition(aegeri::transition::Transition::genesis()), 1000, &run_nothing)
        .unwrap();
    assert_eq!(index, Index::Availability(IndexValue(1)));
    let (index, proposal) = task.handle_value_agreement_at(&index, &proposal, 1000, &run_nothing).unwrap();
    assert_eq!(index, Index::Confirmation(IndexValue(1)));
    let (index, proposal) = task.handle_value_agreement_at(&index, &proposal, 1000, &run_nothing).unwrap();
    assert_eq!(index, Index::Block(IndexValue(1)));
    match &proposal {
        Proposal::BlockHeader(header) => assert_eq!(header.transactions().ids(), &vec![id]),
        other => panic!("unexpected proposal {:?}", other),
    }
    let (index, proposal) = task.handle_value_agreement_at(&index, &proposal, 1000, &run_nothing).unwrap();
    assert_eq!(index, Index::Transition(IndexValue(1)));
    match &proposal {
        Proposal::Transition(t) => assert_eq!(t.block().ids(), &vec![id]),
        other => panic!("unexpected proposal {:?}", other),
    }
    assert!(task.transaction_store().get(&id).is_none());
    assert!(!task.mempool().is_pooled(&id));
}

#[test]
fn task_reports_missing_transactions_of_a_block() {
    let mut task = AegeriTask::new(100).unwrap();
    let missing = tx(45, Transaction::Join, b"m");
    let mut txs = TransactionSet::new();
    txs.add_id(*missing.id());
    let proposal = Proposal::BlockHeader(BlockHeader::from_transactions(txs));
    let result = task.handle_value_agreement(&Index::Block(IndexValue(2)), &proposal, &run_nothing);
    assert!(matches!(
        result,
        Err(AegeriTaskError::TransactionStore(TransactionStoreError::MissingTransaction(id))) if id == *missing.id()
    ));
}

#[test]
fn task_reports_a_failing_elf_and_keeps_the_block() {
    let mut task = AegeriTask::new(100).unwrap();
    let program = tx(46, Transaction::Elf(Elf::new(vec![0x7f, 0x45, 0x4c, 0x46])), b"p");
    let id = *program.id();
    task.add_transaction_at(program, 100);
    let mut txs = TransactionSet::new();
    txs.add_id(id);
    let proposal = Proposal::BlockHeader(BlockHeader::from_transactions(txs));
    let result = task.handle_value_agreement(&Index::Block(IndexValue(3)), &proposal, &run_failing);
    assert_eq!(
        result.err(),
        Some(AegeriTaskError::Execution(aegeri::executor::AegeriExecutionError::TaskFlow(TaskFlowError::Machine(
            "halted".to_string()
        ))))
    );
    assert!(task.transaction_store().get(&id).is_some());
    assert!(task.mempool().is_pooled(&id));
}
