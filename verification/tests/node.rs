use aegeri::bootstrap::Bootstrap;
use aegeri::client::StatusBuffer;
use aegeri::cluster::{AegeriBufferSizes, AegeriLocalClusterConfig};
use aegeri::crypto::Signer;
use aegeri::index::{Index, IndexValue};
use aegeri::keys::PublicKey;
use aegeri::message::Certificate;
use aegeri::message_out::AegeriMessageOut;
use aegeri::proposal::{Availability, Proposal};
use aegeri::subcommittee::AegeriSubcommittee;
use aegeri::task::AegeriTask;

fn key(seed: u8) -> PublicKey {
    PublicKey::new(&Signer::from_seed([seed; 32]))
}

#[test]
fn test_bootstrap_waits_until_required_peers_seen() {
    let peer_a = key(11);
    let peer_b = key(12);
    let mut bootstrap = Bootstrap::new()
        .with_bootstrapped(false)
        .with_peer_count_required(2)
        .with_bootstrap_peers(vec![peer_a.clone(), peer_b.clone()]);
    let index = Index::Availability(IndexValue::new(42));
    let subcommittee = AegeriSubcommittee::new(index).with_members(vec![peer_a.clone(), peer_b.clone()]);

    assert_eq!(bootstrap.observe_broadcast(index, &subcommittee, &peer_a), None);
    assert!(!bootstrap.has_bootstrapped(), "bootstrap should still be waiting for second peer");

    let agreement = bootstrap.observe_broadcast(index, &subcommittee, &peer_b);
    assert!(bootstrap.has_bootstrapped());
    assert_eq!(agreement, Some((index, subcommittee)));
}

#[test]
fn test_bootstrap_helper_builder_preserves_allowlist_state() {
    let peer_a = key(21);
    let peer_b = key(22);
    let bootstrap = Bootstrap::new()
        .with_bootstrapped(false)
        .with_peer_count_required(2)
        .with_bootstrap_peers(vec![peer_a, peer_b]);
    assert!(!bootstrap.has_bootstrapped());
}

#[test]
fn bootstrap_ignores_peers_off_the_allowlist() {
    let peer_a = key(21);
    let stranger = key(23);
    let mut bootstrap = Bootstrap::new()
        .with_bootstrapped(false)
        .with_peer_count_required(1)
        .with_bootstrap_peers(vec![peer_a.clone()]);
    assert!(!bootstrap.has_bootstrapped());
    assert!(bootstrap.contains_peer(&peer_a));
    assert!(!bootstrap.contains_peer(&stranger));
    let index = Index::Availability(IndexValue::new(1));
    let subcommittee = AegeriSubcommittee::new(index);
    assert_eq!(bootstrap.observe_broadcast(index, &subcommittee, &stranger), None);
    assert!(!bootstrap.has_bootstrapped());
    bootstrap.remove_peer(peer_a.clone());
    assert!(!bootstrap.contains_peer(&peer_a));
    bootstrap.add_peer(stranger.clone());
    assert!(bootstrap.observe_broadcast(index, &subcommittee, &stranger).is_some());
}

#[test]
fn bootstrap_counts_each_peer_once() {
    let peer_a = key(13);
    let peer_b = key(14);
    let mut bootstrap = Bootstrap::new()
        .with_bootstrapped(false)
        .with_peer_count_required(2)
        .with_bootstrap_peers(vec![peer_a.clone(), peer_b.clone()]);
    let index = Index::Availability(IndexValue::new(5));
    let subcommittee = AegeriSubcommittee::new(index).with_members(vec![peer_a.clone()]);
    let other = AegeriSubcommittee::new(index).with_members(vec![peer_b.clone()]);
    assert_eq!(bootstrap.observe_broadcast(index, &subcommittee, &peer_a), None);
    assert_eq!(bootstrap.observe_broadcast(index, &subcommittee, &peer_a), None);
    assert_eq!(bootstrap.observe_broadcast(index, &other, &peer_b), None);
    assert!(!bootstrap.has_bootstrapped());
    assert!(bootstrap.observe_broadcast(index, &subcommittee, &peer_b).is_some());
    assert!(bootstrap.has_bootstrapped());
}

#[test]
fn bootstrap_defaults_to_bootstrapped() {
    assert!(Bootstrap::new().has_bootstrapped());
}

#[test]
fn message_out_spends_one_nonce_per_certificate() {
    let mut out = AegeriMessageOut::from_seed([3; 32]).with_nonce_counter(258);
    let index = Index::Availability(IndexValue(4));
    let proposal = Proposal::Availability(Availability::new());
    let bytes: &[u8] = b"{\"index\":{\"Availability\":4},\"value\":{\"Availability\":[]}}";
    let message = out.certify(index, proposal.clone(), Some(bytes)).unwrap();
    assert_eq!(message.nonce().as_bytes(), &[2, 1, 0, 0, 0, 0, 0, 0]);
    assert_eq!(*message.payload().index(), index);
    assert_eq!(*message.payload().value(), proposal);
    assert!(message.verify(Some(bytes)).is_ok());
    let next = out.certify(index, proposal, Some(bytes)).unwrap();
    assert_eq!(next.nonce().as_bytes(), &[3, 1, 0, 0, 0, 0, 0, 0]);
    assert_ne!(next.id(), message.id());
}

#[test]
fn message_out_counter_saturates() {
    let mut out = AegeriMessageOut::default().with_nonce_counter(u64::MAX).with_loopback(false);
    assert!(!out.loopback());
    let index = Index::Availability(IndexValue(0));
    let bytes: &[u8] = b"x";
    let a = out.certify(index, Proposal::Availability(Availability::new()), Some(bytes)).unwrap();
    let b = out.certify(index, Proposal::Availability(Availability::new()), Some(bytes)).unwrap();
    assert_eq!(a.nonce().as_bytes(), &[255; 8]);
    assert_eq!(b.nonce().as_bytes(), &[255; 8]);
    let _certificate: &Certificate = a.payload();
}

#[test]
fn local_cluster_config_defaults_and_builders() {
    let config = AegeriLocalClusterConfig::default();
    assert_eq!(config.count, 3);
    assert_eq!(config.topic, "aegeri");
    let config = config.with_count(5).with_topic("other".to_string());
    assert_eq!(config.count, 5);
    assert_eq!(config.topic, "other");
    let sizes = AegeriBufferSizes { messages: 1, transaction: 2, certificate: 3, agreement: 4, task: 5 };
    assert_eq!(sizes.task, 5);
}

#[test]
fn status_buffer_hands_out_matching_statuses_in_order() {
    let id = aegeri::id::Id(1, 2, 3, 4);
    let other = aegeri::id::Id(5, 6, 7, 8);
    let mut buffer = StatusBuffer::new();
    let is_block = |i: Index| matches!(i, Index::Block(_));
    assert_eq!(buffer.offer(Index::Availability(IndexValue(1)), id, &id, &is_block), None);
    assert_eq!(buffer.offer(Index::Block(IndexValue(1)), other, &id, &is_block), None);
    assert_eq!(buffer.offer(Index::Block(IndexValue(2)), id, &id, &is_block), Some(Index::Block(IndexValue(2))));
    let is_availability = |i: Index| matches!(i, Index::Availability(_));
    assert_eq!(buffer.take_match(&id, &is_availability), Some(Index::Availability(IndexValue(1))));
    assert_eq!(buffer.take_match(&id, &is_availability), None);
    assert_eq!(buffer.take_match(&other, &is_block), Some(Index::Block(IndexValue(1))));
}

#[test]
fn ping_broadcasts_new_subcommittees_once() {
    let mut task = AegeriTask::new(100).unwrap().with_pings(true);
    task.set_ping_frequency_ms(1000);
    let index = Index::Availability(IndexValue(3));
    let subcommittee = AegeriSubcommittee::new(index).with_members(vec![key(31)]);
    let first = task.ping_at(10, Some((&index, &subcommittee)));
    assert_eq!(first, Some((index, Proposal::SubcommitteeBroadcast(subcommittee.clone()))));
    assert_eq!(task.last_ping_time_ms(), 10);
    assert_eq!(task.ping_at(20, Some((&index, &subcommittee))), None);
    assert_eq!(task.ping_at(2000, Some((&index, &subcommittee))).is_some(), true);
    assert_eq!(task.last_ping(), Some((&index, &subcommittee)));
    let quiet = AegeriTask::new(100).unwrap();
    let mut quiet = quiet;
    assert_eq!(quiet.ping_at(10, Some((&index, &subcommittee))), None);
    assert!(!quiet.pings());
}

#[test]
fn program_adds() {
    assert_eq!(aegeri::program::add(2, 3), 5);
}
