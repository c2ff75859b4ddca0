use std::cmp::Ordering;

use chatchain::failover::{responding_nodes, Failover, FailoverStep};
use chatchain::ledger::{select_new_messages, sort_by_timestamp, StoredKeys};
use chatchain::sync::{BackgroundRound, SyncAction, SyncRound};
use chatchain::mempool::Mempool;
use chatchain::message::{ChatMessage, ChatValue};
use chatchain::network::{sync_due, IpAddress, NodeAddr, NodeConfig, DEFAULT_BASE_PORT};
use chatchain::retry::{AttemptOutcome, Retry, RetryStep};
use chatchain::value_id::ChatValueId;

fn msg(sender: &str, recipient: &str, timestamp: i64, text: &str) -> ChatMessage {
    ChatMessage {
        sender: sender.to_string(),
        recipient: recipient.to_string(),
        timestamp,
        text: text.to_string(),
    }
}

#[test]
fn identity_key_prefixes_names_with_their_length() {
    let m = msg("Alice", "Bob", 1619827200, "Hello, blockchain chat!");
    assert_eq!(m.identity_key(), "5:Alice3:Bob1619827200");
    assert_eq!(msg("", "", 0, "x").identity_key(), "0:0:0");
    assert_eq!(msg("a-b", "c", 1, "x").identity_key(), "3:a-b1:c1");
    assert_eq!(msg("a", "b-c", 1, "x").identity_key(), "1:a3:b-c1");
    assert_eq!(msg("é", "b", -42, "x").identity_key(), "1:é1:b-42");
}

#[test]
fn identity_key_of_extreme_timestamps() {
    assert_eq!(msg("a", "b", i64::MIN, "x").identity_key(), format!("1:a1:b{}", i64::MIN));
    assert_eq!(msg("a", "b", i64::MAX, "x").identity_key(), format!("1:a1:b{}", i64::MAX));
}

#[test]
fn storage_key_is_timestamp_sender() {
    assert_eq!(msg("Alice", "Bob", 17, "hi").storage_key(), "17-Alice");
    assert_eq!(msg("Alice", "Bob", -5, "hi").storage_key(), "-5-Alice");
    assert_eq!(msg("", "Bob", 1000000, "hi").storage_key(), "1000000-");
}

#[test]
fn mempool_takes_new_messages_in_order() {
    let mut mp = Mempool::new();
    assert_eq!(mp.len(), 0);
    assert!(mp.push(msg("a", "b", 1, "one")));
    assert!(mp.push(msg("a", "b", 2, "two")));
    assert_eq!(mp.len(), 2);
    assert_eq!(mp.pending()[0].text, "one");
    assert_eq!(mp.pending()[1].text, "two");
}

#[test]
fn mempool_refuses_a_message_seen_before() {
    let mut mp = Mempool::new();
    assert!(mp.push(msg("a", "b", 1, "one")));
    // Same sender, recipient and timestamp: same identity, whatever the text.
    assert!(!mp.push(msg("a", "b", 1, "other text")));
    assert!(!mp.push(msg("a", "b", 1, "one")));
    assert_eq!(mp.len(), 1);
    assert_eq!(mp.pending()[0].text, "one");
}

#[test]
fn mempool_tells_apart_messages_whose_names_hold_dashes() {
    let mut mp = Mempool::new();
    assert!(mp.push(msg("a-b", "c", 1, "first")));
    // Another sender and recipient: another message, though the names joined
    // by dashes read alike.
    assert!(mp.push(msg("a", "b-c", 1, "second")));
    assert_eq!(mp.len(), 2);
    assert!(!mp.push(msg("a", "b-c", 1, "again")));
}

#[test]
fn drain_empties_the_mempool_but_keeps_identities() {
    let mut mp = Mempool::new();
    mp.push(msg("a", "b", 1, "one"));
    mp.push(msg("c", "d", 2, "two"));
    let drained = mp.drain();
    assert_eq!(drained, vec![msg("a", "b", 1, "one"), msg("c", "d", 2, "two")]);
    assert_eq!(mp.len(), 0);
    assert!(mp.drain().is_empty());
    // A drained message is refused when offered again.
    assert!(!mp.push(msg("a", "b", 1, "one")));
    assert!(mp.push(msg("a", "b", 3, "three")));
    assert_eq!(mp.len(), 1);
}

#[test]
fn push_all_counts_the_messages_taken() {
    let mut mp = Mempool::new();
    mp.push(msg("a", "b", 1, "one"));
    let n = mp.push_all(vec![
        msg("a", "b", 1, "dup of pending"),
        msg("x", "y", 5, "new"),
        msg("x", "y", 5, "dup within batch"),
        msg("x", "y", 6, "new too"),
    ]);
    assert_eq!(n, 2);
    assert_eq!(mp.len(), 3);
    assert_eq!(mp.pending()[1].text, "new");
    assert_eq!(mp.pending()[2].text, "new too");
    assert_eq!(mp.push_all(vec![]), 0);
}

#[test]
fn commit_drains_into_one_block() {
    let mut mp = Mempool::new();
    assert_eq!(mp.commit(), None);
    mp.push(msg("a", "b", 1, "one"));
    mp.push(msg("a", "b", 2, "two"));
    let block = mp.commit();
    assert_eq!(
        block,
        Some(ChatValue {
            messages: vec![msg("a", "b", 1, "one"), msg("a", "b", 2, "two")]
        })
    );
    assert_eq!(mp.len(), 0);
    assert_eq!(mp.commit(), None);
}

#[test]
fn value_ids_compare_byte_by_byte() {
    let a = ChatValueId(vec![1, 2, 3]);
    let b = ChatValueId(vec![1, 2, 4]);
    let prefix = ChatValueId(vec![1, 2]);
    let empty = ChatValueId(vec![]);
    assert_eq!(a.cmp(&b), Ordering::Less);
    assert_eq!(b.cmp(&a), Ordering::Greater);
    assert_eq!(a.cmp(&a.clone()), Ordering::Equal);
    assert_eq!(prefix.cmp(&a), Ordering::Less);
    assert_eq!(a.cmp(&prefix), Ordering::Greater);
    assert_eq!(empty.cmp(&empty), Ordering::Equal);
    assert_eq!(empty.cmp(&prefix), Ordering::Less);
    assert_eq!(ChatValueId(vec![200]).cmp(&ChatValueId(vec![1, 255])), Ordering::Greater);
    assert_eq!(a.partial_cmp(&b), Some(Ordering::Less));
    assert_eq!(b.partial_cmp(&b), Some(Ordering::Equal));
}

#[test]
fn value_id_display() {
    assert_eq!(ChatValueId(vec![1, 2, 255]).to_string(), "ChatValueId([1, 2, 255])");
    assert_eq!(ChatValueId(vec![]).to_string(), "ChatValueId([])");
    assert_eq!(ChatValueId(vec![0]).to_string(), "ChatValueId([0])");
    let bytes = vec![10u8, 0, 99, 100];
    assert_eq!(
        ChatValueId(bytes.clone()).to_string(),
        format!("ChatValueId({:?})", bytes)
    );
}

#[test]
fn sort_by_timestamp_is_stable() {
    let sorted = sort_by_timestamp(vec![
        msg("c", "x", 3, "c3"),
        msg("a", "x", 1, "a1"),
        msg("b", "x", 3, "b3"),
        msg("d", "x", -7, "d-7"),
        msg("e", "x", 1, "e1"),
    ]);
    let texts: Vec<&str> = sorted.iter().map(|m| m.text.as_str()).collect();
    assert_eq!(texts, vec!["d-7", "a1", "e1", "c3", "b3"]);
    assert!(sort_by_timestamp(vec![]).is_empty());
}

#[test]
fn sync_takes_only_messages_new_to_the_store() {
    let existing = vec!["1-a".to_string(), "2-b".to_string()];
    let incoming = vec![
        msg("a", "z", 1, "stored already"),
        msg("c", "z", 3, "new"),
        msg("c", "y", 3, "same key as the one before"),
        msg("b", "z", 2, "stored already"),
        msg("d", "z", 4, "new too"),
    ];
    let fresh = select_new_messages(existing.clone(), incoming.clone());
    assert_eq!(fresh, vec![msg("c", "z", 3, "new"), msg("d", "z", 4, "new too")]);
    // Once those are stored, syncing the same messages again takes nothing.
    let mut all_keys = existing;
    for m in &fresh {
        all_keys.push(m.storage_key());
    }
    assert!(select_new_messages(all_keys, incoming).is_empty());
    assert!(select_new_messages(vec![], vec![]).is_empty());
}

#[test]
fn testnet_config_lists_all_four_nodes() {
    let ip = IpAddress::V4(0x7f000001);
    let c = NodeConfig::testnet(2, ip, DEFAULT_BASE_PORT);
    assert_eq!(c.id, 2);
    assert_eq!(c.bind_addr, NodeAddr { ip, port: 8083 });
    let ports: Vec<u16> = c.peers.iter().map(|p| p.port).collect();
    assert_eq!(ports, vec![8081, 8082, 8083, 8084]);
    let others: Vec<u16> = c.peers_to_sync().iter().map(|p| p.port).collect();
    assert_eq!(others, vec![8081, 8082, 8084]);
}

#[test]
fn sync_skips_the_node_itself_whatever_the_base_port() {
    let ip = IpAddress::V4(0x7f000001);
    let c = NodeConfig::testnet(0, ip, 9000);
    let others: Vec<u16> = c.peers_to_sync().iter().map(|p| p.port).collect();
    assert_eq!(others, vec![9001, 9002, 9003]);
    let c = NodeConfig::testnet(3, ip, 9000);
    let others: Vec<u16> = c.peers_to_sync().iter().map(|p| p.port).collect();
    assert_eq!(others, vec![9000, 9001, 9002]);
}

#[test]
fn sync_waits_for_the_interval() {
    assert!(!sync_due(0));
    assert!(!sync_due(4999));
    assert!(sync_due(5000));
    assert!(sync_due(60000));
}

#[test]
fn retry_backs_off_and_gives_up_after_three_tries() {
    let mut r = Retry::new();
    assert_eq!(r.on_attempt(AttemptOutcome::Unreachable), RetryStep::RetryAfter(100));
    assert_eq!(r.on_attempt(AttemptOutcome::Unreachable), RetryStep::RetryAfter(200));
    assert_eq!(r.on_attempt(AttemptOutcome::Unreachable), RetryStep::Exhausted);
}

#[test]
fn retry_stops_on_an_answer() {
    let mut r = Retry::new();
    assert_eq!(r.on_attempt(AttemptOutcome::Rejected), RetryStep::Failed);
    let mut r = Retry::new();
    assert_eq!(r.on_attempt(AttemptOutcome::Unreachable), RetryStep::RetryAfter(100));
    assert_eq!(r.on_attempt(AttemptOutcome::Delivered), RetryStep::Done);
}

#[test]
fn failover_tries_nodes_in_order_until_one_succeeds() {
    let mut f = Failover::new(3);
    assert_eq!(f.current(), FailoverStep::Try(0));
    assert_eq!(f.on_answer(false), FailoverStep::Try(1));
    assert_eq!(f.on_answer(true), FailoverStep::Succeeded(1));
}

#[test]
fn failover_reports_no_nodes_and_all_failed() {
    assert_eq!(Failover::new(0).current(), FailoverStep::NoNodes);
    let mut f = Failover::new(2);
    assert_eq!(f.on_answer(false), FailoverStep::Try(1));
    assert_eq!(f.on_answer(false), FailoverStep::AllFailed);
    assert_eq!(f.current(), FailoverStep::AllFailed);
}

#[test]
fn responding_nodes_lists_the_indices_that_answered() {
    assert_eq!(responding_nodes(&vec![true, false, true, true]), vec![0, 2, 3]);
    assert!(responding_nodes(&vec![false, false]).is_empty());
    assert!(responding_nodes(&vec![]).is_empty());
}

#[test]
fn value_id_order_is_a_total_order_on_examples() {
    let ids = vec![
        ChatValueId(vec![]),
        ChatValueId(vec![0]),
        ChatValueId(vec![0, 0]),
        ChatValueId(vec![0, 1]),
        ChatValueId(vec![1]),
        ChatValueId(vec![255, 0]),
    ];
    for (i, a) in ids.iter().enumerate() {
        for (j, b) in ids.iter().enumerate() {
            assert_eq!(a.cmp(b), i.cmp(&j));
            assert_eq!(a.cmp(b), b.cmp(a).reverse());
            assert_eq!(a.cmp(b), a.0.cmp(&b.0));
        }
    }
}

#[test]
fn stored_keys_track_what_the_database_holds() {
    let mut known = StoredKeys::new(vec!["1-a".to_string()]);
    assert!(!known.is_new(&msg("a", "z", 1, "stored")));
    let m = msg("b", "z", 2, "new");
    assert!(known.is_new(&m));
    known.record(&m);
    assert!(!known.is_new(&msg("b", "other", 2, "same key")));
    assert!(known.is_new(&msg("b", "z", 3, "other key")));
}

#[test]
fn sync_round_propagates_then_fetches_each_peer() {
    let mut r = SyncRound::new(2, false);
    assert_eq!(r.action(), SyncAction::Propagate(0));
    assert_eq!(r.on_result(false), SyncAction::Fetch(0));
    assert_eq!(r.on_result(true), SyncAction::Propagate(1));
    assert_eq!(r.on_result(true), SyncAction::Fetch(1));
    assert_eq!(r.on_result(false), SyncAction::Finished);
    assert_eq!(r.error_count(), 2);
}

#[test]
fn sync_round_only_fetches_with_an_empty_mempool() {
    let mut r = SyncRound::new(2, true);
    assert_eq!(r.action(), SyncAction::Fetch(0));
    assert_eq!(r.on_result(true), SyncAction::Fetch(1));
    assert_eq!(r.on_result(true), SyncAction::Finished);
    assert_eq!(r.error_count(), 0);
    assert_eq!(SyncRound::new(0, false).action(), SyncAction::Finished);
}

#[test]
fn background_round_posts_only_after_a_successful_fetch() {
    let mut r = BackgroundRound::new(3);
    assert_eq!(r.action(), SyncAction::Fetch(0));
    // A failed fetch skips the peer.
    assert_eq!(r.on_fetch(false, true), SyncAction::Fetch(1));
    // An empty mempool is not sent.
    assert_eq!(r.on_fetch(true, false), SyncAction::Fetch(2));
    assert_eq!(r.on_fetch(true, true), SyncAction::Propagate(2));
    assert_eq!(r.on_propagate(), SyncAction::Finished);
}
