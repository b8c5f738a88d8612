use auto_commit::offsets::OffsetMap;
use auto_commit::registry::{AutoCommitRegistry, CommitMode, CommitRequest, Delivery, ResultRoute};
use auto_commit::store::TopicPartitionList;

fn expected_final() -> OffsetMap {
    let mut expected = OffsetMap::new();
    expected.insert("a".to_owned(), 0, 3);
    expected.insert("a".to_owned(), 1, 4);
    expected.insert("b".to_owned(), 0, 3);
    expected
}

#[test]
fn test_auto_commit_registry() {
    // The clock counts milliseconds: an interval of 2 s, four rounds 800 ms apart.
    let mut reg = AutoCommitRegistry::new(2000, CommitMode::Async, 0);
    reg.set_callback();
    reg.share();

    let mut observed: Vec<OffsetMap> = Vec::new();
    let mut now: u64 = 0;
    for i in 0..4 {
        let round: Vec<(String, i32, i64)> = vec![
            ("a".to_owned(), 0, i as i64),
            ("a".to_owned(), 1, i + 1 as i64),
            ("b".to_owned(), 0, i as i64),
        ];
        for message_id in round {
            if let Some(request) = reg.register_message(message_id, now) {
                assert_eq!(request.route, ResultRoute::Observer);
                assert_eq!(request.mode, CommitMode::Async);
                observed.push(request.snapshot);
            }
        }
        now += 800;
    }
    // The worker gives its handle up; the owner's handle remains.
    assert!(reg.release(now).is_none());

    // One scheduled flush, at 2400 ms, by the first registration of the last round.
    assert_eq!(observed.len(), 1);
    let mut at_flush = OffsetMap::new();
    at_flush.insert("a".to_owned(), 0, 3);
    at_flush.insert("a".to_owned(), 1, 3);
    at_flush.insert("b".to_owned(), 0, 2);
    assert_eq!(observed[0], at_flush);
    assert_eq!(reg.last_commit_time(), 2400);

    // The last handle goes: the final commit carries everything registered.
    let last = reg.release(now);
    let committed = last.map(|request| request.snapshot);
    assert_eq!(Some(expected_final()), committed);
    assert_eq!(reg.handles(), 0);
}

#[test]
fn new_registry_starts_empty_with_one_handle() {
    let reg = AutoCommitRegistry::new(2000, CommitMode::Sync, 17);
    assert!(reg.offsets().is_empty());
    assert_eq!(reg.last_commit_time(), 17);
    assert_eq!(reg.commit_interval(), 2000);
    assert_eq!(reg.commit_mode(), CommitMode::Sync);
    assert!(!reg.has_callback());
    assert_eq!(reg.handles(), 1);
}

#[test]
fn no_flush_before_the_interval_then_one_at_the_boundary() {
    let mut reg = AutoCommitRegistry::new(2000, CommitMode::Sync, 1000);
    assert!(reg.register_message(("a".to_owned(), 0, 1), 1000).is_none());
    assert!(reg.register_message(("a".to_owned(), 0, 2), 2999).is_none());
    assert_eq!(reg.last_commit_time(), 1000);

    let request = reg.register_message(("a".to_owned(), 0, 3), 3000);
    assert!(request.is_some());
    assert_eq!(reg.last_commit_time(), 3000);
    assert_eq!(request.unwrap().snapshot.get("a", 0), Some(3));

    // The timer was reset: the same instant and the next 1999 ms flush nothing.
    assert!(reg.maybe_commit(3000).is_none());
    assert!(reg.register_message(("a".to_owned(), 0, 4), 4999).is_none());
    assert!(reg.maybe_commit(5000).is_some());
    assert_eq!(reg.last_commit_time(), 5000);
}

#[test]
fn a_late_registration_flushes_once() {
    let mut reg = AutoCommitRegistry::new(2000, CommitMode::Sync, 0);
    assert!(reg.register_message(("a".to_owned(), 0, 1), 10_000).is_some());
    assert!(reg.register_message(("a".to_owned(), 0, 2), 10_000).is_none());
    assert_eq!(reg.last_commit_time(), 10_000);
}

#[test]
fn a_clock_reading_before_the_last_flush_flushes_nothing() {
    let mut reg = AutoCommitRegistry::new(2000, CommitMode::Sync, 5000);
    assert!(reg.register_message(("a".to_owned(), 0, 1), 100).is_none());
    assert_eq!(reg.last_commit_time(), 5000);
    assert_eq!(reg.offsets().get("a", 0), Some(1));
}

#[test]
fn scheduled_flush_carries_the_translated_offsets() {
    let mut reg = AutoCommitRegistry::new(10, CommitMode::Async, 0);
    assert!(reg.register_message(("t1".to_owned(), 0, 0), 1).is_none());
    assert!(reg.register_message(("t1".to_owned(), 1, 1), 2).is_none());
    let request: CommitRequest = reg.register_message(("t2".to_owned(), 0, 2), 10).unwrap();

    let mut tpl = TopicPartitionList::new();
    tpl.add_topic_with_partitions_and_offsets("t1", &vec![(0, 0), (1, 1)]);
    tpl.add_topic_with_partitions_and_offsets("t2", &vec![(0, 2)]);
    assert_eq!(request.offsets, tpl);
    assert_eq!(request.mode, CommitMode::Async);
    assert_eq!(request.snapshot, *reg.offsets());
    assert_eq!(request.snapshot.len(), 3);
}

#[test]
fn scheduled_flush_without_observer_discards_the_outcome() {
    let mut reg = AutoCommitRegistry::new(10, CommitMode::Sync, 0);
    let request = reg.register_message(("a".to_owned(), 0, 1), 10).unwrap();
    assert_eq!(request.route, ResultRoute::Discard);
    let failed: Result<(), String> = Err("broker unreachable".to_owned());
    assert!(matches!(request.deliver(failed), Delivery::Dropped));
}

#[test]
fn scheduled_flush_with_observer_hands_it_success_and_failure() {
    let mut reg = AutoCommitRegistry::new(10, CommitMode::Sync, 0);
    reg.set_callback();
    assert!(reg.has_callback());
    let first = reg.register_message(("a".to_owned(), 0, 1), 10).unwrap();
    assert_eq!(first.route, ResultRoute::Observer);
    assert_eq!(first.snapshot.get("a", 0), Some(1));
    let ok: Result<(), String> = Ok(());
    assert!(matches!(first.deliver(ok), Delivery::Observer(Ok(()))));

    let second = reg.register_message(("a".to_owned(), 0, 2), 20).unwrap();
    assert_eq!(second.route, ResultRoute::Observer);
    assert_eq!(second.snapshot.get("a", 0), Some(2));
    let failed: Result<(), String> = Err("stale coordinator".to_owned());
    match second.deliver(failed) {
        Delivery::Observer(Err(e)) => assert_eq!(e, "stale coordinator"),
        _ => panic!("the observer is owed the failure"),
    }
}

#[test]
fn a_failed_flush_does_not_roll_the_timer_back() {
    let mut reg = AutoCommitRegistry::new(10, CommitMode::Sync, 0);
    let request = reg.register_message(("a".to_owned(), 0, 1), 10).unwrap();
    let failed: Result<(), String> = Err("broker unreachable".to_owned());
    let _ = request.deliver(failed);
    assert_eq!(reg.last_commit_time(), 10);
    assert!(reg.maybe_commit(19).is_none());
    assert!(reg.maybe_commit(20).is_some());
}

#[test]
fn explicit_commit_goes_to_the_caller_and_resets_the_timer() {
    let mut reg = AutoCommitRegistry::new(2000, CommitMode::Sync, 0);
    reg.set_callback();
    assert!(reg.register_message(("a".to_owned(), 0, 1), 100).is_none());
    let request = reg.commit(150);
    assert_eq!(request.route, ResultRoute::Caller);
    assert_eq!(request.mode, CommitMode::Sync);
    assert_eq!(request.snapshot.get("a", 0), Some(1));
    assert_eq!(reg.last_commit_time(), 150);
    let failed: Result<(), String> = Err("not authorized".to_owned());
    match request.deliver(failed) {
        Delivery::Caller(Err(e)) => assert_eq!(e, "not authorized"),
        _ => panic!("the caller is owed the failure"),
    }
    // 2000 ms count from the explicit commit.
    assert!(reg.maybe_commit(2149).is_none());
    assert!(reg.maybe_commit(2150).is_some());
}

#[test]
fn explicit_commit_of_nothing_is_an_empty_commit() {
    let mut reg = AutoCommitRegistry::new(2000, CommitMode::Async, 0);
    let request = reg.commit(5);
    assert_eq!(request.offsets, TopicPartitionList::new());
    assert!(request.snapshot.is_empty());
}

#[test]
fn only_the_last_release_commits() {
    let mut reg = AutoCommitRegistry::new(2000, CommitMode::Sync, 0);
    reg.set_callback();
    reg.share();
    reg.share();
    assert_eq!(reg.handles(), 3);
    assert!(reg.register_message(("a".to_owned(), 0, 1), 1).is_none());
    assert!(reg.release(2).is_none());
    assert!(reg.register_message(("b".to_owned(), 3, 8), 3).is_none());
    assert!(reg.release(4).is_none());
    assert_eq!(reg.handles(), 1);
    assert_eq!(reg.last_commit_time(), 0);

    let last = reg.release(5).unwrap();
    assert_eq!(last.route, ResultRoute::Discard);
    assert_eq!(last.mode, CommitMode::Sync);
    let mut expected = OffsetMap::new();
    expected.insert("a".to_owned(), 0, 1);
    expected.insert("b".to_owned(), 3, 8);
    assert_eq!(last.snapshot, expected);
    let mut tpl = TopicPartitionList::new();
    tpl.add_topic_with_partitions_and_offsets("a", &vec![(0, 1)]);
    tpl.add_topic_with_partitions_and_offsets("b", &vec![(3, 8)]);
    assert_eq!(last.offsets, tpl);
    assert_eq!(reg.handles(), 0);
    assert_eq!(reg.last_commit_time(), 5);
    let failed: Result<(), String> = Err("broker unreachable".to_owned());
    assert!(matches!(last.deliver(failed), Delivery::Dropped));
}

#[test]
fn sharing_keeps_offsets_and_timer() {
    let mut reg = AutoCommitRegistry::new(2000, CommitMode::Sync, 40);
    assert!(reg.register_message(("a".to_owned(), 0, 1), 50).is_none());
    reg.share();
    assert_eq!(reg.offsets().get("a", 0), Some(1));
    assert_eq!(reg.last_commit_time(), 40);
    assert_eq!(reg.handles(), 2);
}
