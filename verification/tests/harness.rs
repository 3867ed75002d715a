use slate_benchmark::cut::{MemKVSFactory, SlateCUT, StorageFactory};
use slate_benchmark::entry::Entry;
use slate_benchmark::storage::{Error, Storage};
use slate_benchmark::driver::{
    distinct, ensure, gauge_points, run_query, volume, FileAppendDriver, FileCacheDriver, FileQueryDriver,
    FileVolumeDriver, MemKVSQueryDriver, MemoryAppendDriver, RocksDBAppendDriver,
    RocksDBQueryDriver,
};
use slate_benchmark::hashtree::{HashTree, SlateHashTree};
use slate_benchmark::splitmix64;
use slate_benchmark::stat::{
    estimate_nanos, is_expired, notice_due, span_to_end, stamp_of, time_left, ExpirationTimer,
    Span, Stamp, TimeLeft, Unit,
};
use std::time::Duration;

#[test]
fn a_component_is_filled_and_checked() {
    let mut cut = SlateCUT::new(MemKVSFactory::new(16)).unwrap();
    assert_eq!(cut.implementation(), "slate-memkvs");
    assert_eq!(MemKVSFactory::name(), "slate-memkvs");
    assert_eq!(cut.append(10, splitmix64).unwrap(), 0);
    assert_eq!(cut.n(), 10);
    cut.prepare(25, splitmix64).unwrap();
    assert_eq!(cut.n(), 25);
    for i in 1..=25 {
        assert!(cut.get(i, splitmix64).unwrap());
        assert!(!cut.get(i, |i| i).unwrap());
    }
    for level in 0..=3 {
        cut.set_cache_level(level).unwrap();
        for i in 1..=25 {
            assert!(cut.get(i, splitmix64).unwrap());
        }
    }
    cut.clear().unwrap();
    assert_eq!(cut.n(), 0);
}

#[test]
fn two_components_converge_on_their_difference() {
    let mut cut = SlateCUT::new(MemKVSFactory::new(16)).unwrap();
    cut.prepare(64, splitmix64).unwrap();
    for differing in [1u64, 2, 31, 32, 33, 64] {
        let mut other = cut.alternate().unwrap();
        other
            .prepare(64, |k| if k == differing { splitmix64(splitmix64(k)) } else { splitmix64(k) })
            .unwrap();
        assert_eq!(cut.prove(&other).unwrap(), Some(differing));
    }
    let mut same = cut.alternate().unwrap();
    same.prepare(64, splitmix64).unwrap();
    assert_eq!(cut.prove(&same).unwrap(), None);
}

#[test]
fn drivers_append_and_query_mixed_values() {
    let mut driver = MemoryAppendDriver::new();
    let mut db = driver.setup(100).unwrap();
    driver.run(&mut db, 9).unwrap();
    assert_eq!(db.n(), 9);
    FileAppendDriver::new().run(&mut db, 3).unwrap();
    RocksDBAppendDriver::new().run(&mut db, 0).unwrap();
    assert_eq!(db.n(), 12);
    assert_eq!(db.get(10).unwrap(), Some(splitmix64(1).to_le_bytes().to_vec()));
    assert!(FileAppendDriver::new().path.is_none());
    assert!(RocksDBAppendDriver::new().dir.is_none());
    assert!(FileQueryDriver::new().path.is_none());
    assert!(RocksDBQueryDriver::new().dir.is_none());
    assert!(FileVolumeDriver::new().path.is_none());
    assert_eq!(FileCacheDriver::new(3).level(), 3);

    let mut query = MemKVSQueryDriver::new();
    let db = query.setup(20).unwrap();
    assert_eq!(db.n(), 20);
    for i in 1..=20 {
        assert!(query.run(&db, i).unwrap());
        assert!(FileQueryDriver::new().run(&db, i).unwrap());
        assert!(RocksDBQueryDriver::new().run(&db, i).unwrap());
        assert!(FileCacheDriver::new(2).run(&db, i).unwrap());
        assert!(run_query(&db, i).unwrap());
    }
}

#[test]
fn ensure_fills_up_and_leaves_a_longer_log() {
    let mut query = MemKVSQueryDriver::new();
    let mut db = query.setup(5).unwrap();
    ensure(&mut db, 3).unwrap();
    assert_eq!(db.n(), 5);
    ensure(&mut db, 8).unwrap();
    assert_eq!(db.n(), 8);
    assert_eq!(db.get(8).unwrap(), Some(splitmix64(8).to_le_bytes().to_vec()));
}

#[test]
fn volume_is_the_position_of_the_next_entry() {
    let mut query = MemKVSQueryDriver::new();
    let mut db = query.setup(10).unwrap();
    // in a store in memory the metadata record stands at position 1 and
    // the record of entry i at position i + 1
    assert_eq!(volume(&mut db, 4).unwrap(), Some(6));
    assert_eq!(FileVolumeDriver::new().run(&mut db, 9).unwrap(), Some(11));
    assert_eq!(volume(&mut db, 10).unwrap(), None);
    assert_eq!(volume(&mut db, 12).unwrap(), None);
    assert_eq!(db.n(), 12);
}

#[test]
fn the_log_is_a_hash_tree() {
    let mut query = MemKVSQueryDriver::new();
    let db = query.setup(6).unwrap();
    let tree = SlateHashTree::new(db);
    assert_eq!(tree.size(), 6);
    assert_eq!(tree.get(0).unwrap(), None);
    assert_eq!(tree.get(6).unwrap(), Some(splitmix64(6).to_le_bytes().to_vec()));
    assert_eq!(tree.get(7).unwrap(), None);
    assert_eq!(tree.into_log().n(), 6);
}

#[test]
fn a_budget_is_used_up_when_the_time_reaches_it() {
    assert!(is_expired(10, 10));
    assert!(is_expired(11, 10));
    assert!(!is_expired(9, 10));
    assert!(ExpirationTimer::new(Duration::ZERO, 10, 100, 10).expired());
    assert!(!ExpirationTimer::new(Duration::from_secs(3600), 10, 100, 10).expired());
}

#[test]
fn a_report_is_due_by_time_or_by_trials() {
    // by time
    assert!(notice_due(600, 600, 1, 2, 100, 10));
    // the trials are done
    assert!(notice_due(0, 600, 99, 100, 100, 10));
    // another stretch of ten trials begins
    assert!(notice_due(0, 600, 9, 10, 100, 10));
    assert!(!notice_due(0, 600, 10, 11, 100, 10));
    // never on the first trial
    assert!(!notice_due(0, 600, 0, 10, 100, 10));
    assert!(!notice_due(0, 600, 0, 1, 100, 0));

    let mut timer = ExpirationTimer::new(Duration::from_secs(3600), 10, 20, 10);
    assert!(!timer.carried_out(1));
    assert!(timer.carried_out(1));
    assert!(!timer.carried_out(1));
    assert!(timer.carried_out(17));
    assert!(timer.elapsed() < Duration::from_secs(3600));
}

#[test]
fn the_end_is_estimated_from_the_pace_so_far() {
    assert_eq!(estimate_nanos(1000, 4, 10), 2500);
    assert_eq!(estimate_nanos(1001, 4, 10), 2500);
    assert_eq!(estimate_nanos(u128::MAX, 1, 2), u64::MAX);
    assert_eq!(estimate_nanos(1 << 70, 1, 1), u64::MAX);
    assert_eq!(estimate_nanos(0, 7, 1000), 0);
    let mut timer = ExpirationTimer::new(Duration::from_secs(1), 10, 20, 10);
    let far = timer.estimated_end_time();
    assert!(far > std::time::Instant::now() + Duration::from_secs(364 * 24 * 3600));
    timer.carried_out(10);
    let near = timer.estimated_end_time();
    assert!(near < far);
}

#[test]
fn quantities_scale_by_their_unit() {
    assert_eq!(Unit::Bytes.scale(), 1024);
    assert_eq!(Unit::Milliseconds.scale(), 1000);
    assert_eq!(Unit::Bytes.prefixes(), 6);
    assert_eq!(Unit::Milliseconds.prefixes(), 4);
    assert_eq!(Unit::Bytes.prefix_of(1023), 0);
    assert_eq!(Unit::Bytes.prefix_of(1024), 1);
    assert_eq!(Unit::Bytes.prefix_of(1024 * 1024), 2);
    assert_eq!(Unit::Bytes.prefix_of(u64::MAX), 5);
    assert_eq!(Unit::Milliseconds.prefix_of(999), 0);
    assert_eq!(Unit::Milliseconds.prefix_of(1_000_000), 2);
    assert_eq!(Unit::Milliseconds.prefix_of(u64::MAX), 3);
}

#[test]
fn a_time_left_is_shown_in_its_two_greatest_units() {
    assert_eq!(time_left(3725), TimeLeft::Hours { hours: 1, minutes: 2 });
    assert_eq!(time_left(3600), TimeLeft::Hours { hours: 1, minutes: 0 });
    assert_eq!(time_left(3599), TimeLeft::Minutes { minutes: 59, seconds: 59 });
    assert_eq!(time_left(125), TimeLeft::Minutes { minutes: 2, seconds: 5 });
    assert_eq!(time_left(60), TimeLeft::Minutes { minutes: 1, seconds: 0 });
    assert_eq!(time_left(59), TimeLeft::Seconds { seconds: 59 });
    assert_eq!(time_left(0), TimeLeft::Seconds { seconds: 0 });
    assert_eq!(time_left(-61), TimeLeft::Seconds { seconds: -1 });
    assert_eq!(time_left(-61), TimeLeft::Seconds { seconds: -61 % 60 });
    assert_eq!(time_left(i64::MIN), TimeLeft::Seconds { seconds: i64::MIN % 60 });
}

#[test]
fn the_expected_end_is_shown_by_how_far_it_is() {
    assert_eq!(stamp_of(false, 0), Stamp::DayAndMinute);
    assert_eq!(stamp_of(false, 30), Stamp::DayAndMinute);
    assert_eq!(stamp_of(true, 1), Stamp::Minute);
    assert_eq!(stamp_of(true, 0), Stamp::Second);
    assert_eq!(stamp_of(true, -1), Stamp::Second);
}

#[test]
fn a_scale_keeps_each_point_where_it_comes_first() {
    assert_eq!(distinct(&vec![1, 2, 2, 3, 1, 7, 3]), vec![1, 2, 3, 7]);
    assert_eq!(distinct(&vec![5, 5, 5]), vec![5]);
    assert_eq!(distinct(&vec![9, 8, 7]), vec![9, 8, 7]);
    assert_eq!(distinct(&Vec::new()), Vec::<u64>::new());
}

#[test]
fn the_end_is_reckoned_from_now_until_a_trial_is_done() {
    assert_eq!(span_to_end(1_000, 0, 10), Span::FromNow { nanos: 31_536_000_000_000_000 });
    assert_eq!(span_to_end(1_000, 4, 10), Span::FromStart { nanos: 2_500 });
    assert_eq!(span_to_end(u128::MAX, 1, 2), Span::FromStart { nanos: u64::MAX });
}

#[test]
fn a_timer_without_a_budget_has_expired() {
    let timer = ExpirationTimer::new(Duration::from_nanos(0), 1, 10, 2);
    assert!(timer.expired());
    let later = ExpirationTimer::new(Duration::from_secs(3600), 1, 10, 2);
    assert!(!later.expired());
    assert!(later.estimated_end_time() > std::time::Instant::now());
    assert!(later.elapsed() < Duration::from_secs(3600));
}

#[test]
fn the_points_of_the_best_and_the_worst_case_are_the_limits_of_each_distance() {
    assert_eq!(gauge_points(false, 13), vec![13, 1]);
    assert_eq!(gauge_points(true, 13), vec![13, 12]);
    assert_eq!(gauge_points(false, 8), vec![1]);
    assert_eq!(gauge_points(true, 8), vec![8]);
    assert_eq!(gauge_points(false, 3), vec![3, 1]);
    assert_eq!(gauge_points(true, 3), vec![3, 2]);
    assert_eq!(gauge_points(false, 1), vec![1]);
    assert_eq!(gauge_points(true, 0), Vec::<u64>::new());
}

#[test]
fn a_timer_made_with_a_budget_in_nanoseconds_expires_by_it() {
    assert!(ExpirationTimer::with_budget(0, 1, 10, 2).expired());
    assert!(!ExpirationTimer::with_budget(3_600_000_000_000, 1, 10, 2).expired());
}

#[test]
fn a_factory_keeps_what_was_written_through_its_storage() {
    let mut cut = SlateCUT::new(MemKVSFactory::new(16)).unwrap();
    cut.prepare(12, splitmix64).unwrap();
    let factory = cut.into_factory();
    let mut again = SlateCUT::new(factory).unwrap();
    assert_eq!(again.n(), 12);
    for i in 1..=12 {
        assert!(again.get(i, splitmix64).unwrap());
    }
    again.clear().unwrap();
    assert_eq!(again.n(), 0);
    let factory = again.into_factory();
    assert_eq!(SlateCUT::new(factory).unwrap().n(), 0);
}

#[test]
fn a_factory_has_one_storage_at_a_time() {
    let mut factory = MemKVSFactory::new(4);
    let mut storage = factory.new_storage().unwrap();
    assert_eq!(storage.len(), 0);
    assert_eq!(factory.new_storage().err(), Some(Error::Invariant));
    assert_eq!(SlateCUT::new(factory).err(), Some(Error::Invariant));
    let mut factory = MemKVSFactory::new(4);
    storage.put(1, &Entry::metadata()).unwrap();
    factory.give_back(storage);
    assert_eq!(factory.new_storage().unwrap().len(), 1);
    factory.clear().unwrap();
    assert_eq!(factory.new_storage().unwrap().len(), 0);
    assert_eq!(factory.alternate().unwrap().new_storage().unwrap().len(), 0);
    assert_eq!(factory.storage_size().unwrap(), 0);
}
