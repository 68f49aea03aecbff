use geyser_fanout::latency::{
    latency_buckets, on_batch_dispatched, on_batch_dispatched_from, on_message_received,
    take_batch_start, BatchStart,
};
use geyser_fanout::names::{is_cleanup_due, FilterName, FilterNameError, FilterNames};
use std::borrow::Borrow;
use std::sync::Arc;
use std::time::{Duration, Instant};

#[test]
fn test_independent_filter_names_enforce_own_limits() {
    let mut small_limit = FilterNames::new(5, 1024, Duration::from_secs(1));
    let mut large_limit = FilterNames::new(100, 1024, Duration::from_secs(1));

    let long_name = "a".repeat(50);

    assert!(matches!(
        small_limit.get(&long_name),
        Err(FilterNameError::Oversized { limit: 5, size: 50 })
    ));
    assert!(large_limit.get(&long_name).is_ok());
}

#[test]
fn test_filter_names_no_longer_intern_across_instances() {
    let mut connection_a = FilterNames::new(64, 1024, Duration::from_secs(1));
    let mut connection_b = FilterNames::new(64, 1024, Duration::from_secs(1));

    let name_a = connection_a.get("shared").unwrap();
    let name_b = connection_b.get("shared").unwrap();

    assert_eq!(name_a.as_ref(), name_b.as_ref());
    assert!(!Arc::ptr_eq(&name_a.0, &name_b.0));
}

#[test]
fn names_are_kept_once_and_shared() {
    let mut names = FilterNames::new(64, 1024, Duration::from_secs(1));
    let first = names.get("client").unwrap();
    let second = names.get("client").unwrap();
    assert!(Arc::ptr_eq(&first.0, &second.0));
    assert_eq!(first.as_ref(), "client");
    assert!(!first.is_uniq());
    assert!(FilterName::new("alone").is_uniq());
}

#[test]
fn size_is_counted_in_bytes() {
    let mut names = FilterNames::new(3, 1024, Duration::from_secs(1));
    assert!(names.get("abc").is_ok());
    assert!(names.get("\u{e9}a").is_ok());
    let error = names.get("\u{e9}\u{e9}").unwrap_err();
    assert_eq!(error, FilterNameError::Oversized { limit: 3, size: 4 });
    assert_eq!(error.message(), "oversized filter name (max allowed size 3), found 4");
}

#[test]
fn clean_up_drops_names_that_nobody_holds() {
    let mut names = FilterNames::new(64, 1, Duration::from_nanos(0));
    let held = names.get("held").unwrap();
    let dropped = Arc::downgrade(&names.get("dropped").unwrap().0);
    std::hint::black_box((0..1000u64).sum::<u64>());
    while dropped.upgrade().is_some() {
        names.try_clean();
    }
    let again = names.get("held").unwrap();
    assert!(Arc::ptr_eq(&held.0, &again.0));
}

#[test]
fn clean_up_waits_for_too_many_names_and_for_its_time() {
    let mut few = FilterNames::new(64, 1, Duration::from_nanos(0));
    let name = Arc::downgrade(&few.get("one").unwrap().0);
    few.try_clean();
    assert!(name.upgrade().is_some());

    let mut early = FilterNames::new(64, 0, Duration::from_secs(3600));
    let name = Arc::downgrade(&early.get("one").unwrap().0);
    early.try_clean();
    assert!(name.upgrade().is_some());

    assert!(is_cleanup_due(2, 1, 11, 10));
    assert!(!is_cleanup_due(2, 1, 10, 10));
    assert!(!is_cleanup_due(1, 1, 11, 10));
}

#[test]
fn clean_up_drops_the_names_with_one_handle_when_it_is_due() {
    let mut names = FilterNames::new(64, 2, Duration::from_nanos(10));
    let held: Vec<FilterName> =
        ["a", "b", "c"].iter().map(|name| names.get(name).unwrap()).collect();
    names.clean_counted(10, &vec![2, 1, 3], Instant::now());
    assert!(Arc::ptr_eq(&held[1].0, &names.get("b").unwrap().0));
    names.clean_counted(11, &vec![2, 1, 3], Instant::now());
    names.clean_counted(11, &vec![1, 1], Instant::now());
    assert!(Arc::ptr_eq(&held[0].0, &names.get("a").unwrap().0));
    assert!(Arc::ptr_eq(&held[2].0, &names.get("c").unwrap().0));
    assert!(!Arc::ptr_eq(&held[1].0, &names.get("b").unwrap().0));
}

#[test]
fn clean_up_starts_the_interval_anew() {
    let mut names = FilterNames::new(64, 0, Duration::from_secs(3600));
    names.get("a").unwrap();
    let long_ago = Instant::now().checked_sub(Duration::from_secs(7200)).unwrap_or_else(Instant::now);
    names.clean_counted(u128::MAX, &vec![2], long_ago);
    let kept = Arc::downgrade(&names.get("b").unwrap().0);
    names.clean_counted(u128::MAX, &vec![2, 2], Instant::now());
    names.try_clean();
    assert!(kept.upgrade().is_some());
}

#[test]
fn name_reads_as_its_text() {
    let name = FilterName::new("client");
    let borrowed: &str = name.borrow();
    assert_eq!(borrowed, "client");
    assert_eq!(&*name, "client");
}

#[test]
fn names_are_equal_by_text() {
    let name = FilterName::new("client");
    assert!(name == FilterName::new("client"));
    assert!(name != FilterName::new("other"));
    assert!(!Arc::ptr_eq(&name.0, &FilterName::new("client").0));
}

#[test]
fn flagged_names_are_dropped() {
    let mut names = FilterNames::new(64, 0, Duration::from_secs(1));
    let held: Vec<FilterName> =
        ["a", "b", "c"].iter().map(|name| names.get(name).unwrap()).collect();
    names.drop_flagged(&vec![false, true, false]);
    assert!(Arc::ptr_eq(&held[0].0, &names.get("a").unwrap().0));
    assert!(!Arc::ptr_eq(&held[1].0, &names.get("b").unwrap().0));
    assert!(Arc::ptr_eq(&held[2].0, &names.get("c").unwrap().0));
    assert_eq!(held[0], held[0].clone());
}

#[test]
fn batch_is_measured_from_its_first_message() {
    let mut start = BatchStart::new();
    assert_eq!(on_batch_dispatched(&mut start, 9_000), None);
    on_message_received(&mut start, 100_000);
    on_message_received(&mut start, 140_000);
    assert_eq!(on_batch_dispatched(&mut start, 250_000), Some(150));
    assert_eq!(on_batch_dispatched(&mut start, 300_000), None);
    on_message_received(&mut start, 400_000);
    assert_eq!(take_batch_start(&mut start), Some(400_000));
    assert_eq!(take_batch_start(&mut start), None);
    assert_eq!(on_batch_dispatched_from(400_000, 450_000), 50);
    assert_eq!(on_batch_dispatched_from(450_000, 400_000), 0);
    // whole microseconds of the difference, not the difference of whole microseconds
    assert_eq!(on_batch_dispatched_from(1_999, 3_001), 1);
    assert_eq!(on_batch_dispatched_from(1_999, 2_000), 0);
    assert_eq!(
        latency_buckets(),
        vec![1, 5, 10, 25, 50, 100, 250, 500, 1_000, 2_500, 5_000, 10_000]
    );
}
