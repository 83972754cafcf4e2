//! Correlation index, kernel lookup and time aggregation on chosen values.

use nsys_chrome::linker::adapters::{EventId, NsysEventAdapter};
use nsys_chrome::linker::algorithms::{
    aggregate_kernel_times, build_correlation_map, find_kernels_for_annotation,
};
use nsys_chrome::models::{ArgValue, ChromeTraceEvent, Micros};

fn kernel(id: usize, name: &str, range: Option<(i64, i64)>, corr: Option<i64>) -> ChromeTraceEvent {
    let mut event = ChromeTraceEvent::complete(
        name.to_string(),
        Micros::from_nanos(0),
        Micros::from_nanos(0),
        "Device 0".to_string(),
        "Stream 1".to_string(),
        "kernel".to_string(),
    )
    .with_identity(EventId(id));
    if let Some((start, end)) = range {
        event = event.with_arg("start_ns", ArgValue::Int(start)).with_arg("end_ns", ArgValue::Int(end));
    }
    if let Some(corr) = corr {
        event = event.with_arg("correlationId", ArgValue::Int(corr));
    }
    event
}

fn names(events: &[&ChromeTraceEvent]) -> Vec<String> {
    events.iter().map(|e| e.name.clone()).collect()
}

#[test]
fn test_buckets_keep_input_order() {
    let k1 = kernel(1, "k1", None, Some(7));
    let k2 = kernel(2, "k2", None, Some(8));
    let k3 = kernel(3, "k3", None, Some(7));
    let k4 = kernel(4, "k4", None, None);
    let k5 = kernel(5, "k5", None, Some(7));
    let map = build_correlation_map(&[&k1, &k2, &k3, &k4, &k5], &NsysEventAdapter);
    assert_eq!(map.len(), 2);
    assert_eq!(names(&map[&7]), vec!["k1", "k3", "k5"]);
    assert_eq!(names(&map[&8]), vec!["k2"]);
}

#[test]
fn test_kernels_without_identifier_are_in_no_bucket() {
    let k1 = kernel(1, "k1", None, None);
    let k2 = kernel(2, "k2", None, Some(0));
    let k3 = kernel(3, "k3", None, None);
    let map = build_correlation_map(&[&k1, &k2, &k3], &NsysEventAdapter);
    assert_eq!(map.len(), 1);
    let total: usize = map.values().map(|bucket| bucket.len()).sum();
    assert_eq!(total, 1);
    for bucket in map.values() {
        for k in bucket.iter() {
            assert_eq!(k.name, "k2");
        }
    }
    let none = build_correlation_map(&[&k1, &k3], &NsysEventAdapter);
    assert!(none.is_empty());
}

#[test]
fn test_buckets_group_by_equal_identifier_only() {
    let k1 = kernel(1, "k1", None, Some(-1));
    let k2 = kernel(2, "k2", None, Some(1));
    let k3 = kernel(3, "k3", None, Some(i32::MAX as i64));
    let k4 = kernel(4, "k4", None, Some(i32::MIN as i64));
    let k5 = kernel(5, "k5", None, Some(1));
    let map = build_correlation_map(&[&k1, &k2, &k3, &k4, &k5], &NsysEventAdapter);
    assert_eq!(map.len(), 4);
    assert_eq!(names(&map[&-1]), vec!["k1"]);
    assert_eq!(names(&map[&1]), vec!["k2", "k5"]);
    assert_eq!(names(&map[&i32::MAX]), vec!["k3"]);
    assert_eq!(names(&map[&i32::MIN]), vec!["k4"]);
    assert!(!map.contains_key(&0));
}

#[test]
fn test_the_same_kernel_given_twice_is_twice_in_its_bucket() {
    let k1 = kernel(1, "k1", None, Some(7));
    let map = build_correlation_map(&[&k1, &k1], &NsysEventAdapter);
    assert_eq!(names(&map[&7]), vec!["k1", "k1"]);
}

#[test]
fn test_aggregate_takes_min_of_starts_and_max_of_ends() {
    let k1 = kernel(1, "k1", Some((150000, 200000)), None);
    let k2 = kernel(2, "k2", Some((140000, 250000)), None);
    let k3 = kernel(3, "k3", Some((145000, 146000)), None);
    assert_eq!(aggregate_kernel_times(&[&k1, &k2, &k3], &NsysEventAdapter), Some((140000, 250000)));
    assert_eq!(aggregate_kernel_times(&[&k3, &k1], &NsysEventAdapter), Some((145000, 200000)));
    // the earliest start and the latest end may come from different kernels
    let a = kernel(4, "a", Some((0, 10)), None);
    let b = kernel(5, "b", Some((5, 100)), None);
    assert_eq!(aggregate_kernel_times(&[&a, &b], &NsysEventAdapter), Some((0, 100)));
    assert_eq!(aggregate_kernel_times(&[&b, &a], &NsysEventAdapter), Some((0, 100)));
}

#[test]
fn test_aggregate_leaves_out_kernels_without_range() {
    let blind = kernel(1, "blind", None, Some(1));
    let k = kernel(2, "k", Some((10, 20)), None);
    assert_eq!(aggregate_kernel_times(&[&blind], &NsysEventAdapter), None);
    assert_eq!(aggregate_kernel_times(&[&blind, &blind], &NsysEventAdapter), None);
    assert_eq!(aggregate_kernel_times(&[&blind, &k, &blind], &NsysEventAdapter), Some((10, 20)));
}

#[test]
fn test_aggregate_with_negative_and_extreme_times() {
    let a = kernel(1, "a", Some((-50, -40)), None);
    let b = kernel(2, "b", Some((i64::MIN, 0)), None);
    let c = kernel(3, "c", Some((7, i64::MAX)), None);
    assert_eq!(aggregate_kernel_times(&[&a], &NsysEventAdapter), Some((-50, -40)));
    assert_eq!(aggregate_kernel_times(&[&a, &b, &c], &NsysEventAdapter), Some((i64::MIN, i64::MAX)));
}

#[test]
fn test_aggregate_of_a_kernel_that_ends_before_it_starts() {
    let backwards = kernel(1, "backwards", Some((200, 100)), None);
    assert_eq!(aggregate_kernel_times(&[&backwards], &NsysEventAdapter), Some((200, 100)));
    let k = kernel(2, "k", Some((150, 160)), None);
    assert_eq!(aggregate_kernel_times(&[&backwards, &k], &NsysEventAdapter), Some((150, 160)));
}

#[test]
fn test_kernels_are_found_call_by_call() {
    let api1 = kernel(1, "api1", None, Some(8));
    let api2 = kernel(2, "api2", None, None);
    let api3 = kernel(3, "api3", None, Some(7));
    let api4 = kernel(4, "api4", None, Some(99));
    let api5 = kernel(5, "api5", None, Some(8));
    let k1 = kernel(6, "k1", None, Some(7));
    let k2 = kernel(7, "k2", None, Some(8));
    let k3 = kernel(8, "k3", None, Some(7));
    let map = build_correlation_map(&[&k1, &k2, &k3], &NsysEventAdapter);
    let found = find_kernels_for_annotation(
        &[&api1, &api2, &api3, &api4, &api5],
        &map,
        &NsysEventAdapter,
    );
    assert_eq!(names(&found), vec!["k2", "k1", "k3", "k2"]);
}
