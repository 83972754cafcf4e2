//! The overlap rule, the order of reported targets and the treatment of
//! identities, on chosen values.

use nsys_chrome::linker::adapters::{EventAdapter, EventId, NsysEventAdapter};
use nsys_chrome::linker::algorithms::{find_overlapping_intervals, OverlapMap};
use nsys_chrome::linker::sweep::sweep_overlaps;
use nsys_chrome::models::{ArgValue, ChromeTraceEvent, Micros};

fn event(id: usize, name: &str, start_ns: i64, end_ns: i64) -> ChromeTraceEvent {
    ChromeTraceEvent::complete(
        name.to_string(),
        Micros::from_nanos(start_ns),
        Micros::between(start_ns, end_ns),
        "Device 0".to_string(),
        "Stream 1".to_string(),
        "kernel".to_string(),
    )
    .with_identity(EventId(id))
    .with_arg("start_ns", ArgValue::Int(start_ns))
    .with_arg("end_ns", ArgValue::Int(end_ns))
}

fn event_without_range(id: usize, name: &str) -> ChromeTraceEvent {
    ChromeTraceEvent::complete(
        name.to_string(),
        Micros::from_nanos(0),
        Micros::from_nanos(0),
        "Device 0".to_string(),
        "Stream 1".to_string(),
        "kernel".to_string(),
    )
    .with_identity(EventId(id))
}

fn names(map: &OverlapMap, id: usize) -> Vec<String> {
    match map.get(&EventId(id)) {
        Some(list) => list.iter().map(|e| e.name.clone()).collect(),
        None => Vec::new(),
    }
}

/// Whether one source with the range `s` catches one target with the range `t`.
fn caught(s: (i64, i64), t: (i64, i64)) -> bool {
    let source = event(1, "source", s.0, s.1);
    let target = event(2, "target", t.0, t.1);
    let result = find_overlapping_intervals(&[&source], &[&target], &NsysEventAdapter);
    let found = names(&result, 1);
    assert!(found.is_empty() || found == vec!["target".to_string()]);
    assert_eq!(result.is_empty(), found.is_empty());
    !found.is_empty()
}

#[test]
fn test_overlap_rule_with_valid_bounds() {
    // the target starts inside the source
    assert!(caught((100, 200), (150, 180)));
    assert!(caught((100, 200), (101, 300)));
    // the target starts together with the source
    assert!(caught((100, 200), (100, 150)));
    assert!(caught((100, 200), (100, 100)));
    // the target starts when the source ends
    assert!(caught((100, 200), (200, 300)));
    // the target starts before the source, even where it ends inside it
    assert!(!caught((100, 200), (99, 150)));
    assert!(!caught((100, 200), (50, 300)));
    // the target starts after the source has ended
    assert!(!caught((100, 200), (201, 300)));
}

#[test]
fn test_overlap_rule_matches_formula_on_a_grid() {
    for s1 in 0..4i64 {
        for s2 in s1..4i64 {
            for t1 in 0..5i64 {
                for t2 in t1..5i64 {
                    let expected = (s1 < t1 && t1 <= s2) || s1 == t1 || t1 == s2;
                    assert_eq!(caught((s1, s2), (t1, t2)), expected);
                }
            }
        }
    }
}

#[test]
fn test_zero_duration_source_catches_target_at_its_instant() {
    assert!(caught((150, 150), (150, 200)));
    assert!(!caught((150, 150), (149, 200)));
    assert!(!caught((150, 150), (151, 200)));
}

#[test]
fn test_source_that_ends_before_it_starts_stays_active() {
    assert!(caught((300, 100), (300, 310)));
    assert!(caught((300, 100), (5000, 5001)));
    assert!(!caught((300, 100), (200, 400)));
    assert!(!caught((300, 100), (100, 400)));
}

#[test]
fn test_negative_and_extreme_timestamps() {
    assert!(caught((-200, -100), (-150, 0)));
    assert!(!caught((-200, -100), (-99, 0)));
    assert!(caught((i64::MIN, i64::MAX), (0, 1)));
    assert!(caught((i64::MIN, i64::MAX), (i64::MAX, i64::MAX)));
    assert!(caught((i64::MAX, i64::MAX), (i64::MAX, i64::MAX)));
    assert!(!caught((i64::MAX, i64::MAX), (i64::MIN, i64::MAX)));
}

#[test]
fn test_targets_are_reported_by_start_time() {
    let source = event(1, "source", 0, 1000);
    let late = event(2, "late", 900, 950);
    let early = event(3, "early", 10, 20);
    let middle = event(4, "middle", 500, 2000);
    let result =
        find_overlapping_intervals(&[&source], &[&late, &early, &middle], &NsysEventAdapter);
    assert_eq!(names(&result, 1), vec!["early", "middle", "late"]);
}

#[test]
fn test_targets_with_equal_starts_keep_their_input_order() {
    let source = event(1, "source", 0, 1000);
    let a = event(2, "a", 500, 600);
    let b = event(3, "b", 500, 510);
    let c = event(4, "c", 500, 900);
    let first = event(5, "first", 100, 900);
    let result = find_overlapping_intervals(&[&source], &[&c, &a, &first, &b], &NsysEventAdapter);
    assert_eq!(names(&result, 1), vec!["first", "c", "a", "b"]);
}

#[test]
fn test_a_target_is_reported_for_every_source_that_catches_it() {
    let outer = event(1, "outer", 0, 1000);
    let inner = event(2, "inner", 100, 200);
    let later = event(3, "later", 300, 400);
    let t1 = event(4, "t1", 150, 160);
    let t2 = event(5, "t2", 250, 260);
    let t3 = event(6, "t3", 350, 360);
    let result =
        find_overlapping_intervals(&[&outer, &inner, &later], &[&t3, &t2, &t1], &NsysEventAdapter);
    assert_eq!(result.len(), 3);
    assert_eq!(names(&result, 1), vec!["t1", "t2", "t3"]);
    assert_eq!(names(&result, 2), vec!["t1"]);
    assert_eq!(names(&result, 3), vec!["t3"]);
}

#[test]
fn test_ended_source_keeps_what_it_caught() {
    let source = event(1, "source", 0, 100);
    let t1 = event(2, "t1", 50, 500);
    let t2 = event(3, "t2", 150, 500);
    let result = find_overlapping_intervals(&[&source], &[&t1, &t2], &NsysEventAdapter);
    assert_eq!(names(&result, 1), vec!["t1"]);
}

#[test]
fn test_sources_without_overlap_have_no_entry() {
    let busy = event(1, "busy", 0, 100);
    let idle = event(2, "idle", 200, 300);
    let target = event(3, "target", 50, 60);
    let result = find_overlapping_intervals(&[&busy, &idle], &[&target], &NsysEventAdapter);
    assert_eq!(result.len(), 1);
    assert!(result.contains_key(&EventId(1)));
    assert!(!result.contains_key(&EventId(2)));
    assert!(result.get(&EventId(2)).is_none());
    assert!(!result.is_empty());
}

#[test]
fn test_events_without_time_range_take_no_part() {
    let source = event(1, "source", 0, 100);
    let blind_source = event_without_range(2, "blind");
    let target = event(3, "target", 50, 60);
    let blind_target = event_without_range(4, "unseen");
    let only_start = event_without_range(5, "half").with_arg("start_ns", ArgValue::Int(50));
    let only_end = event_without_range(6, "other half").with_arg("end_ns", ArgValue::Int(60));
    let result = find_overlapping_intervals(
        &[&blind_source, &source, &only_start],
        &[&blind_target, &only_end, &target, &only_start],
        &NsysEventAdapter,
    );
    assert_eq!(result.len(), 1);
    assert_eq!(names(&result, 1), vec!["target"]);
}

#[test]
fn test_sources_that_share_an_identity_share_an_entry() {
    let first = event(7, "first", 0, 100);
    let second = event(7, "second", 200, 300);
    let t1 = event(1, "t1", 250, 260);
    let t2 = event(2, "t2", 50, 60);
    let t3 = event(3, "t3", 500, 600);
    let result =
        find_overlapping_intervals(&[&first, &second], &[&t1, &t2, &t3], &NsysEventAdapter);
    assert_eq!(result.len(), 1);
    // in the order of the starts of the targets
    assert_eq!(names(&result, 7), vec!["t2", "t1"]);
}

#[test]
fn test_the_same_source_given_twice_reports_its_targets_twice() {
    let source = event(1, "source", 0, 100);
    let t1 = event(2, "t1", 10, 20);
    let t2 = event(3, "t2", 30, 40);
    let result = find_overlapping_intervals(&[&source, &source], &[&t2, &t1], &NsysEventAdapter);
    assert_eq!(names(&result, 1), vec!["t1", "t1", "t2", "t2"]);
}

#[test]
fn test_one_source_given_twice_over_two_targets() {
    let source = event(1, "source", 100000, 200000);
    let t1 = event(2, "t1", 110000, 120000);
    let t2 = event(3, "t2", 130000, 140000);
    let result = find_overlapping_intervals(&[&source, &source], &[&t1, &t2], &NsysEventAdapter);
    assert_eq!(result.len(), 1);
    assert_eq!(names(&result, 1), vec!["t1", "t1", "t2", "t2"]);
}

#[test]
fn test_sources_of_one_identity_report_in_sweep_order() {
    // the two sources are active in turn and together
    let a = event(7, "a", 0, 100);
    let b = event(7, "b", 50, 150);
    let other = event(8, "other", 0, 1000);
    let t1 = event(1, "t1", 10, 20);
    let t2 = event(2, "t2", 60, 70);
    let t3 = event(3, "t3", 120, 130);
    let t4 = event(4, "t4", 160, 170);
    let result = find_overlapping_intervals(
        &[&b, &other, &a],
        &[&t4, &t3, &t2, &t1],
        &NsysEventAdapter,
    );
    assert_eq!(result.len(), 2);
    assert_eq!(names(&result, 7), vec!["t1", "t2", "t2", "t3"]);
    assert_eq!(names(&result, 8), vec!["t1", "t2", "t3", "t4"]);
}

#[test]
fn test_every_list_is_in_the_order_of_starts() {
    // identities are shared by threes, and the events come in no order
    let sources: Vec<ChromeTraceEvent> = (0..30i64)
        .map(|i| {
            let start = (i * 37) % 200;
            event((i % 10) as usize, "s", start, start + (i * 13) % 90)
        })
        .collect();
    let targets: Vec<ChromeTraceEvent> = (0..120i64)
        .map(|i| {
            let start = (i * 53) % 300;
            event(100 + i as usize, &format!("t{}", i), start, start + 5)
        })
        .collect();
    let source_refs: Vec<&ChromeTraceEvent> = sources.iter().collect();
    let target_refs: Vec<&ChromeTraceEvent> = targets.iter().collect();
    let result = find_overlapping_intervals(&source_refs, &target_refs, &NsysEventAdapter);
    let adapter = NsysEventAdapter;
    let mut found = 0;
    for id in 0..10usize {
        if let Some(list) = result.get(&EventId(id)) {
            found += list.len();
            for pair in list.windows(2) {
                let earlier = adapter.get_time_range(pair[0]).unwrap().0;
                let later = adapter.get_time_range(pair[1]).unwrap().0;
                assert!(earlier <= later);
            }
        }
    }
    // every overlap of a source with a target is there
    let mut expected = 0;
    for s in sources.iter() {
        let (s1, s2) = adapter.get_time_range(s).unwrap();
        for t in targets.iter() {
            let (t1, _) = adapter.get_time_range(t).unwrap();
            if s1 <= t1 && t1 <= s2 {
                expected += 1;
            }
        }
    }
    assert_eq!(found, expected);
    assert!(found > 100);
}

#[test]
fn test_permuting_the_inputs_finds_the_same_overlaps() {
    let s1 = event(1, "s1", 0, 100);
    let s2 = event(2, "s2", 50, 150);
    let s3 = event(3, "s3", 400, 500);
    let t1 = event(4, "t1", 60, 70);
    let t2 = event(5, "t2", 60, 80);
    let t3 = event(6, "t3", 120, 130);
    let t4 = event(7, "t4", 450, 460);
    let t5 = event(8, "t5", 1000, 1001);
    let sources = [&s1, &s2, &s3];
    let targets = [&t1, &t2, &t3, &t4, &t5];
    let base = find_overlapping_intervals(&sources, &targets, &NsysEventAdapter);
    let source_orders: [[usize; 3]; 3] = [[2, 1, 0], [1, 0, 2], [0, 2, 1]];
    let target_orders: [[usize; 5]; 3] = [[4, 3, 2, 1, 0], [1, 0, 3, 2, 4], [2, 4, 0, 3, 1]];
    for so in source_orders.iter() {
        for to in target_orders.iter() {
            let ps: Vec<&ChromeTraceEvent> = so.iter().map(|&i| sources[i]).collect();
            let pt: Vec<&ChromeTraceEvent> = to.iter().map(|&i| targets[i]).collect();
            let permuted = find_overlapping_intervals(&ps, &pt, &NsysEventAdapter);
            assert_eq!(permuted.len(), base.len());
            for id in 1..=3usize {
                let mut expected = names(&base, id);
                let mut found = names(&permuted, id);
                expected.sort();
                found.sort();
                assert_eq!(found, expected);
            }
        }
    }
    assert_eq!(names(&base, 1), vec!["t1", "t2"]);
    assert_eq!(names(&base, 2), vec!["t1", "t2", "t3"]);
    assert_eq!(names(&base, 3), vec!["t4"]);
}

#[test]
fn test_reported_targets_are_the_events_that_were_given() {
    let source = event(1, "source", 0, 100);
    let target = event(2, "target", 10, 20);
    let result = find_overlapping_intervals(&[&source], &[&target], &NsysEventAdapter);
    let list = result.get(&EventId(1)).unwrap();
    assert_eq!(list.len(), 1);
    assert!(std::ptr::eq(list[0], &target));
}

#[test]
fn test_adapter_behind_a_trait_object() {
    let adapter: &dyn EventAdapter = &NsysEventAdapter;
    let source = event(1, "source", 100000, 200000);
    let target = event(2, "target", 150000, 180000);
    let result = find_overlapping_intervals(&[&source], &[&target], adapter);
    assert_eq!(names(&result, 1), vec!["target"]);
    assert_eq!(adapter.get_event_id(&source), EventId(1));
}

/// An adapter for events that keep their bounds under other names.
struct OtherAdapter;

impl EventAdapter for OtherAdapter {
    // The three functions that the contracts speak of say what the `get_`
    // functions return.
    fn time_range(&self, event: &ChromeTraceEvent) -> Option<(i64, i64)> {
        self.get_time_range(event)
    }

    fn correlation_id(&self, event: &ChromeTraceEvent) -> Option<i32> {
        self.get_correlation_id(event)
    }

    fn event_id(&self, event: &ChromeTraceEvent) -> EventId {
        self.get_event_id(event)
    }

    fn get_time_range(&self, event: &ChromeTraceEvent) -> Option<(i64, i64)> {
        let begin = event.args.get_i64("begin")?;
        let length = event.args.get_i64("length")?;
        Some((begin, begin + length))
    }

    fn get_correlation_id(&self, _event: &ChromeTraceEvent) -> Option<i32> {
        None
    }

    fn get_event_id(&self, event: &ChromeTraceEvent) -> EventId {
        event.identity
    }
}

#[test]
fn test_algorithms_run_over_another_adapter() {
    let source = event_without_range(1, "source")
        .with_arg("begin", ArgValue::Int(100))
        .with_arg("length", ArgValue::Int(50));
    let inside = event_without_range(2, "inside")
        .with_arg("begin", ArgValue::Int(150))
        .with_arg("length", ArgValue::Int(1));
    let outside = event_without_range(3, "outside")
        .with_arg("begin", ArgValue::Int(151))
        .with_arg("length", ArgValue::Int(1));
    let result = find_overlapping_intervals(&[&source], &[&outside, &inside], &OtherAdapter);
    assert_eq!(names(&result, 1), vec!["inside"]);
    // the same events mean nothing to the default adapter
    let result = find_overlapping_intervals(&[&source], &[&outside, &inside], &NsysEventAdapter);
    assert!(result.is_empty());
}

#[test]
fn test_events_at_one_timestamp_follow_the_fixed_tie_break() {
    // everything happens at the timestamp 100: the starts of both targets
    // come after the starts and before the ends of both sources
    let s0 = event(1, "s0", 100, 100);
    let s1 = event(2, "s1", 50, 100);
    let t0 = event(3, "t0", 100, 100);
    let t1 = event(4, "t1", 100, 300);
    let lists = sweep_overlaps(&[&s0, &s1], &[&t0, &t1], &NsysEventAdapter);
    let found: Vec<Vec<&str>> =
        lists.iter().map(|l| l.iter().map(|e| e.name.as_str()).collect()).collect();
    assert_eq!(found, vec![vec!["t0", "t1"], vec!["t0", "t1"]]);
}

#[test]
fn test_sweep_overlaps_gathers_at_the_first_source_of_an_identity() {
    let busy = event(1, "busy", 0, 100);
    let blind = event_without_range(2, "blind");
    let idle = event(3, "idle", 200, 300);
    let same = event(1, "same identity", 40, 60);
    let t1 = event(4, "t1", 50, 60);
    let t2 = event(5, "t2", 10, 20);
    let lists = sweep_overlaps(&[&busy, &blind, &idle, &same], &[&t1, &t2], &NsysEventAdapter);
    let found: Vec<Vec<&str>> =
        lists.iter().map(|l| l.iter().map(|e| e.name.as_str()).collect()).collect();
    let none: Vec<&str> = Vec::new();
    assert_eq!(found, vec![vec!["t2", "t1", "t1"], none.clone(), none.clone(), none]);
}

#[test]
fn test_many_events_in_reverse_order() {
    let sources: Vec<ChromeTraceEvent> =
        (0..50).map(|i| event(i, "s", (49 - i as i64) * 10, (49 - i as i64) * 10 + 9)).collect();
    let targets: Vec<ChromeTraceEvent> = (0..500)
        .map(|i| event(1000 + i, &format!("t{}", 499 - i), 499 - i as i64, 499 - i as i64))
        .collect();
    let source_refs: Vec<&ChromeTraceEvent> = sources.iter().collect();
    let target_refs: Vec<&ChromeTraceEvent> = targets.iter().collect();
    let result = find_overlapping_intervals(&source_refs, &target_refs, &NsysEventAdapter);
    assert_eq!(result.len(), 50);
    for i in 0..50usize {
        let start = (49 - i) * 10;
        let expected: Vec<String> = (start..start + 10).map(|t| format!("t{}", t)).collect();
        assert_eq!(names(&result, i), expected);
    }
}
