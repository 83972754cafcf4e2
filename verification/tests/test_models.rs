//! Times, attribute bags, phases and event constructors.

use nsys_chrome::linker::adapters::{EventAdapter, EventId, NsysEventAdapter};
use nsys_chrome::models::{
    assign_identities, ArgBag, ArgValue, ChromeTraceEvent, ChromeTracePhase, ConversionOptions,
    Micros,
};

#[test]
fn test_micros_from_nanos_exact_values() {
    assert_eq!(Micros::from_nanos(0), Micros { whole: 0, thousandths: 0 });
    assert_eq!(Micros::from_nanos(140000), Micros { whole: 140, thousandths: 0 });
    assert_eq!(Micros::from_nanos(1500), Micros { whole: 1, thousandths: 500 });
    assert_eq!(Micros::from_nanos(999), Micros { whole: 0, thousandths: 999 });
    assert_eq!(Micros::from_nanos(1000), Micros { whole: 1, thousandths: 0 });
    assert_eq!(Micros::from_nanos(250750), Micros { whole: 250, thousandths: 750 });
}

#[test]
fn test_micros_of_negative_nanos_rounds_down() {
    assert_eq!(Micros::from_nanos(-1), Micros { whole: -1, thousandths: 999 });
    assert_eq!(Micros::from_nanos(-1000), Micros { whole: -1, thousandths: 0 });
    assert_eq!(Micros::from_nanos(-1001), Micros { whole: -2, thousandths: 999 });
    assert_eq!(Micros::from_nanos(-250750), Micros { whole: -251, thousandths: 250 });
}

#[test]
fn test_micros_at_the_ends_of_the_range() {
    assert_eq!(
        Micros::from_nanos(i64::MAX),
        Micros { whole: 9223372036854775, thousandths: 807 }
    );
    assert_eq!(
        Micros::from_nanos(i64::MIN),
        Micros { whole: -9223372036854776, thousandths: 192 }
    );
}

#[test]
fn test_micros_between_exact_values() {
    assert_eq!(Micros::between(140000, 250000), Micros { whole: 110, thousandths: 0 });
    assert_eq!(Micros::between(250000, 140000), Micros { whole: -110, thousandths: 0 });
    assert_eq!(Micros::between(5, 5), Micros { whole: 0, thousandths: 0 });
    assert_eq!(Micros::between(10, 9), Micros { whole: -1, thousandths: 999 });
}

#[test]
fn test_micros_between_spans_wider_than_a_word_of_nanos() {
    assert_eq!(
        Micros::between(i64::MIN, i64::MAX),
        Micros { whole: 18446744073709551, thousandths: 615 }
    );
    assert_eq!(
        Micros::between(i64::MAX, i64::MIN),
        Micros { whole: -18446744073709552, thousandths: 385 }
    );
}

#[test]
fn test_micros_keeps_every_nanosecond() {
    for ns in -3000i64..3000 {
        let m = Micros::from_nanos(ns);
        assert!(m.thousandths < 1000);
        assert_eq!(m.whole * 1000 + m.thousandths as i64, ns);
    }
}

#[test]
fn test_arg_value_as_i64() {
    assert_eq!(ArgValue::Int(12345).as_i64(), Some(12345));
    assert_eq!(ArgValue::Int(0).as_i64(), Some(0));
    assert_eq!(ArgValue::Int(-7).as_i64(), Some(-7));
    assert_eq!(ArgValue::Text("12345".to_string()).as_i64(), None);
    assert_eq!(ArgValue::Json("[1,2]".to_string()).as_i64(), None);
}

#[test]
fn test_arg_bag_get_and_insert() {
    let mut bag = ArgBag::new();
    assert!(bag.get("start_ns").is_none());
    assert_eq!(bag.get_i64("start_ns"), None);
    bag.insert("start_ns".to_string(), ArgValue::Int(100));
    bag.insert("name".to_string(), ArgValue::Text("x".to_string()));
    assert_eq!(bag.get("start_ns"), Some(&ArgValue::Int(100)));
    assert_eq!(bag.get("name"), Some(&ArgValue::Text("x".to_string())));
    assert_eq!(bag.get_i64("start_ns"), Some(100));
    assert_eq!(bag.get_i64("name"), None);
    assert!(bag.get("start").is_none());
    assert!(bag.get("start_ns ").is_none());
    assert!(bag.get("").is_none());
}

#[test]
fn test_arg_bag_later_assignment_replaces_earlier() {
    let mut bag = ArgBag::new();
    bag.insert("key".to_string(), ArgValue::Int(1));
    bag.insert("other".to_string(), ArgValue::Int(5));
    bag.insert("key".to_string(), ArgValue::Int(2));
    assert_eq!(bag.get_i64("key"), Some(2));
    assert_eq!(bag.get_i64("other"), Some(5));
    bag.insert("key".to_string(), ArgValue::Text("three".to_string()));
    assert_eq!(bag.get_i64("key"), None);
    assert_eq!(bag.get("key"), Some(&ArgValue::Text("three".to_string())));
}

#[test]
fn test_arg_bag_keys_with_unicode() {
    let mut bag = ArgBag::new();
    bag.insert("説明".to_string(), ArgValue::Int(1));
    bag.insert("説".to_string(), ArgValue::Int(2));
    assert_eq!(bag.get_i64("説明"), Some(1));
    assert_eq!(bag.get_i64("説"), Some(2));
    assert_eq!(bag.get_i64("明"), None);
}

#[test]
fn test_phase_codes() {
    let all = [
        (ChromeTracePhase::DurationBegin, 'B'),
        (ChromeTracePhase::DurationEnd, 'E'),
        (ChromeTracePhase::Complete, 'X'),
        (ChromeTracePhase::Instant, 'i'),
        (ChromeTracePhase::FlowStart, 's'),
        (ChromeTracePhase::FlowFinish, 'f'),
        (ChromeTracePhase::Metadata, 'M'),
    ];
    for (phase, letter) in all.iter() {
        assert_eq!(phase.code(), *letter);
        assert_eq!(ChromeTracePhase::from_code(&letter.to_string()), Some(*phase));
    }
    assert_eq!(ChromeTracePhase::from_code(""), None);
    assert_eq!(ChromeTracePhase::from_code("x"), None);
    assert_eq!(ChromeTracePhase::from_code("XX"), None);
    assert_eq!(ChromeTracePhase::from_code("b"), None);
    assert_eq!(ChromeTracePhase::from_code("é"), None);
}

#[test]
fn test_event_constructors() {
    let event = ChromeTraceEvent::new(
        "event2".to_string(),
        ChromeTracePhase::DurationBegin,
        Micros::from_nanos(200000),
        "Device 0".to_string(),
        "Stream 1".to_string(),
        "nvtx".to_string(),
    );
    assert_eq!(event.identity, EventId(0));
    assert_eq!(event.name, "event2");
    assert_eq!(event.ph, ChromeTracePhase::DurationBegin);
    assert_eq!(event.ts, Micros { whole: 200, thousandths: 0 });
    assert_eq!(event.dur, None);
    assert_eq!(event.pid, "Device 0");
    assert_eq!(event.tid, "Stream 1");
    assert_eq!(event.cat, "nvtx");
    assert_eq!(event.cname, None);
    assert_eq!(event.id, None);
    assert_eq!(event.bp, None);
    assert!(event.args.entries.is_empty());

    let complete = ChromeTraceEvent::complete(
        "event1".to_string(),
        Micros::from_nanos(100000),
        Micros::from_nanos(50000),
        "Device 0".to_string(),
        "Stream 1".to_string(),
        "kernel".to_string(),
    );
    assert_eq!(complete.ph, ChromeTracePhase::Complete);
    assert_eq!(complete.dur, Some(Micros { whole: 50, thousandths: 0 }));
    assert_eq!(complete.cat, "kernel");

    let mut args = ArgBag::new();
    args.insert("name".to_string(), ArgValue::Text("Device 0".to_string()));
    let metadata = ChromeTraceEvent::metadata(
        "process_name".to_string(),
        "Device 0".to_string(),
        String::new(),
        args.clone(),
    );
    assert_eq!(metadata.ph, ChromeTracePhase::Metadata);
    assert_eq!(metadata.name, "process_name");
    assert_eq!(metadata.cat, "");
    assert_eq!(metadata.tid, "");
    assert_eq!(metadata.args, args);
    assert_eq!(metadata.dur, None);
}

#[test]
fn test_event_builders() {
    let base = ChromeTraceEvent::complete(
        "kernel".to_string(),
        Micros::from_nanos(100000),
        Micros::from_nanos(50000),
        "Device 0".to_string(),
        "Stream 1".to_string(),
        "kernel".to_string(),
    );
    let event = base.clone().with_identity(EventId(42)).with_arg("deviceId", ArgValue::Int(3));
    assert_eq!(event.identity, EventId(42));
    assert_eq!(event.args.get_i64("deviceId"), Some(3));
    assert_eq!(event.name, base.name);
    assert_eq!(event.ts, base.ts);

    let mut args = ArgBag::new();
    args.insert("streamId".to_string(), ArgValue::Int(1));
    let replaced = event.with_args(args);
    assert_eq!(replaced.args.get_i64("deviceId"), None);
    assert_eq!(replaced.args.get_i64("streamId"), Some(1));
    assert_eq!(replaced.identity, EventId(42));
}

#[test]
fn test_default_options() {
    let options = ConversionOptions::default();
    assert_eq!(
        options.activity_types,
        vec!["kernel", "nvtx", "nvtx-kernel", "cuda-api", "osrt", "sched"]
    );
    assert_eq!(options.nvtx_event_prefix, None);
    assert!(options.nvtx_color_scheme.is_empty());
    assert!(options.include_metadata);
}

fn bare() -> ChromeTraceEvent {
    ChromeTraceEvent::complete(
        "kernel".to_string(),
        Micros::from_nanos(100000),
        Micros::from_nanos(50000),
        "Device 0".to_string(),
        "Stream 1".to_string(),
        "kernel".to_string(),
    )
}

#[test]
fn test_time_range_never_falls_back_to_display_time() {
    let adapter = NsysEventAdapter;
    assert_eq!(adapter.get_time_range(&bare()), None);
}

#[test]
fn test_time_range_needs_integers() {
    let adapter = NsysEventAdapter;
    let event = bare()
        .with_arg("start_ns", ArgValue::Text("100000".to_string()))
        .with_arg("end_ns", ArgValue::Int(150000));
    assert_eq!(adapter.get_time_range(&event), None);
    let event = bare()
        .with_arg("start_ns", ArgValue::Int(100000))
        .with_arg("end_ns", ArgValue::Json("150000.5".to_string()));
    assert_eq!(adapter.get_time_range(&event), None);
}

#[test]
fn test_time_range_keeps_bounds_as_given() {
    let adapter = NsysEventAdapter;
    let event = bare()
        .with_arg("end_ns", ArgValue::Int(-5))
        .with_arg("start_ns", ArgValue::Int(i64::MAX));
    assert_eq!(adapter.get_time_range(&event), Some((i64::MAX, -5)));
}

#[test]
fn test_time_range_uses_latest_assignment() {
    let adapter = NsysEventAdapter;
    let event = bare()
        .with_arg("start_ns", ArgValue::Int(1))
        .with_arg("end_ns", ArgValue::Int(2))
        .with_arg("start_ns", ArgValue::Int(3));
    assert_eq!(adapter.get_time_range(&event), Some((3, 2)));
}

#[test]
fn test_correlation_id_is_cut_to_32_bits() {
    let adapter = NsysEventAdapter;
    let event = bare().with_arg("correlationId", ArgValue::Int((1i64 << 32) + 5));
    assert_eq!(adapter.get_correlation_id(&event), Some(5));
    let event = bare().with_arg("correlationId", ArgValue::Int(i32::MAX as i64 + 1));
    assert_eq!(adapter.get_correlation_id(&event), Some(i32::MIN));
    let event = bare().with_arg("correlationId", ArgValue::Int(-1));
    assert_eq!(adapter.get_correlation_id(&event), Some(-1));
    let event = bare().with_arg("correlationId", ArgValue::Text("12345".to_string()));
    assert_eq!(adapter.get_correlation_id(&event), None);
}

#[test]
fn test_event_id_is_the_identity_given() {
    let adapter = NsysEventAdapter;
    let event = bare().with_identity(EventId(usize::MAX));
    assert_eq!(adapter.get_event_id(&event), EventId(usize::MAX));
    // what the event holds plays no part
    let other = bare().with_identity(EventId(usize::MAX)).with_arg("x", ArgValue::Int(1));
    assert_eq!(adapter.get_event_id(&other), adapter.get_event_id(&event));
}

#[test]
fn test_assign_identities_numbers_events_by_position() {
    let mut events = vec![
        bare().with_identity(EventId(7)),
        bare(),
        bare().with_identity(EventId(7)).with_arg("x", ArgValue::Int(1)),
    ];
    let before = events.clone();
    assign_identities(&mut events);
    let ids: Vec<EventId> = events.iter().map(|e| e.identity).collect();
    assert_eq!(ids, vec![EventId(0), EventId(1), EventId(2)]);
    for (event, old) in events.iter().zip(before.iter()) {
        assert_eq!(event.clone().with_identity(old.identity), *old);
    }
    let mut none: Vec<ChromeTraceEvent> = Vec::new();
    assign_identities(&mut none);
    assert!(none.is_empty());
}
