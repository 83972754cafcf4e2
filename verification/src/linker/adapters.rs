//! Reading what the linker needs out of an event record.

use crate::models::ChromeTraceEvent;
use vstd::prelude::*;

verus! {

/// The token by which overlap maps tell events apart. It is given to an event
/// when the trace is read and says nothing about what the event holds.
#[derive(Debug, Clone, Copy, PartialEq, Eq, Hash, Structural)]
pub struct EventId(pub usize);

/// What the linking algorithms read from an event. Each `get_` method returns
/// what the `spec` function beside it says, so that the algorithms can be
/// stated over the `spec` functions alone.
pub trait EventAdapter {
    /// Start and end of the event in nanoseconds, where it has both.
    spec fn time_range(&self, event: &ChromeTraceEvent) -> Option<(i64, i64)>;

    /// The correlation identifier of the event, where it has one.
    spec fn correlation_id(&self, event: &ChromeTraceEvent) -> Option<i32>;

    /// The identity of the event.
    spec fn event_id(&self, event: &ChromeTraceEvent) -> EventId;

    /// Get time range (start, end) from an event in nanoseconds
    fn get_time_range(&self, event: &ChromeTraceEvent) -> (r: Option<(i64, i64)>)
        ensures
            r == self.time_range(event),
    ;

    /// Get correlation ID from an event
    fn get_correlation_id(&self, event: &ChromeTraceEvent) -> (r: Option<i32>)
        ensures
            r == self.correlation_id(event),
    ;

    /// Get unique event identifier
    fn get_event_id(&self, event: &ChromeTraceEvent) -> (r: EventId)
        ensures
            r == self.event_id(event),
    ;
}

/// The adapter for events whose attributes carry `start_ns`, `end_ns` and
/// `correlationId`.
pub struct NsysEventAdapter;

impl EventAdapter for NsysEventAdapter {
    /// Both bounds must be present as integers; the display timestamp is
    /// never used in their place.
    open spec fn time_range(&self, event: &ChromeTraceEvent) -> Option<(i64, i64)> {
        match (event.args.int_at("start_ns"@), event.args.int_at("end_ns"@)) {
            (Some(start), Some(end)) => Some((start, end)),
            _ => None,
        }
    }

    /// The integer under `correlationId`, cut to its low 32 bits.
    open spec fn correlation_id(&self, event: &ChromeTraceEvent) -> Option<i32> {
        match event.args.int_at("correlationId"@) {
            Some(v) => Some(v as i32),
            None => None,
        }
    }

    /// The identity that the event was given.
    open spec fn event_id(&self, event: &ChromeTraceEvent) -> EventId {
        event.identity
    }

    fn get_time_range(&self, event: &ChromeTraceEvent) -> (r: Option<(i64, i64)>) {
        let start_ns: i64 = match event.args.get_i64("start_ns") {
            Some(v) => v,
            None => { return None; },
        };
        let end_ns: i64 = match event.args.get_i64("end_ns") {
            Some(v) => v,
            None => { return None; },
        };
        Some((start_ns, end_ns))
    }

    fn get_correlation_id(&self, event: &ChromeTraceEvent) -> (r: Option<i32>) {
        match event.args.get_i64("correlationId") {
            Some(v) => Some(#[verifier::truncate] (v as i32)),
            None => None,
        }
    }

    fn get_event_id(&self, event: &ChromeTraceEvent) -> (r: EventId) {
        event.identity
    }
}

} // verus!
