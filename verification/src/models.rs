//! Trace event records and conversion options.

use crate::linker::adapters::EventId;
use vstd::prelude::*;
use vstd::string::StrSliceExecFns;

verus! {

/// A point in time, or a span, in microseconds with three decimal places:
/// `whole + thousandths / 1000`.
///
/// Every difference of two nanosecond timestamps has exactly one well-formed
/// value of this type, so re-expressing nanoseconds in microseconds loses
/// nothing.
#[derive(Clone, Copy, Debug, PartialEq, Eq, Structural)]
pub struct Micros {
    pub whole: i64,
    pub thousandths: u16,
}

impl Micros {
    /// The fractional part is a number of thousandths below one microsecond.
    pub open spec fn wf(self) -> bool {
        self.thousandths < 1000
    }

    /// The value in nanoseconds.
    pub open spec fn as_nanos(self) -> int {
        self.whole * 1000 + self.thousandths
    }

    /// The number of nanoseconds `ns` in microseconds: `ns / 1000` rounded
    /// down, and the thousandths that are left.
    pub open spec fn of_nanos(ns: int) -> Micros {
        Micros { whole: (ns / 1000) as i64, thousandths: (ns % 1000) as u16 }
    }

    /// Between two nanosecond timestamps no precision is lost.
    pub proof fn lemma_of_nanos(ns: int)
        requires
            i64::MIN - i64::MAX <= ns <= i64::MAX - i64::MIN,
        ensures
            Micros::of_nanos(ns).wf(),
            Micros::of_nanos(ns).as_nanos() == ns,
    {
    }

    /// Re-expresses a nanosecond timestamp in microseconds.
    pub fn from_nanos(ns: i64) -> (r: Micros)
        ensures
            r == Micros::of_nanos(ns as int),
    {
        Micros::between(0, ns)
    }

    /// The span from `start_ns` to `end_ns`, in microseconds. The span may be
    /// negative and may exceed what an `i64` of nanoseconds can hold.
    pub fn between(start_ns: i64, end_ns: i64) -> (r: Micros)
        ensures
            r == Micros::of_nanos(end_ns - start_ns),
    {
        let diff: i128 = end_ns as i128 - start_ns as i128;
        if diff >= 0 {
            let whole: i128 = diff / 1000;
            let rest: i128 = diff % 1000;
            Micros { whole: whole as i64, thousandths: rest as u16 }
        } else {
            let below: i128 = -(diff + 1);
            let whole: i128 = below / 1000;
            let rest: i128 = below % 1000;
            Micros { whole: (-(whole + 1)) as i64, thousandths: (999 - rest) as u16 }
        }
    }
}

/// The value of one attribute of an event.
#[derive(Clone, Debug, PartialEq, Eq)]
pub enum ArgValue {
    /// An integer that fits a signed 64-bit word.
    Int(i64),
    /// A string.
    Text(String),
    /// Any other value, carried as its JSON text and never read by the linker.
    Json(String),
}

impl ArgValue {
    /// The integer that the value holds, if it holds one.
    pub open spec fn int_value(self) -> Option<i64> {
        match self {
            ArgValue::Int(v) => Some(v),
            _ => None,
        }
    }

    /// The value as an integer, if it is one.
    pub fn as_i64(&self) -> (r: Option<i64>)
        ensures
            r == self.int_value(),
    {
        match self {
            ArgValue::Int(v) => Some(*v),
            _ => None,
        }
    }
}

/// What a list of attribute assignments gives for `key`: the value of the
/// latest assignment to it.
pub open spec fn latest_value(entries: Seq<(String, ArgValue)>, key: Seq<char>) -> Option<ArgValue>
    decreases entries.len(),
{
    if entries.len() == 0 {
        None
    } else if entries.last().0@ == key {
        Some(entries.last().1)
    } else {
        latest_value(entries.drop_last(), key)
    }
}

/// The open-ended attributes of an event, kept as the list of assignments made
/// to them. A later assignment to a key replaces an earlier one.
#[derive(Clone, Debug, PartialEq, Eq)]
pub struct ArgBag {
    pub entries: Vec<(String, ArgValue)>,
}

impl View for ArgBag {
    type V = Map<Seq<char>, ArgValue>;

    open spec fn view(&self) -> Map<Seq<char>, ArgValue> {
        Map::new(
            |key: Seq<char>| latest_value(self.entries@, key) is Some,
            |key: Seq<char>| latest_value(self.entries@, key)->Some_0,
        )
    }
}

impl ArgBag {
    /// A bag without attributes.
    pub fn new() -> (r: ArgBag)
        ensures
            r@ == Map::<Seq<char>, ArgValue>::empty(),
            r.entries@.len() == 0,
    {
        let r = ArgBag { entries: Vec::new() };
        assert(r@ =~= Map::<Seq<char>, ArgValue>::empty());
        r
    }

    /// Assigns `value` to `key`.
    pub fn insert(&mut self, key: String, value: ArgValue)
        ensures
            final(self)@ == old(self)@.insert(key@, value),
            final(self).entries@ == old(self).entries@.push((key, value)),
    {
        let ghost before = self.entries@;
        self.entries.push((key, value));
        proof {
            let after = self.entries@;
            assert(after.drop_last() =~= before);
            assert forall|k: Seq<char>| #[trigger]
                latest_value(after, k) == (if k == key@ {
                    Some(value)
                } else {
                    latest_value(before, k)
                }) by {}
            assert(self@ =~= old(self)@.insert(key@, value));
        }
    }

    /// The value assigned to `key`, if any.
    pub fn get(&self, key: &str) -> (r: Option<&ArgValue>)
        ensures
            match r {
                Some(v) => self@.contains_key(key@) && self@[key@] == *v,
                None => !self@.contains_key(key@),
            },
    {
        let wanted: String = key.to_owned();
        let mut i: usize = self.entries.len();
        assert(self.entries@.take(i as int) =~= self.entries@);
        while i > 0
            invariant
                i <= self.entries@.len(),
                wanted@ == key@,
                latest_value(self.entries@, key@) == latest_value(
                    self.entries@.take(i as int),
                    key@,
                ),
            decreases i,
        {
            i = i - 1;
            let ghost prefix = self.entries@.take(i + 1);
            assert(prefix.last() == self.entries@[i as int]);
            assert(prefix.drop_last() =~= self.entries@.take(i as int));
            if self.entries[i].0 == wanted {
                return Some(&self.entries[i].1);
            }
        }
        assert(self.entries@.take(0) =~= Seq::<(String, ArgValue)>::empty());
        None
    }

    /// The integer assigned to `key`, if the latest assignment to it holds
    /// one.
    pub open spec fn int_at(&self, key: Seq<char>) -> Option<i64> {
        if self@.contains_key(key) {
            self@[key].int_value()
        } else {
            None
        }
    }

    /// Reads the integer assigned to `key`.
    pub fn get_i64(&self, key: &str) -> (r: Option<i64>)
        ensures
            r == self.int_at(key@),
    {
        match self.get(key) {
            Some(v) => v.as_i64(),
            None => None,
        }
    }
}

/// The kind of record that an event is.
#[derive(Clone, Copy, Debug, PartialEq, Eq, Structural)]
pub enum ChromeTracePhase {
    DurationBegin,
    DurationEnd,
    Complete,
    Instant,
    FlowStart,
    FlowFinish,
    Metadata,
}

impl ChromeTracePhase {
    /// The letter that stands for the phase in a trace document.
    pub open spec fn letter(self) -> char {
        match self {
            ChromeTracePhase::DurationBegin => 'B',
            ChromeTracePhase::DurationEnd => 'E',
            ChromeTracePhase::Complete => 'X',
            ChromeTracePhase::Instant => 'i',
            ChromeTracePhase::FlowStart => 's',
            ChromeTracePhase::FlowFinish => 'f',
            ChromeTracePhase::Metadata => 'M',
        }
    }

    /// The phase for which `code` stands: the one whose letter is all of
    /// `code`.
    pub open spec fn of_code(code: Seq<char>) -> Option<ChromeTracePhase> {
        if code.len() != 1 {
            None
        } else if code[0] == 'B' {
            Some(ChromeTracePhase::DurationBegin)
        } else if code[0] == 'E' {
            Some(ChromeTracePhase::DurationEnd)
        } else if code[0] == 'X' {
            Some(ChromeTracePhase::Complete)
        } else if code[0] == 'i' {
            Some(ChromeTracePhase::Instant)
        } else if code[0] == 's' {
            Some(ChromeTracePhase::FlowStart)
        } else if code[0] == 'f' {
            Some(ChromeTracePhase::FlowFinish)
        } else if code[0] == 'M' {
            Some(ChromeTracePhase::Metadata)
        } else {
            None
        }
    }

    /// Reading back the letter of a phase gives the phase.
    pub proof fn lemma_letter_round_trip(self)
        ensures
            ChromeTracePhase::of_code(seq![self.letter()]) == Some(self),
    {
    }

    /// The letter of the phase.
    pub fn code(&self) -> (r: char)
        ensures
            r == self.letter(),
    {
        match self {
            ChromeTracePhase::DurationBegin => 'B',
            ChromeTracePhase::DurationEnd => 'E',
            ChromeTracePhase::Complete => 'X',
            ChromeTracePhase::Instant => 'i',
            ChromeTracePhase::FlowStart => 's',
            ChromeTracePhase::FlowFinish => 'f',
            ChromeTracePhase::Metadata => 'M',
        }
    }

    /// Reads a phase from its letter.
    pub fn from_code(code: &str) -> (r: Option<ChromeTracePhase>)
        ensures
            r == ChromeTracePhase::of_code(code@),
    {
        if code.unicode_len() != 1 {
            return None;
        }
        let letter: char = code.get_char(0);
        if letter == 'B' {
            Some(ChromeTracePhase::DurationBegin)
        } else if letter == 'E' {
            Some(ChromeTracePhase::DurationEnd)
        } else if letter == 'X' {
            Some(ChromeTracePhase::Complete)
        } else if letter == 'i' {
            Some(ChromeTracePhase::Instant)
        } else if letter == 's' {
            Some(ChromeTracePhase::FlowStart)
        } else if letter == 'f' {
            Some(ChromeTracePhase::FlowFinish)
        } else if letter == 'M' {
            Some(ChromeTracePhase::Metadata)
        } else {
            None
        }
    }
}

/// One point or interval of a trace.
#[derive(Clone, Debug, PartialEq, Eq)]
pub struct ChromeTraceEvent {
    /// The token that tells this event from every other, given to it when the
    /// trace is read.
    pub identity: EventId,
    pub name: String,
    pub ph: ChromeTracePhase,
    pub cat: String,
    /// Display timestamp.
    pub ts: Micros,
    pub dur: Option<Micros>,
    pub pid: String,
    pub tid: String,
    /// Color class.
    pub cname: Option<String>,
    /// Flow link identifier.
    pub id: Option<u64>,
    /// Binding point of a flow event.
    pub bp: Option<String>,
    pub args: ArgBag,
}

/// The mathematical content of a [`ChromeTraceEvent`].
pub struct TraceEventView {
    pub identity: EventId,
    pub name: Seq<char>,
    pub ph: ChromeTracePhase,
    pub cat: Seq<char>,
    pub ts: Micros,
    pub dur: Option<Micros>,
    pub pid: Seq<char>,
    pub tid: Seq<char>,
    pub cname: Option<Seq<char>>,
    pub id: Option<u64>,
    pub bp: Option<Seq<char>>,
    pub args: Map<Seq<char>, ArgValue>,
}

/// The characters of an optional string.
pub open spec fn text_view(s: Option<String>) -> Option<Seq<char>> {
    match s {
        Some(t) => Some(t@),
        None => None,
    }
}

impl View for ChromeTraceEvent {
    type V = TraceEventView;

    open spec fn view(&self) -> TraceEventView {
        TraceEventView {
            identity: self.identity,
            name: self.name@,
            ph: self.ph,
            cat: self.cat@,
            ts: self.ts,
            dur: self.dur,
            pid: self.pid@,
            tid: self.tid@,
            cname: text_view(self.cname),
            id: self.id,
            bp: text_view(self.bp),
            args: self.args@,
        }
    }
}

impl ChromeTraceEvent {
    /// An event of the given phase with no duration, color, flow link or
    /// attributes, and with the identity 0.
    pub fn new(
        name: String,
        ph: ChromeTracePhase,
        ts: Micros,
        pid: String,
        tid: String,
        cat: String,
    ) -> (r: ChromeTraceEvent)
        ensures
            r@ == (TraceEventView {
                identity: EventId(0),
                name: name@,
                ph: ph,
                cat: cat@,
                ts: ts,
                dur: None,
                pid: pid@,
                tid: tid@,
                cname: None,
                id: None,
                bp: None,
                args: Map::empty(),
            }),
    {
        ChromeTraceEvent {
            identity: EventId(0),
            name,
            ph,
            cat,
            ts,
            dur: None,
            pid,
            tid,
            cname: None,
            id: None,
            bp: None,
            args: ArgBag::new(),
        }
    }

    /// A complete span: an event with a start and a duration.
    pub fn complete(
        name: String,
        ts: Micros,
        dur: Micros,
        pid: String,
        tid: String,
        cat: String,
    ) -> (r: ChromeTraceEvent)
        ensures
            r@ == (TraceEventView {
                identity: EventId(0),
                name: name@,
                ph: ChromeTracePhase::Complete,
                cat: cat@,
                ts: ts,
                dur: Some(dur),
                pid: pid@,
                tid: tid@,
                cname: None,
                id: None,
                bp: None,
                args: Map::empty(),
            }),
    {
        let mut event = ChromeTraceEvent::new(name, ChromeTracePhase::Complete, ts, pid, tid, cat);
        event.dur = Some(dur);
        event
    }

    /// A metadata record, which has no time and no category.
    pub fn metadata(name: String, pid: String, tid: String, args: ArgBag) -> (r: ChromeTraceEvent)
        ensures
            r@ == (TraceEventView {
                identity: EventId(0),
                name: name@,
                ph: ChromeTracePhase::Metadata,
                cat: Seq::empty(),
                ts: Micros { whole: 0, thousandths: 0 },
                dur: None,
                pid: pid@,
                tid: tid@,
                cname: None,
                id: None,
                bp: None,
                args: args@,
            }),
    {
        let mut event = ChromeTraceEvent::new(
            name,
            ChromeTracePhase::Metadata,
            Micros { whole: 0, thousandths: 0 },
            pid,
            tid,
            String::new(),
        );
        event.args = args;
        event
    }

    /// The same event under another identity.
    pub fn with_identity(self, identity: EventId) -> (r: ChromeTraceEvent)
        ensures
            r@ == (TraceEventView { identity: identity, ..self@ }),
    {
        let mut event = self;
        event.identity = identity;
        event
    }

    /// The same event with `value` assigned to the attribute `key`.
    pub fn with_arg(self, key: &str, value: ArgValue) -> (r: ChromeTraceEvent)
        ensures
            r@ == (TraceEventView { args: self@.args.insert(key@, value), ..self@ }),
    {
        let mut event = self;
        event.args.insert(key.to_owned(), value);
        event
    }

    /// The same event with `args` in place of its attributes.
    pub fn with_args(self, args: ArgBag) -> (r: ChromeTraceEvent)
        ensures
            r@ == (TraceEventView { args: args@, ..self@ }),
    {
        let mut event = self;
        event.args = args;
        event
    }
}

/// Gives every event its position in `events` as identity, so that no two
/// events of the list share one.
pub fn assign_identities(events: &mut Vec<ChromeTraceEvent>)
    ensures
        final(events)@.len() == old(events)@.len(),
        forall|i: int|
            0 <= i < old(events)@.len() ==> (#[trigger] final(events)@[i])@ == (TraceEventView {
                identity: EventId(i as usize),
                ..old(events)@[i]@
            }),
{
    let mut i: usize = 0;
    while i < events.len()
        invariant
            i <= events@.len(),
            events@.len() == old(events)@.len(),
            forall|k: int|
                0 <= k < i ==> (#[trigger] events@[k])@ == (TraceEventView {
                    identity: EventId(k as usize),
                    ..old(events)@[k]@
                }),
            forall|k: int| i <= k < events@.len() ==> events@[k] == old(events)@[k],
        decreases events@.len() - i,
    {
        events[i].identity = EventId(i);
        i = i + 1;
    }
}

/// What a conversion run is asked to do.
#[derive(Clone, Debug, PartialEq, Eq)]
pub struct ConversionOptions {
    /// The categories of events to keep in the output.
    pub activity_types: Vec<String>,
    /// Where set, only annotations whose name starts with it are linked.
    pub nvtx_event_prefix: Option<String>,
    /// Rules `(pattern, color)`, tried in order on the name of an annotation.
    pub nvtx_color_scheme: Vec<(String, String)>,
    /// Whether metadata records are kept in the output.
    pub include_metadata: bool,
}

impl ConversionOptions {
    /// The categories that are kept where nothing else is asked for.
    pub open spec fn default_activity_types() -> Seq<Seq<char>> {
        seq!["kernel"@, "nvtx"@, "nvtx-kernel"@, "cuda-api"@, "osrt"@, "sched"@]
    }
}

impl Default for ConversionOptions {
    /// All categories and the metadata are kept, every annotation is linked,
    /// and no derived event is colored.
    fn default() -> (r: ConversionOptions)
        ensures
            r.activity_types@.len() == ConversionOptions::default_activity_types().len(),
            forall|i: int|
                0 <= i < r.activity_types@.len() ==> (#[trigger] r.activity_types@[i])@
                    == ConversionOptions::default_activity_types()[i],
            r.nvtx_event_prefix is None,
            r.nvtx_color_scheme@.len() == 0,
            r.include_metadata,
    {
        let mut activity_types: Vec<String> = Vec::new();
        activity_types.push("kernel".to_owned());
        activity_types.push("nvtx".to_owned());
        activity_types.push("nvtx-kernel".to_owned());
        activity_types.push("cuda-api".to_owned());
        activity_types.push("osrt".to_owned());
        activity_types.push("sched".to_owned());
        ConversionOptions {
            activity_types,
            nvtx_event_prefix: None,
            nvtx_color_scheme: Vec::new(),
            include_metadata: true,
        }
    }
}

} // verus!
