//! Linking annotations to the kernels that they launched.

use crate::linker::adapters::{EventAdapter, EventId, NsysEventAdapter};
use crate::linker::algorithms::{
    aggregate_kernel_times, bucket_of, build_correlation_map, find_kernels_for_annotation,
    find_overlapping_intervals, kernels_reached, overlaps_by_identity, time_span,
};
use crate::linker::colors::{color_of, pick_color};
use crate::models::{
    ArgValue, ChromeTraceEvent, ChromeTracePhase, ConversionOptions, Micros, TraceEventView,
};
use vstd::prelude::*;
use vstd::string::StrSliceExecFns;

verus! {

/// The device that an event belongs to: the integer under `deviceId`.
pub open spec fn device_of(event: &ChromeTraceEvent) -> Option<i64> {
    event.args.int_at("deviceId"@)
}

/// Reads the device of an event.
pub fn get_device(event: &ChromeTraceEvent) -> (r: Option<i64>)
    ensures
        r == device_of(event),
{
    event.args.get_i64("deviceId")
}

/// Whether `text` begins with `prefix`.
pub open spec fn is_prefix(prefix: Seq<char>, text: Seq<char>) -> bool {
    prefix.len() <= text.len() && forall|i: int| 0 <= i < prefix.len() ==> text[i] == prefix[i]
}

/// Compares `prefix` with the beginning of `text`, character by character.
pub fn starts_with(text: &str, prefix: &str) -> (r: bool)
    ensures
        r == is_prefix(prefix@, text@),
{
    let n: usize = prefix.unicode_len();
    if text.unicode_len() < n {
        return false;
    }
    let mut i: usize = 0;
    while i < n
        invariant
            i <= n,
            n == prefix@.len(),
            n <= text@.len(),
            forall|k: int| 0 <= k < i ==> text@[k] == prefix@[k],
        decreases n - i,
    {
        if text.get_char(i) != prefix.get_char(i) {
            return false;
        }
        i = i + 1;
    }
    true
}

/// Whether an annotation takes part in linking: always where no prefix is
/// asked for, else where its name begins with that prefix.
pub open spec fn participates(options: &ConversionOptions, event: &ChromeTraceEvent) -> bool {
    match options.nvtx_event_prefix {
        Some(prefix) => is_prefix(prefix@, event.name@),
        None => true,
    }
}

fn takes_part(options: &ConversionOptions, event: &ChromeTraceEvent) -> (r: bool)
    ensures
        r == participates(options, event),
{
    match &options.nvtx_event_prefix {
        Some(prefix) => starts_with(event.name.as_str(), prefix.as_str()),
        None => true,
    }
}

/// The events of `events` that belong to `device`, in their order.
pub open spec fn on_device<'a>(events: Seq<ChromeTraceEvent>, device: i64) -> Seq<
    &'a ChromeTraceEvent,
>
    decreases events.len(),
{
    if events.len() == 0 {
        Seq::empty()
    } else {
        let earlier = on_device(events.drop_last(), device);
        if device_of(&events.last()) == Some(device) {
            earlier.push(&events.last())
        } else {
            earlier
        }
    }
}

/// The annotations of `events` that belong to `device` and take part in
/// linking, in their order.
pub open spec fn annotations_on<'a>(
    events: Seq<ChromeTraceEvent>,
    options: &ConversionOptions,
    device: i64,
) -> Seq<&'a ChromeTraceEvent>
    decreases events.len(),
{
    if events.len() == 0 {
        Seq::empty()
    } else {
        let earlier = annotations_on(events.drop_last(), options, device);
        if device_of(&events.last()) == Some(device) && participates(options, &events.last()) {
            earlier.push(&events.last())
        } else {
            earlier
        }
    }
}

/// The devices of the annotations that take part in linking, each once, in
/// the order in which they first occur.
pub open spec fn annotation_devices(
    events: Seq<ChromeTraceEvent>,
    options: &ConversionOptions,
) -> Seq<i64>
    decreases events.len(),
{
    if events.len() == 0 {
        Seq::empty()
    } else {
        let earlier = annotation_devices(events.drop_last(), options);
        match device_of(&events.last()) {
            Some(device) => if participates(options, &events.last()) && !earlier.contains(
                device,
            ) {
                earlier.push(device)
            } else {
                earlier
            },
            None => earlier,
        }
    }
}

fn events_on_device<'a>(events: &'a [ChromeTraceEvent], device: i64) -> (r: Vec<
    &'a ChromeTraceEvent,
>)
    ensures
        r@ == on_device(events@, device),
{
    let mut found: Vec<&'a ChromeTraceEvent> = Vec::new();
    let mut i: usize = 0;
    while i < events.len()
        invariant
            i <= events@.len(),
            found@ == on_device(events@.take(i as int), device),
        decreases events@.len() - i,
    {
        assert(events@.take(i + 1).drop_last() =~= events@.take(i as int));
        if get_device(&events[i]) == Some(device) {
            found.push(&events[i]);
        }
        i = i + 1;
    }
    assert(events@.take(i as int) =~= events@);
    found
}

fn annotations_on_device<'a>(
    events: &'a [ChromeTraceEvent],
    options: &ConversionOptions,
    device: i64,
) -> (r: Vec<&'a ChromeTraceEvent>)
    ensures
        r@ == annotations_on(events@, options, device),
{
    let mut found: Vec<&'a ChromeTraceEvent> = Vec::new();
    let mut i: usize = 0;
    while i < events.len()
        invariant
            i <= events@.len(),
            found@ == annotations_on(events@.take(i as int), options, device),
        decreases events@.len() - i,
    {
        assert(events@.take(i + 1).drop_last() =~= events@.take(i as int));
        if get_device(&events[i]) == Some(device) && takes_part(options, &events[i]) {
            found.push(&events[i]);
        }
        i = i + 1;
    }
    assert(events@.take(i as int) =~= events@);
    found
}

fn holds(devices: &Vec<i64>, device: i64) -> (r: bool)
    ensures
        r == devices@.contains(device),
{
    let mut i: usize = 0;
    while i < devices.len()
        invariant
            i <= devices@.len(),
            forall|k: int| 0 <= k < i ==> devices@[k] != device,
        decreases devices@.len() - i,
    {
        if devices[i] == device {
            return true;
        }
        i = i + 1;
    }
    false
}

fn devices_of_annotations(events: &[ChromeTraceEvent], options: &ConversionOptions) -> (r: Vec<
    i64,
>)
    ensures
        r@ == annotation_devices(events@, options),
{
    let mut devices: Vec<i64> = Vec::new();
    let mut i: usize = 0;
    while i < events.len()
        invariant
            i <= events@.len(),
            devices@ == annotation_devices(events@.take(i as int), options),
        decreases events@.len() - i,
    {
        assert(events@.take(i + 1).drop_last() =~= events@.take(i as int));
        if let Some(device) = get_device(&events[i]) {
            if takes_part(options, &events[i]) && !holds(&devices, device) {
                devices.push(device);
            }
        }
        i = i + 1;
    }
    assert(events@.take(i as int) =~= events@);
    devices
}

/// The kernels launched by the given API calls: for each call in turn, the
/// kernels that carry its correlation identifier.
pub open spec fn kernels_launched<'a, A: EventAdapter + ?Sized>(
    adapter: &A,
    api_calls: Seq<&ChromeTraceEvent>,
    kernels: Seq<&'a ChromeTraceEvent>,
) -> Seq<&'a ChromeTraceEvent>
    decreases api_calls.len(),
{
    if api_calls.len() == 0 {
        Seq::empty()
    } else {
        let earlier = kernels_launched(adapter, api_calls.drop_last(), kernels);
        match adapter.correlation_id(api_calls.last()) {
            Some(id) => earlier + bucket_of(adapter, kernels, id),
            None => earlier,
        }
    }
}

/// Looking the API calls up in the correlation index of `kernels` gives the
/// kernels that they launched.
pub proof fn lemma_kernels_reached<'a, A: EventAdapter + ?Sized>(
    adapter: &A,
    api_calls: Seq<&'a ChromeTraceEvent>,
    kernels: Seq<&'a ChromeTraceEvent>,
    index: Map<i32, Vec<&'a ChromeTraceEvent>>,
)
    requires
        forall|id: i32|
            index.contains_key(id) <==> #[trigger] bucket_of(adapter, kernels, id).len() > 0,
        forall|id: i32| index.contains_key(id) ==> index[id]@ == #[trigger] bucket_of(adapter, kernels, id),
    ensures
        kernels_reached(adapter, api_calls, index) == kernels_launched(adapter, api_calls, kernels),
    decreases api_calls.len(),
{
    if api_calls.len() > 0 {
        lemma_kernels_reached(adapter, api_calls.drop_last(), kernels, index);
        let earlier = kernels_launched(adapter, api_calls.drop_last(), kernels);
        match adapter.correlation_id(api_calls.last()) {
            Some(id) => {
                if !index.contains_key(id) {
                    assert(bucket_of(adapter, kernels, id) =~= Seq::<&ChromeTraceEvent>::empty());
                    assert(earlier + bucket_of(adapter, kernels, id) =~= earlier);
                }
            },
            None => {},
        }
    }
}

/// One annotation with the span of the kernels that it launched.
#[derive(Clone, Copy, Debug)]
pub struct KernelLink<'a> {
    pub annotation: &'a ChromeTraceEvent,
    /// The earliest start among the kernels, in nanoseconds.
    pub start_ns: i64,
    /// The latest end among the kernels, in nanoseconds.
    pub end_ns: i64,
    /// The first of the kernels, on whose track the causal arrow lands.
    pub landing: &'a ChromeTraceEvent,
}

/// The link of `annotation` on one device: the API calls that overlap its
/// identity lead to kernels, and the kernels to a span. There is none where
/// no kernel is reached, or where none of the kernels has a time range.
pub open spec fn link_of<'a, A: EventAdapter + ?Sized>(
    adapter: &A,
    annotations: Seq<&'a ChromeTraceEvent>,
    api_calls: Seq<&'a ChromeTraceEvent>,
    kernels: Seq<&'a ChromeTraceEvent>,
    annotation: &'a ChromeTraceEvent,
) -> Option<KernelLink<'a>> {
    let overlapping = overlaps_by_identity(
        adapter,
        annotations,
        api_calls,
        adapter.event_id(annotation),
    );
    let launched = kernels_launched(adapter, overlapping, kernels);
    if launched.len() == 0 {
        None
    } else {
        match time_span(adapter, launched) {
            Some(span) => Some(
                KernelLink { annotation, start_ns: span.0, end_ns: span.1, landing: launched[0] },
            ),
            None => None,
        }
    }
}

/// The links of the first `n` annotations of one device, in their order.
pub open spec fn device_links<'a, A: EventAdapter + ?Sized>(
    adapter: &A,
    annotations: Seq<&'a ChromeTraceEvent>,
    api_calls: Seq<&'a ChromeTraceEvent>,
    kernels: Seq<&'a ChromeTraceEvent>,
    n: nat,
) -> Seq<KernelLink<'a>>
    decreases n,
{
    if n == 0 {
        Seq::empty()
    } else {
        let earlier = device_links(adapter, annotations, api_calls, kernels, (n - 1) as nat);
        match link_of(adapter, annotations, api_calls, kernels, annotations[n - 1]) {
            Some(link) => earlier.push(link),
            None => earlier,
        }
    }
}

/// The links of the given devices: those of the first device, then those of
/// the next, and so on. Events of different devices are never linked.
pub open spec fn links_of_devices<'a, A: EventAdapter + ?Sized>(
    adapter: &A,
    nvtx_events: Seq<ChromeTraceEvent>,
    cuda_api_events: Seq<ChromeTraceEvent>,
    kernel_events: Seq<ChromeTraceEvent>,
    options: &ConversionOptions,
    devices: Seq<i64>,
) -> Seq<KernelLink<'a>>
    decreases devices.len(),
{
    if devices.len() == 0 {
        Seq::empty()
    } else {
        let earlier = links_of_devices(
            adapter,
            nvtx_events,
            cuda_api_events,
            kernel_events,
            options,
            devices.drop_last(),
        );
        let annotations = annotations_on(nvtx_events, options, devices.last());
        earlier + device_links(
            adapter,
            annotations,
            on_device(cuda_api_events, devices.last()),
            on_device(kernel_events, devices.last()),
            annotations.len(),
        )
    }
}

/// All links of a trace: device by device, in the order in which the devices
/// first occur among the annotations, and on each device in the order of its
/// annotations.
pub open spec fn planned_links<'a>(
    nvtx_events: Seq<ChromeTraceEvent>,
    cuda_api_events: Seq<ChromeTraceEvent>,
    kernel_events: Seq<ChromeTraceEvent>,
    options: &ConversionOptions,
) -> Seq<KernelLink<'a>> {
    links_of_devices(
        &NsysEventAdapter,
        nvtx_events,
        cuda_api_events,
        kernel_events,
        options,
        annotation_devices(nvtx_events, options),
    )
}

/// Links the annotations of one device and appends the links to `links`.
fn link_device<'a, A: EventAdapter + ?Sized>(
    annotations: &[&'a ChromeTraceEvent],
    api_calls: &[&'a ChromeTraceEvent],
    kernels: &[&'a ChromeTraceEvent],
    adapter: &A,
    links: &mut Vec<KernelLink<'a>>,
)
    ensures
        final(links)@ == old(links)@ + device_links(
            adapter,
            annotations@,
            api_calls@,
            kernels@,
            annotations@.len(),
        ),
{
    let overlap_map = find_overlapping_intervals(annotations, api_calls, adapter);
    let correlation_map = build_correlation_map(kernels, adapter);
    let mut i: usize = 0;
    assert(links@ + Seq::<KernelLink<'a>>::empty() =~= links@);
    while i < annotations.len()
        invariant
            i <= annotations@.len(),
            links@ == old(links)@ + device_links(
                adapter,
                annotations@,
                api_calls@,
                kernels@,
                i as nat,
            ),
            forall|id: EventId|
                overlap_map@.contains_key(id) <==> #[trigger] overlaps_by_identity(
                    adapter,
                    annotations@,
                    api_calls@,
                    id,
                ).len() > 0,
            forall|id: EventId|
                overlap_map@.contains_key(id) ==> overlap_map@[id] == #[trigger] overlaps_by_identity(
                    adapter,
                    annotations@,
                    api_calls@,
                    id,
                ),
            forall|id: i32|
                correlation_map@.contains_key(id) <==> #[trigger] bucket_of(
                    adapter,
                    kernels@,
                    id,
                ).len() > 0,
            forall|id: i32|
                correlation_map@.contains_key(id) ==> correlation_map@[id]@ == #[trigger] bucket_of(
                    adapter,
                    kernels@,
                    id,
                ),
        decreases annotations@.len() - i,
    {
        let annotation: &'a ChromeTraceEvent = annotations[i];
        let event_id = adapter.get_event_id(annotation);
        let ghost overlapping = overlaps_by_identity(adapter, annotations@, api_calls@, event_id);
        let ghost earlier = device_links(adapter, annotations@, api_calls@, kernels@, i as nat);
        if let Some(overlapping_api_events) = overlap_map.get(&event_id) {
            let launched = find_kernels_for_annotation(
                overlapping_api_events.as_slice(),
                &correlation_map,
                adapter,
            );
            proof {
                lemma_kernels_reached(adapter, overlapping, kernels@, correlation_map@);
            }
            if launched.len() > 0 {
                if let Some((start_ns, end_ns)) = aggregate_kernel_times(
                    launched.as_slice(),
                    adapter,
                ) {
                    links.push(KernelLink { annotation, start_ns, end_ns, landing: launched[0] });
                    assert(links@ =~= old(links)@ + earlier.push(
                        KernelLink { annotation, start_ns, end_ns, landing: launched@[0] },
                    ));
                }
            }
        } else {
            assert(overlapping =~= Seq::<&ChromeTraceEvent>::empty());
        }
        i = i + 1;
    }
}

/// Finds every annotation that launched kernels, and the span of its
/// kernels. Only events of one device are linked to one another.
pub fn plan_links<'a>(
    nvtx_events: &'a [ChromeTraceEvent],
    cuda_api_events: &'a [ChromeTraceEvent],
    kernel_events: &'a [ChromeTraceEvent],
    options: &ConversionOptions,
) -> (links: Vec<KernelLink<'a>>)
    ensures
        links@ == planned_links(nvtx_events@, cuda_api_events@, kernel_events@, options),
{
    let adapter = NsysEventAdapter;
    let devices = devices_of_annotations(nvtx_events, options);
    let mut links: Vec<KernelLink<'a>> = Vec::new();
    let mut d: usize = 0;
    while d < devices.len()
        invariant
            d <= devices@.len(),
            links@ == links_of_devices(
                &adapter,
                nvtx_events@,
                cuda_api_events@,
                kernel_events@,
                options,
                devices@.take(d as int),
            ),
        decreases devices@.len() - d,
    {
        assert(devices@.take(d + 1).drop_last() =~= devices@.take(d as int));
        let device: i64 = devices[d];
        let annotations = annotations_on_device(nvtx_events, options, device);
        let api_calls = events_on_device(cuda_api_events, device);
        let kernels = events_on_device(kernel_events, device);
        link_device(
            annotations.as_slice(),
            api_calls.as_slice(),
            kernels.as_slice(),
            &adapter,
            &mut links,
        );
        d = d + 1;
    }
    assert(devices@.take(d as int) =~= devices@);
    links
}

/// The derived event of a link: the annotation's name on the annotation's
/// track, over the span of the kernels. The span is given in microseconds as
/// timestamp and duration, and in nanoseconds under `start_ns` and `end_ns`.
pub open spec fn derived_view(link: KernelLink, color: Option<Seq<char>>) -> TraceEventView {
    TraceEventView {
        identity: EventId(0),
        name: link.annotation.name@,
        ph: ChromeTracePhase::Complete,
        cat: "nvtx-kernel"@,
        ts: Micros::of_nanos(link.start_ns as int),
        dur: Some(Micros::of_nanos(link.end_ns - link.start_ns)),
        pid: link.annotation.pid@,
        tid: link.annotation.tid@,
        cname: color,
        id: None,
        bp: None,
        args: Map::<Seq<char>, ArgValue>::empty().insert(
            "start_ns"@,
            ArgValue::Int(link.start_ns),
        ).insert("end_ns"@, ArgValue::Int(link.end_ns)),
    }
}

/// The tail of the causal arrow of a link: at the annotation.
pub open spec fn flow_start_view(link: KernelLink, flow_id: u64) -> TraceEventView {
    TraceEventView {
        identity: EventId(0),
        name: link.annotation.name@,
        ph: ChromeTracePhase::FlowStart,
        cat: "cuda_flow"@,
        ts: link.annotation.ts,
        dur: None,
        pid: link.annotation.pid@,
        tid: link.annotation.tid@,
        cname: None,
        id: Some(flow_id),
        bp: None,
        args: Map::empty(),
    }
}

/// The head of the causal arrow of a link: on the track of the first kernel,
/// where the span of the kernels begins. It is the binding point of the
/// arrow.
pub open spec fn flow_finish_view(link: KernelLink, flow_id: u64) -> TraceEventView {
    TraceEventView {
        identity: EventId(0),
        name: link.annotation.name@,
        ph: ChromeTracePhase::FlowFinish,
        cat: "cuda_flow"@,
        ts: Micros::of_nanos(link.start_ns as int),
        dur: None,
        pid: link.landing.pid@,
        tid: link.landing.tid@,
        cname: None,
        id: Some(flow_id),
        bp: Some("e"@),
        args: Map::empty(),
    }
}

/// Makes the derived event of a link, colored by the first rule of `rules`
/// whose pattern matches the annotation's name.
pub fn derived_event(link: &KernelLink, rules: &[(String, String)]) -> (r: ChromeTraceEvent)
    ensures
        r@ == derived_view(*link, color_of(rules@, link.annotation.name@)),
{
    let mut event = ChromeTraceEvent::complete(
        link.annotation.name.clone(),
        Micros::from_nanos(link.start_ns),
        Micros::between(link.start_ns, link.end_ns),
        link.annotation.pid.clone(),
        link.annotation.tid.clone(),
        "nvtx-kernel".to_owned(),
    );
    event.args.insert("start_ns".to_owned(), ArgValue::Int(link.start_ns));
    event.args.insert("end_ns".to_owned(), ArgValue::Int(link.end_ns));
    event.cname = pick_color(rules, link.annotation.name.as_str());
    event
}

/// Makes the flow-start event of a link.
pub fn flow_start_event(link: &KernelLink, flow_id: u64) -> (r: ChromeTraceEvent)
    ensures
        r@ == flow_start_view(*link, flow_id),
{
    let mut event = ChromeTraceEvent::new(
        link.annotation.name.clone(),
        ChromeTracePhase::FlowStart,
        link.annotation.ts,
        link.annotation.pid.clone(),
        link.annotation.tid.clone(),
        "cuda_flow".to_owned(),
    );
    event.id = Some(flow_id);
    event
}

/// Makes the flow-finish event of a link.
pub fn flow_finish_event(link: &KernelLink, flow_id: u64) -> (r: ChromeTraceEvent)
    ensures
        r@ == flow_finish_view(*link, flow_id),
{
    let mut event = ChromeTraceEvent::new(
        link.annotation.name.clone(),
        ChromeTracePhase::FlowFinish,
        Micros::from_nanos(link.start_ns),
        link.landing.pid.clone(),
        link.landing.tid.clone(),
        "cuda_flow".to_owned(),
    );
    event.id = Some(flow_id);
    event.bp = Some("e".to_owned());
    event
}

/// Links annotations to kernels through the API calls that launched them,
/// and makes the events that show the links.
///
/// Returns, for the links in their order: the derived events; for each
/// derived event the identity of its annotation and its position among the
/// derived events; and the flow events, two for each link, which carry the
/// position of the link as their flow identifier.
///
/// Annotations are told apart by the identity that they were given and by
/// nothing else: annotations of one device that carry one identity are
/// linked through the API calls of all of them. `assign_identities` gives
/// the events of a list identities of their own and comes first.
pub fn link_nvtx_to_kernels(
    nvtx_events: &[ChromeTraceEvent],
    cuda_api_events: &[ChromeTraceEvent],
    kernel_events: &[ChromeTraceEvent],
    options: &ConversionOptions,
) -> (r: (Vec<ChromeTraceEvent>, Vec<(EventId, usize)>, Vec<ChromeTraceEvent>))
    ensures
        ({
            let plan = planned_links(nvtx_events@, cuda_api_events@, kernel_events@, options);
            &&& r.0@.len() == plan.len()
            &&& r.1@.len() == plan.len()
            &&& r.2@.len() == 2 * plan.len()
            &&& forall|k: int|
                0 <= k < plan.len() ==> {
                    &&& (#[trigger] r.0@[k])@ == derived_view(
                        plan[k],
                        color_of(options.nvtx_color_scheme@, plan[k].annotation.name@),
                    )
                    &&& r.1@[k] == (plan[k].annotation.identity, k as usize)
                    &&& r.2@[2 * k]@ == flow_start_view(plan[k], k as u64)
                    &&& r.2@[2 * k + 1]@ == flow_finish_view(plan[k], k as u64)
                }
        }),
{
    let links = plan_links(nvtx_events, cuda_api_events, kernel_events, options);
    let mut derived: Vec<ChromeTraceEvent> = Vec::new();
    let mut mapped: Vec<(EventId, usize)> = Vec::new();
    let mut flows: Vec<ChromeTraceEvent> = Vec::new();
    let mut k: usize = 0;
    while k < links.len()
        invariant
            k <= links@.len(),
            derived@.len() == k,
            mapped@.len() == k,
            flows@.len() == 2 * k,
            forall|i: int|
                0 <= i < k ==> {
                    &&& (#[trigger] derived@[i])@ == derived_view(
                        links@[i],
                        color_of(options.nvtx_color_scheme@, links@[i].annotation.name@),
                    )
                    &&& mapped@[i] == (links@[i].annotation.identity, i as usize)
                    &&& flows@[2 * i]@ == flow_start_view(links@[i], i as u64)
                    &&& flows@[2 * i + 1]@ == flow_finish_view(links@[i], i as u64)
                },
        decreases links@.len() - k,
    {
        let link: KernelLink = links[k];
        derived.push(derived_event(&link, options.nvtx_color_scheme.as_slice()));
        mapped.push((link.annotation.identity, k));
        flows.push(flow_start_event(&link, k as u64));
        flows.push(flow_finish_event(&link, k as u64));
        k = k + 1;
    }
    (derived, mapped, flows)
}

} // verus!
