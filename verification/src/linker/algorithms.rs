//! The algorithms that link events: interval overlap, correlation index,
//! kernel lookup and time aggregation.

use crate::linker::adapters::{EventAdapter, EventId};
use crate::linker::laws::{lemma_first_position, lemma_no_overlaps_without_source};
use crate::linker::sweep::sweep_overlaps;
use crate::models::ChromeTraceEvent;
use std::collections::HashMap;
use vstd::prelude::*;

verus! {

broadcast use vstd::std_specs::hash::group_hash_axioms;

/// Whether a target with the time range `target` is reported for a source
/// with the time range `source`: the target starts while the source is
/// active. A source is active from its start to its end, both included; a
/// source whose end lies before its start stays active for good.
pub open spec fn overlaps(source: (i64, i64), target: (i64, i64)) -> bool {
    source.0 <= target.0 && (target.0 <= source.1 || source.1 < source.0)
}

/// Whether `target` is reported for `source`. An event without a time range
/// neither catches nor is caught.
pub open spec fn catches<A: EventAdapter + ?Sized>(
    adapter: &A,
    source: &ChromeTraceEvent,
    target: &ChromeTraceEvent,
) -> bool {
    match (adapter.time_range(source), adapter.time_range(target)) {
        (Some(s), Some(t)) => overlaps(s, t),
        _ => false,
    }
}

/// Whether the sweep reaches the start of the target at position `a` before
/// that of the target at position `b`: the earlier start first, and of two
/// equal starts the one that stands first in `targets`.
pub open spec fn starts_before<A: EventAdapter + ?Sized>(
    adapter: &A,
    targets: Seq<&ChromeTraceEvent>,
    a: int,
    b: int,
) -> bool {
    match (adapter.time_range(targets[a]), adapter.time_range(targets[b])) {
        (Some(ra), Some(rb)) => ra.0 < rb.0 || (ra.0 == rb.0 && a < b),
        _ => false,
    }
}

/// `order` with the position `t` put before the positions that it starts
/// before.
pub open spec fn place<A: EventAdapter + ?Sized>(
    adapter: &A,
    targets: Seq<&ChromeTraceEvent>,
    order: Seq<int>,
    t: int,
) -> Seq<int>
    decreases order.len(),
{
    if order.len() > 0 && starts_before(adapter, targets, t, order.last()) {
        place(adapter, targets, order.drop_last(), t).push(order.last())
    } else {
        order.push(t)
    }
}

/// The positions below `n` of the targets that have a time range, in the
/// order in which the sweep reaches their starts.
pub open spec fn start_order_of<A: EventAdapter + ?Sized>(
    adapter: &A,
    targets: Seq<&ChromeTraceEvent>,
    n: nat,
) -> Seq<int>
    decreases n,
{
    if n == 0 {
        Seq::empty()
    } else {
        let earlier = start_order_of(adapter, targets, (n - 1) as nat);
        if adapter.time_range(targets[n - 1]) is Some {
            place(adapter, targets, earlier, n - 1)
        } else {
            earlier
        }
    }
}

/// The positions of the targets that have a time range, by start time; those
/// with equal starts as they stand in `targets`.
pub open spec fn start_order<A: EventAdapter + ?Sized>(
    adapter: &A,
    targets: Seq<&ChromeTraceEvent>,
) -> Seq<int> {
    start_order_of(adapter, targets, targets.len())
}

/// The targets at the positions `order`, without those that `source` does not
/// catch.
pub open spec fn select_caught<'a, A: EventAdapter + ?Sized>(
    adapter: &A,
    source: &ChromeTraceEvent,
    targets: Seq<&'a ChromeTraceEvent>,
    order: Seq<int>,
) -> Seq<&'a ChromeTraceEvent>
    decreases order.len(),
{
    if order.len() == 0 {
        Seq::empty()
    } else {
        let earlier = select_caught(adapter, source, targets, order.drop_last());
        let target = targets[order.last()];
        if catches(adapter, source, target) {
            earlier.push(target)
        } else {
            earlier
        }
    }
}

/// The targets that overlap `source`, in the order in which the sweep meets
/// them.
pub open spec fn overlapping_targets<'a, A: EventAdapter + ?Sized>(
    adapter: &A,
    source: &ChromeTraceEvent,
    targets: Seq<&'a ChromeTraceEvent>,
) -> Seq<&'a ChromeTraceEvent> {
    select_caught(adapter, source, targets, start_order(adapter, targets))
}

/// The number of sources that carry the identity `id` and catch `target`.
pub open spec fn catching_sources<A: EventAdapter + ?Sized>(
    adapter: &A,
    sources: Seq<&ChromeTraceEvent>,
    id: EventId,
    target: &ChromeTraceEvent,
) -> nat
    decreases sources.len(),
{
    if sources.len() == 0 {
        0
    } else {
        let earlier = catching_sources(adapter, sources.drop_last(), id, target);
        if adapter.event_id(sources.last()) == id && catches(adapter, sources.last(), target) {
            earlier + 1
        } else {
            earlier
        }
    }
}

/// `target` as often as `count` says.
pub open spec fn copies<'a>(target: &'a ChromeTraceEvent, count: nat) -> Seq<&'a ChromeTraceEvent> {
    Seq::new(count, |i: int| target)
}

/// The targets at the positions `order`, each once for every source with the
/// identity `id` that catches it.
pub open spec fn gather_caught<'a, A: EventAdapter + ?Sized>(
    adapter: &A,
    sources: Seq<&ChromeTraceEvent>,
    targets: Seq<&'a ChromeTraceEvent>,
    id: EventId,
    order: Seq<int>,
) -> Seq<&'a ChromeTraceEvent>
    decreases order.len(),
{
    if order.len() == 0 {
        Seq::empty()
    } else {
        let target = targets[order.last()];
        gather_caught(adapter, sources, targets, id, order.drop_last()) + copies(
            target,
            catching_sources(adapter, sources, id, target),
        )
    }
}

/// The targets reported under the identity `id`, in the order in which the
/// sweep meets them: by start time, those with equal starts as they stand in
/// `targets`. A target stands there once for every source with that identity
/// that catches it, so where every source has an identity of its own, these
/// are the targets that overlap the one source with that identity.
pub open spec fn overlaps_by_identity<'a, A: EventAdapter + ?Sized>(
    adapter: &A,
    sources: Seq<&ChromeTraceEvent>,
    targets: Seq<&'a ChromeTraceEvent>,
    id: EventId,
) -> Seq<&'a ChromeTraceEvent> {
    gather_caught(adapter, sources, targets, id, start_order(adapter, targets))
}

/// The position of the first source that carries the identity `id`.
pub open spec fn first_position<A: EventAdapter + ?Sized>(
    adapter: &A,
    sources: Seq<&ChromeTraceEvent>,
    id: EventId,
) -> Option<int>
    decreases sources.len(),
{
    if sources.len() == 0 {
        None
    } else {
        match first_position(adapter, sources.drop_last(), id) {
            Some(position) => Some(position),
            None => if adapter.event_id(sources.last()) == id {
                Some(sources.len() - 1)
            } else {
                None
            },
        }
    }
}

/// Whether no source before position `r` carries the identity of the source
/// at position `r`.
pub open spec fn is_first_source<A: EventAdapter + ?Sized>(
    adapter: &A,
    sources: Seq<&ChromeTraceEvent>,
    r: int,
) -> bool {
    first_position(adapter, sources, adapter.event_id(sources[r])) == Some(r)
}

/// For each source identity, the targets that overlap it. An identity
/// without an overlapping target has no entry.
pub struct OverlapMap<'a> {
    pub by_identity: HashMap<usize, Vec<&'a ChromeTraceEvent>>,
}

impl<'a> View for OverlapMap<'a> {
    type V = Map<EventId, Seq<&'a ChromeTraceEvent>>;

    open spec fn view(&self) -> Map<EventId, Seq<&'a ChromeTraceEvent>> {
        Map::new(
            |id: EventId| self.by_identity@.contains_key(id.0),
            |id: EventId| self.by_identity@[id.0]@,
        )
    }
}

impl<'a> OverlapMap<'a> {
    /// The number of identities that have an entry.
    pub fn len(&self) -> (r: usize)
        ensures
            r == self@.dom().len(),
            self@.dom().finite(),
    {
        proof {
            let keys = self.by_identity@.dom();
            let wrap = |key: usize| EventId(key);
            assert(keys.map(wrap) =~= self@.dom()) by {
                assert forall|id: EventId| keys.map(wrap).contains(id) <==> self@.dom().contains(
                    id,
                ) by {
                    if self@.dom().contains(id) {
                        assert(keys.contains(id.0) && wrap(id.0) == id);
                    }
                }
            }
            assert(vstd::relations::injective_on(wrap, keys));
            vstd::set_lib::lemma_map_size(keys, self@.dom(), wrap);
        }
        self.by_identity.len()
    }

    /// Whether no identity has an entry.
    pub fn is_empty(&self) -> (r: bool)
        ensures
            r <==> forall|id: EventId| !self@.contains_key(id),
    {
        let r = self.by_identity.is_empty();
        proof {
            if !r {
                let key = choose|k: usize| self.by_identity@.contains_key(k);
                assert(self@.contains_key(EventId(key)));
            } else {
                assert forall|id: EventId| !self@.contains_key(id) by {
                    assert(!self.by_identity@.contains_key(id.0));
                }
            }
        }
        r
    }

    /// Whether the identity `id` has an entry.
    pub fn contains_key(&self, id: &EventId) -> (r: bool)
        ensures
            r == self@.contains_key(*id),
    {
        self.by_identity.contains_key(&id.0)
    }

    /// The targets that overlap the identity `id`, if any does.
    pub fn get(&self, id: &EventId) -> (r: Option<&Vec<&'a ChromeTraceEvent>>)
        ensures
            match r {
                Some(list) => self@.contains_key(*id) && self@[*id] == list@,
                None => !self@.contains_key(*id),
            },
    {
        self.by_identity.get(&id.0)
    }
}

/// Finds, for each source, the targets that start while it is active, by a
/// sweep over the ends of all time ranges in time order. Events without a
/// time range take no part.
///
/// The result is keyed by the identity of the source. Sources are told apart
/// by the identity that they were given and by nothing else: where several
/// sources carry one identity, they share one entry, in which a target
/// stands once for each of them that catches it. `assign_identities` gives
/// the events of a list identities of their own and comes first.
pub fn find_overlapping_intervals<'a, A: EventAdapter + ?Sized>(
    source_events: &[&'a ChromeTraceEvent],
    target_events: &[&'a ChromeTraceEvent],
    adapter: &A,
) -> (r: OverlapMap<'a>)
    ensures
        forall|id: EventId|
            r@.contains_key(id) <==> #[trigger] overlaps_by_identity(
                adapter,
                source_events@,
                target_events@,
                id,
            ).len() > 0,
        forall|id: EventId|
            r@.contains_key(id) ==> r@[id] == #[trigger] overlaps_by_identity(
                adapter,
                source_events@,
                target_events@,
                id,
            ),
{
    let mut lists = sweep_overlaps(source_events, target_events, adapter);
    let ghost all_lists = lists@;
    let mut result: HashMap<usize, Vec<&'a ChromeTraceEvent>> = HashMap::new();
    let mut j: usize = source_events.len();
    proof {
        assert(lists@.take(j as int) =~= lists@);
        assert forall|id: EventId|
            !({
                let first = #[trigger] first_position(adapter, source_events@, id);
                first is Some && first->Some_0 >= j
            }) by {
            lemma_first_position(adapter, source_events@, id);
        }
    }
    while j > 0
        invariant
            j <= source_events@.len(),
            all_lists.len() == source_events@.len(),
            lists@ == all_lists.take(j as int),
            forall|i: int|
                0 <= i < source_events@.len() ==> (#[trigger] all_lists[i])@ == (
                if is_first_source(adapter, source_events@, i) {
                    overlaps_by_identity(
                        adapter,
                        source_events@,
                        target_events@,
                        adapter.event_id(source_events@[i]),
                    )
                } else {
                    Seq::empty()
                }),
            forall|id: EventId|
                result@.contains_key(id.0) <==> ({
                    let first = #[trigger] first_position(adapter, source_events@, id);
                    first is Some && first->Some_0 >= j && overlaps_by_identity(
                        adapter,
                        source_events@,
                        target_events@,
                        id,
                    ).len() > 0
                }),
            forall|id: EventId|
                result@.contains_key(id.0) ==> result@[id.0]@ == #[trigger] overlaps_by_identity(
                    adapter,
                    source_events@,
                    target_events@,
                    id,
                ),
        decreases j,
    {
        j = j - 1;
        let found: Vec<&'a ChromeTraceEvent> = match lists.pop() {
            Some(list) => list,
            None => Vec::new(),
        };
        assert(found == all_lists[j as int]);
        assert(lists@ =~= all_lists.take(j as int));
        let event_id = adapter.get_event_id(source_events[j]);
        proof {
            assert forall|id: EventId|
                ({
                    let first = #[trigger] first_position(adapter, source_events@, id);
                    &&& first == Some(j as int) ==> id == event_id && is_first_source(
                        adapter,
                        source_events@,
                        j as int,
                    )
                    &&& id == event_id ==> first is Some && first->Some_0 <= j
                }) by {
                lemma_first_position(adapter, source_events@, id);
            }
        }
        if found.len() > 0 {
            result.insert(event_id.0, found);
        }
    }
    let overlap_map = OverlapMap { by_identity: result };
    proof {
        assert forall|id: EventId|
            overlap_map@.contains_key(id) <==> #[trigger] overlaps_by_identity(
                adapter,
                source_events@,
                target_events@,
                id,
            ).len() > 0 by {
            lemma_first_position(adapter, source_events@, id);
            if first_position(adapter, source_events@, id) is None {
                lemma_no_overlaps_without_source(adapter, source_events@, target_events@, id);
            }
        }
        assert forall|id: EventId| overlap_map@.contains_key(id) implies overlap_map@[id]
            == #[trigger] overlaps_by_identity(adapter, source_events@, target_events@, id) by {
            let _ = first_position(adapter, source_events@, id);
        }
    }
    overlap_map
}

/// The kernels of `kernels` that carry the correlation identifier `id`, in the
/// order in which they were given.
pub open spec fn bucket_of<'a, A: EventAdapter + ?Sized>(
    adapter: &A,
    kernels: Seq<&'a ChromeTraceEvent>,
    id: i32,
) -> Seq<&'a ChromeTraceEvent>
    decreases kernels.len(),
{
    if kernels.len() == 0 {
        Seq::empty()
    } else {
        let earlier = bucket_of(adapter, kernels.drop_last(), id);
        if adapter.correlation_id(kernels.last()) == Some(id) {
            earlier.push(kernels.last())
        } else {
            earlier
        }
    }
}

/// Groups kernels by correlation identifier. A kernel without one is in no
/// bucket; an identifier that no kernel carries has no bucket.
pub fn build_correlation_map<'a, A: EventAdapter + ?Sized>(
    kernel_events: &[&'a ChromeTraceEvent],
    adapter: &A,
) -> (r: HashMap<i32, Vec<&'a ChromeTraceEvent>>)
    ensures
        forall|id: i32|
            r@.contains_key(id) <==> #[trigger] bucket_of(adapter, kernel_events@, id).len() > 0,
        forall|id: i32|
            r@.contains_key(id) ==> r@[id]@ == #[trigger] bucket_of(adapter, kernel_events@, id),
{
    let mut correlation_map: HashMap<i32, Vec<&'a ChromeTraceEvent>> = HashMap::new();
    let mut i: usize = 0;
    while i < kernel_events.len()
        invariant
            i <= kernel_events@.len(),
            forall|id: i32|
                correlation_map@.contains_key(id) <==> #[trigger] bucket_of(
                    adapter,
                    kernel_events@.take(i as int),
                    id,
                ).len() > 0,
            forall|id: i32|
                correlation_map@.contains_key(id) ==> correlation_map@[id]@ == #[trigger] bucket_of(
                    adapter,
                    kernel_events@.take(i as int),
                    id,
                ),
        decreases kernel_events@.len() - i,
    {
        let kernel_event: &'a ChromeTraceEvent = kernel_events[i];
        let ghost before = kernel_events@.take(i as int);
        let ghost after = kernel_events@.take(i + 1);
        assert(after.drop_last() =~= before);
        assert(after.last() == kernel_event);
        match adapter.get_correlation_id(kernel_event) {
            Some(corr_id) => {
                let mut bucket: Vec<&'a ChromeTraceEvent> = match correlation_map.remove(&corr_id) {
                    Some(found) => found,
                    None => Vec::new(),
                };
                bucket.push(kernel_event);
                correlation_map.insert(corr_id, bucket);
                assert forall|id: i32|
                    correlation_map@.contains_key(id) <==> #[trigger] bucket_of(
                        adapter,
                        after,
                        id,
                    ).len() > 0 by {
                    let _ = bucket_of(adapter, before, id);
                }
                assert forall|id: i32| correlation_map@.contains_key(id) implies correlation_map@[id]@
                    == #[trigger] bucket_of(adapter, after, id) by {
                    let _ = bucket_of(adapter, before, id);
                }
            },
            None => {
                assert forall|id: i32| #[trigger]
                    bucket_of(adapter, after, id) == bucket_of(adapter, before, id) by {}
            },
        }
        i = i + 1;
    }
    assert(kernel_events@.take(i as int) =~= kernel_events@);
    correlation_map
}

/// The smallest start and the largest end among the kernels that have a time
/// range; `None` where no kernel has one.
pub open spec fn time_span<A: EventAdapter + ?Sized>(
    adapter: &A,
    kernels: Seq<&ChromeTraceEvent>,
) -> Option<(i64, i64)>
    decreases kernels.len(),
{
    if kernels.len() == 0 {
        None
    } else {
        let earlier = time_span(adapter, kernels.drop_last());
        match (adapter.time_range(kernels.last()), earlier) {
            (Some(range), Some(span)) => Some(
                (
                    if range.0 < span.0 {
                        range.0
                    } else {
                        span.0
                    },
                    if range.1 > span.1 {
                        range.1
                    } else {
                        span.1
                    },
                ),
            ),
            (Some(range), None) => Some(range),
            (None, _) => earlier,
        }
    }
}

/// Reduces kernels to one span: earliest start, latest end. Kernels without a
/// time range are left out, and nothing is returned where none has one.
pub fn aggregate_kernel_times<A: EventAdapter + ?Sized>(
    kernels: &[&ChromeTraceEvent],
    adapter: &A,
) -> (r: Option<(i64, i64)>)
    ensures
        r == time_span(adapter, kernels@),
{
    let mut span: Option<(i64, i64)> = None;
    let mut i: usize = 0;
    while i < kernels.len()
        invariant
            i <= kernels@.len(),
            span == time_span(adapter, kernels@.take(i as int)),
        decreases kernels@.len() - i,
    {
        assert(kernels@.take(i + 1).drop_last() =~= kernels@.take(i as int));
        if let Some((kernel_start, kernel_end)) = adapter.get_time_range(kernels[i]) {
            span = match span {
                Some((start, end)) => Some(
                    (
                        if kernel_start < start {
                            kernel_start
                        } else {
                            start
                        },
                        if kernel_end > end {
                            kernel_end
                        } else {
                            end
                        },
                    ),
                ),
                None => Some((kernel_start, kernel_end)),
            };
        }
        i = i + 1;
    }
    assert(kernels@.take(i as int) =~= kernels@);
    span
}

/// The kernels launched by the given API calls: for each call in turn, the
/// bucket of its correlation identifier. A call without an identifier, or
/// with one that has no bucket, adds nothing.
pub open spec fn kernels_reached<'a, A: EventAdapter + ?Sized>(
    adapter: &A,
    api_events: Seq<&'a ChromeTraceEvent>,
    correlation_map: Map<i32, Vec<&'a ChromeTraceEvent>>,
) -> Seq<&'a ChromeTraceEvent>
    decreases api_events.len(),
{
    if api_events.len() == 0 {
        Seq::empty()
    } else {
        let earlier = kernels_reached(adapter, api_events.drop_last(), correlation_map);
        match adapter.correlation_id(api_events.last()) {
            Some(id) => if correlation_map.contains_key(id) {
                earlier + correlation_map[id]@
            } else {
                earlier
            },
            None => earlier,
        }
    }
}

/// Finds the kernels of an annotation through the API calls that overlap it.
pub fn find_kernels_for_annotation<'a, A: EventAdapter + ?Sized>(
    overlapping_api_events: &[&'a ChromeTraceEvent],
    correlation_map: &HashMap<i32, Vec<&'a ChromeTraceEvent>>,
    adapter: &A,
) -> (r: Vec<&'a ChromeTraceEvent>)
    ensures
        r@ == kernels_reached(adapter, overlapping_api_events@, correlation_map@),
{
    let mut found_kernels: Vec<&'a ChromeTraceEvent> = Vec::new();
    let mut i: usize = 0;
    while i < overlapping_api_events.len()
        invariant
            i <= overlapping_api_events@.len(),
            found_kernels@ == kernels_reached(
                adapter,
                overlapping_api_events@.take(i as int),
                correlation_map@,
            ),
        decreases overlapping_api_events@.len() - i,
    {
        assert(overlapping_api_events@.take(i + 1).drop_last() =~= overlapping_api_events@.take(
            i as int,
        ));
        if let Some(corr_id) = adapter.get_correlation_id(overlapping_api_events[i]) {
            if let Some(kernels) = correlation_map.get(&corr_id) {
                let ghost before = found_kernels@;
                let mut j: usize = 0;
                while j < kernels.len()
                    invariant
                        j <= kernels@.len(),
                        found_kernels@ == before + kernels@.take(j as int),
                    decreases kernels@.len() - j,
                {
                    found_kernels.push(kernels[j]);
                    assert(kernels@.take(j + 1) =~= kernels@.take(j as int).push(kernels@[j as int]));
                    j = j + 1;
                }
                assert(kernels@.take(j as int) =~= kernels@);
            }
        }
        i = i + 1;
    }
    assert(overlapping_api_events@.take(i as int) =~= overlapping_api_events@);
    found_kernels
}

} // verus!
