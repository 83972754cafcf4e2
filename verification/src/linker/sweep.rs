//! The sweep line: markers for the ends of all time ranges, their order, and
//! the sweep over them.

use crate::linker::adapters::{EventAdapter, EventId};
use crate::linker::algorithms::{
    catches, catching_sources, copies, first_position, gather_caught, is_first_source,
    overlaps_by_identity, start_order, starts_before,
};
use crate::linker::laws::{
    in_start_order, lemma_first_position, lemma_start_order_of, lemma_start_order_unique,
};
use crate::models::ChromeTraceEvent;
use std::collections::HashMap;
use vstd::prelude::*;

verus! {

broadcast use vstd::std_specs::hash::group_hash_axioms;

/// Whether a marker opens or closes the interval of its event.
#[derive(Clone, Copy, Debug, PartialEq, Eq, Structural)]
enum Polarity {
    Start,
    End,
}

/// Which of the two input lists a marker's event comes from.
#[derive(Clone, Copy, Debug, PartialEq, Eq, Structural)]
enum EventOrigin {
    Source,
    Target,
}

/// One end of the interval of one event. `index` is the position of the event
/// in the list it comes from.
#[derive(Clone, Copy, Debug, PartialEq, Eq, Structural)]
struct SweepEvent {
    timestamp: i64,
    polarity: Polarity,
    origin: EventOrigin,
    index: usize,
}

/// The order of two keys: by their parts from left to right.
spec fn key_less(a: (i64, u8, u8, usize), b: (i64, u8, u8, usize)) -> bool {
    a.0 < b.0 || (a.0 == b.0 && (a.1 < b.1 || (a.1 == b.1 && (a.2 < b.2 || (a.2 == b.2 && a.3
        < b.3)))))
}

impl SweepEvent {
    /// The key by which markers are sorted: the timestamp first; at one
    /// timestamp a start before an end, then a source before a target, then
    /// the earlier event of a list before the later.
    spec fn key(self) -> (i64, u8, u8, usize) {
        (
            self.timestamp,
            match self.polarity {
                Polarity::Start => 0u8,
                Polarity::End => 1u8,
            },
            match self.origin {
                EventOrigin::Source => 0u8,
                EventOrigin::Target => 1u8,
            },
            self.index,
        )
    }

    fn sort_key(&self) -> (r: (i64, u8, u8, usize))
        ensures
            r == self.key(),
    {
        (
            self.timestamp,
            match self.polarity {
                Polarity::Start => 0u8,
                Polarity::End => 1u8,
            },
            match self.origin {
                EventOrigin::Source => 0u8,
                EventOrigin::Target => 1u8,
            },
            self.index,
        )
    }

    /// Whether the sweep reaches `self` before `other`.
    spec fn precedes(self, other: SweepEvent) -> bool {
        key_less(self.key(), other.key())
    }
}

/// Whether `marker` is one end of the time range of an event of `sources` or
/// of `targets`.
spec fn is_marker<A: EventAdapter + ?Sized>(
    adapter: &A,
    sources: Seq<&ChromeTraceEvent>,
    targets: Seq<&ChromeTraceEvent>,
    marker: SweepEvent,
) -> bool {
    let events = match marker.origin {
        EventOrigin::Source => sources,
        EventOrigin::Target => targets,
    };
    marker.index < events.len() && match adapter.time_range(events[marker.index as int]) {
        Some(range) => marker.timestamp == match marker.polarity {
            Polarity::Start => range.0,
            Polarity::End => range.1,
        },
        None => false,
    }
}

/// The markers are in sweep order, none twice.
spec fn strictly_sorted(markers: Seq<SweepEvent>) -> bool {
    forall|i: int, j: int|
        0 <= i < j < markers.len() ==> (#[trigger] markers[i]).precedes(#[trigger] markers[j])
}

/// `markers` holds both ends of every event that has a time range, and
/// nothing else.
spec fn marks_all<A: EventAdapter + ?Sized>(
    adapter: &A,
    sources: Seq<&ChromeTraceEvent>,
    targets: Seq<&ChromeTraceEvent>,
    markers: Seq<SweepEvent>,
) -> bool {
    &&& forall|k: int|
        0 <= k < markers.len() ==> is_marker(adapter, sources, targets, #[trigger] markers[k])
    &&& forall|marker: SweepEvent| #[trigger]
        is_marker(adapter, sources, targets, marker) ==> markers.contains(marker)
}

/// Whether the sweep has passed `marker` once it has handled the first `done`
/// markers.
spec fn passed(markers: Seq<SweepEvent>, done: int, marker: SweepEvent) -> bool {
    done >= markers.len() || marker.precedes(markers[done])
}

/// Handling one more marker passes that marker and no other.
proof fn lemma_advance(markers: Seq<SweepEvent>, done: int, marker: SweepEvent)
    requires
        strictly_sorted(markers),
        markers.contains(marker),
        0 <= done < markers.len(),
    ensures
        passed(markers, done + 1, marker) <==> (passed(markers, done, marker) || marker
            == markers[done]),
{
    let at = choose|i: int| 0 <= i < markers.len() && markers[i] == marker;
    if at < done {
        assert(markers[at].precedes(markers[done]));
        if done + 1 < markers.len() {
            assert(markers[at].precedes(markers[done + 1]));
        }
    } else if at == done {
        if done + 1 < markers.len() {
            assert(markers[done].precedes(markers[done + 1]));
        }
    } else {
        assert(markers[done].precedes(markers[at]));
        if at > done + 1 {
            assert(markers[done + 1].precedes(markers[at]));
        }
    }
}

/// Adds both ends of `range` for the event at `index` of its list.
fn push_ends(markers: &mut Vec<SweepEvent>, range: (i64, i64), origin: EventOrigin, index: usize)
    ensures
        final(markers)@ == old(markers)@.push(
            SweepEvent { timestamp: range.0, polarity: Polarity::Start, origin, index },
        ).push(SweepEvent { timestamp: range.1, polarity: Polarity::End, origin, index }),
{
    markers.push(SweepEvent { timestamp: range.0, polarity: Polarity::Start, origin, index });
    markers.push(SweepEvent { timestamp: range.1, polarity: Polarity::End, origin, index });
}

/// What holds of the markers while they are collected: `sources_done` events
/// of `sources` and `targets_done` events of `targets` have been looked at.
spec fn marks_upto<A: EventAdapter + ?Sized>(
    adapter: &A,
    sources: Seq<&ChromeTraceEvent>,
    targets: Seq<&ChromeTraceEvent>,
    markers: Seq<SweepEvent>,
    sources_done: int,
    targets_done: int,
) -> bool {
    &&& markers.no_duplicates()
    &&& forall|k: int|
        0 <= k < markers.len() ==> {
            &&& is_marker(adapter, sources, targets, #[trigger] markers[k])
            &&& markers[k].index < match markers[k].origin {
                EventOrigin::Source => sources_done,
                EventOrigin::Target => targets_done,
            }
        }
    &&& forall|marker: SweepEvent| #[trigger]
        is_marker(adapter, sources, targets, marker) && marker.index < (match marker.origin {
            EventOrigin::Source => sources_done,
            EventOrigin::Target => targets_done,
        }) ==> markers.contains(marker)
}

proof fn lemma_marks_extend<A: EventAdapter + ?Sized>(
    adapter: &A,
    sources: Seq<&ChromeTraceEvent>,
    targets: Seq<&ChromeTraceEvent>,
    before: Seq<SweepEvent>,
    after: Seq<SweepEvent>,
    sources_done: int,
    targets_done: int,
    origin: EventOrigin,
)
    requires
        marks_upto(adapter, sources, targets, before, sources_done, targets_done),
        match origin {
            EventOrigin::Source => 0 <= sources_done < sources.len() && sources_done
                <= usize::MAX,
            EventOrigin::Target => 0 <= targets_done < targets.len() && targets_done
                <= usize::MAX,
        },
        ({
            let index = match origin {
                EventOrigin::Source => sources_done,
                EventOrigin::Target => targets_done,
            };
            let events = match origin {
                EventOrigin::Source => sources,
                EventOrigin::Target => targets,
            };
            match adapter.time_range(events[index]) {
                Some(range) => after == before.push(
                    SweepEvent {
                        timestamp: range.0,
                        polarity: Polarity::Start,
                        origin,
                        index: index as usize,
                    },
                ).push(
                    SweepEvent {
                        timestamp: range.1,
                        polarity: Polarity::End,
                        origin,
                        index: index as usize,
                    },
                ),
                None => after == before,
            }
        }),
    ensures
        marks_upto(
            adapter,
            sources,
            targets,
            after,
            match origin {
                EventOrigin::Source => sources_done + 1,
                EventOrigin::Target => sources_done,
            },
            match origin {
                EventOrigin::Source => targets_done,
                EventOrigin::Target => targets_done + 1,
            },
        ),
{
    let index = match origin {
        EventOrigin::Source => sources_done,
        EventOrigin::Target => targets_done,
    };
    let events = match origin {
        EventOrigin::Source => sources,
        EventOrigin::Target => targets,
    };
    let next_sources = match origin {
        EventOrigin::Source => sources_done + 1,
        EventOrigin::Target => sources_done,
    };
    let next_targets = match origin {
        EventOrigin::Source => targets_done,
        EventOrigin::Target => targets_done + 1,
    };
    match adapter.time_range(events[index]) {
        Some(range) => {
            let start = SweepEvent {
                timestamp: range.0,
                polarity: Polarity::Start,
                origin,
                index: index as usize,
            };
            let end = SweepEvent {
                timestamp: range.1,
                polarity: Polarity::End,
                origin,
                index: index as usize,
            };
            assert(after.len() == before.len() + 2);
            assert(after[before.len() as int] == start);
            assert(after[before.len() as int + 1] == end);
            assert forall|k: int| 0 <= k < before.len() implies after[k] == before[k] by {}
            assert forall|marker: SweepEvent| #[trigger]
                is_marker(adapter, sources, targets, marker) && marker.index < (match marker.origin {
                    EventOrigin::Source => next_sources,
                    EventOrigin::Target => next_targets,
                }) implies after.contains(marker) by {
                if marker.origin == origin && marker.index == index {
                    if marker.polarity == Polarity::Start {
                        assert(marker == start);
                    } else {
                        assert(marker == end);
                    }
                } else {
                    assert(before.contains(marker));
                    let at = choose|i: int| 0 <= i < before.len() && before[i] == marker;
                    assert(after[at] == marker);
                }
            }
        },
        None => {
            assert forall|marker: SweepEvent| #[trigger]
                is_marker(adapter, sources, targets, marker) && marker.index < (match marker.origin {
                    EventOrigin::Source => next_sources,
                    EventOrigin::Target => next_targets,
                }) implies after.contains(marker) by {
                assert(!(marker.origin == origin && marker.index == index));
            }
        },
    }
}

/// Makes the two markers of every source and of every target that has a time
/// range.
fn emit_markers<A: EventAdapter + ?Sized>(
    source_events: &[&ChromeTraceEvent],
    target_events: &[&ChromeTraceEvent],
    adapter: &A,
) -> (markers: Vec<SweepEvent>)
    ensures
        marks_all(adapter, source_events@, target_events@, markers@),
        markers@.no_duplicates(),
{
    let mut markers: Vec<SweepEvent> = Vec::new();
    let mut i: usize = 0;
    while i < source_events.len()
        invariant
            i <= source_events@.len(),
            marks_upto(adapter, source_events@, target_events@, markers@, i as int, 0),
        decreases source_events@.len() - i,
    {
        let ghost before = markers@;
        if let Some(range) = adapter.get_time_range(source_events[i]) {
            push_ends(&mut markers, range, EventOrigin::Source, i);
        }
        proof {
            lemma_marks_extend(
                adapter,
                source_events@,
                target_events@,
                before,
                markers@,
                i as int,
                0,
                EventOrigin::Source,
            );
        }
        i = i + 1;
    }
    let mut j: usize = 0;
    while j < target_events.len()
        invariant
            j <= target_events@.len(),
            marks_upto(
                adapter,
                source_events@,
                target_events@,
                markers@,
                source_events@.len() as int,
                j as int,
            ),
        decreases target_events@.len() - j,
    {
        let ghost before = markers@;
        if let Some(range) = adapter.get_time_range(target_events[j]) {
            push_ends(&mut markers, range, EventOrigin::Target, j);
        }
        proof {
            lemma_marks_extend(
                adapter,
                source_events@,
                target_events@,
                before,
                markers@,
                source_events@.len() as int,
                j as int,
                EventOrigin::Target,
            );
        }
        j = j + 1;
    }
    markers
}

/// Sorts the markers into sweep order with `sort_by_key` of the standard
/// library, which orders the slice by the key that the closure gives and
/// orders tuples by their parts from left to right. What is claimed of it:
/// afterwards no marker stands before one with a smaller key, and the markers
/// are those that were there, each as often as before.
#[verifier::external_body]
fn sort_markers(markers: &mut Vec<SweepEvent>)
    ensures
        final(markers)@.to_multiset() == old(markers)@.to_multiset(),
        forall|i: int, j: int|
            0 <= i < j < final(markers)@.len() ==> !(#[trigger] final(markers)@[j]).precedes(
                #[trigger] final(markers)@[i],
            ),
{
    markers.sort_by_key(|marker| marker.sort_key());
}

/// Sorted markers that were all different stand in strict sweep order, and
/// sorting neither adds nor loses a marker.
proof fn lemma_sorted_markers<A: EventAdapter + ?Sized>(
    adapter: &A,
    sources: Seq<&ChromeTraceEvent>,
    targets: Seq<&ChromeTraceEvent>,
    unsorted: Seq<SweepEvent>,
    sorted: Seq<SweepEvent>,
)
    requires
        marks_all(adapter, sources, targets, unsorted),
        unsorted.no_duplicates(),
        sorted.to_multiset() == unsorted.to_multiset(),
        forall|i: int, j: int|
            0 <= i < j < sorted.len() ==> !(#[trigger] sorted[j]).precedes(#[trigger] sorted[i]),
    ensures
        marks_all(adapter, sources, targets, sorted),
        strictly_sorted(sorted),
{
    broadcast use vstd::seq_lib::to_multiset_contains;

    unsorted.lemma_multiset_has_no_duplicates();
    sorted.lemma_multiset_has_no_duplicates_conv();
    assert forall|k: int| 0 <= k < sorted.len() implies is_marker(
        adapter,
        sources,
        targets,
        #[trigger] sorted[k],
    ) by {
        assert(sorted.contains(sorted[k]));
        assert(sorted.to_multiset().count(sorted[k]) > 0);
        assert(unsorted.contains(sorted[k]));
    }
    assert forall|marker: SweepEvent| #[trigger]
        is_marker(adapter, sources, targets, marker) implies sorted.contains(marker) by {
        assert(unsorted.contains(marker));
        assert(unsorted.to_multiset().count(marker) > 0);
    }
    assert forall|i: int, j: int| 0 <= i < j < sorted.len() implies (#[trigger] sorted[i]).precedes(
        #[trigger] sorted[j],
    ) by {
        assert(!sorted[j].precedes(sorted[i]));
        assert(sorted[i] != sorted[j]);
    }
}

/// The markers of all events that have a time range, in sweep order.
fn sorted_markers<A: EventAdapter + ?Sized>(
    source_events: &[&ChromeTraceEvent],
    target_events: &[&ChromeTraceEvent],
    adapter: &A,
) -> (markers: Vec<SweepEvent>)
    ensures
        marks_all(adapter, source_events@, target_events@, markers@),
        strictly_sorted(markers@),
{
    let mut markers = emit_markers(source_events, target_events, adapter);
    let ghost unsorted = markers@;
    sort_markers(&mut markers);
    proof {
        lemma_sorted_markers(adapter, source_events@, target_events@, unsorted, markers@);
    }
    markers
}

/// One end of the time range of the event at position `index` of `events`.
spec fn end_of<A: EventAdapter + ?Sized>(
    adapter: &A,
    events: Seq<&ChromeTraceEvent>,
    origin: EventOrigin,
    polarity: Polarity,
    index: int,
) -> SweepEvent {
    let range = adapter.time_range(events[index])->Some_0;
    SweepEvent {
        timestamp: match polarity {
            Polarity::Start => range.0,
            Polarity::End => range.1,
        },
        polarity,
        origin,
        index: index as usize,
    }
}

/// Whether the source at position `j` is active once the sweep has handled
/// the first `done` markers: its start is passed, and its end is not, unless
/// the end came first.
spec fn is_active<A: EventAdapter + ?Sized>(
    adapter: &A,
    sources: Seq<&ChromeTraceEvent>,
    markers: Seq<SweepEvent>,
    done: int,
    j: int,
) -> bool {
    let start = end_of(adapter, sources, EventOrigin::Source, Polarity::Start, j);
    let end = end_of(adapter, sources, EventOrigin::Source, Polarity::End, j);
    &&& 0 <= j < sources.len()
    &&& adapter.time_range(sources[j]) is Some
    &&& passed(markers, done, start)
    &&& !(start.precedes(end) && passed(markers, done, end))
}

/// Whether the sweep has passed the start of the target at position `t`.
spec fn target_met<A: EventAdapter + ?Sized>(
    adapter: &A,
    targets: Seq<&ChromeTraceEvent>,
    markers: Seq<SweepEvent>,
    done: int,
    t: int,
) -> bool {
    &&& 0 <= t < targets.len()
    &&& adapter.time_range(targets[t]) is Some
    &&& passed(
        markers,
        done,
        end_of(adapter, targets, EventOrigin::Target, Polarity::Start, t),
    )
}

/// What the list at position `r` holds once the sweep has met the targets
/// `order`: at the first source of an identity, what the sources of that
/// identity caught; at any other position, nothing.
spec fn gathered<'a, A: EventAdapter + ?Sized>(
    adapter: &A,
    sources: Seq<&ChromeTraceEvent>,
    targets: Seq<&'a ChromeTraceEvent>,
    r: int,
    order: Seq<int>,
) -> Seq<&'a ChromeTraceEvent> {
    if is_first_source(adapter, sources, r) {
        gather_caught(adapter, sources, targets, adapter.event_id(sources[r]), order)
    } else {
        Seq::empty()
    }
}

/// `slots` leads from every source to the first source with its identity.
spec fn leads_to_first<A: EventAdapter + ?Sized>(
    adapter: &A,
    sources: Seq<&ChromeTraceEvent>,
    slots: Seq<usize>,
) -> bool {
    &&& slots.len() == sources.len()
    &&& forall|j: int|
        0 <= j < sources.len() ==> first_position(
            adapter,
            sources,
            adapter.event_id(#[trigger] sources[j]),
        ) == Some(slots[j] as int)
}

/// How many of the sources in `active` lead to the position `r`.
spec fn hits(active: Seq<usize>, slots: Seq<usize>, r: int) -> nat
    decreases active.len(),
{
    if active.len() == 0 {
        0
    } else {
        let earlier = hits(active.drop_last(), slots, r);
        if slots[active.last() as int] == r {
            earlier + 1
        } else {
            earlier
        }
    }
}

/// Taking one source out of `active` takes it out of the hits of the
/// position to which it leads.
proof fn lemma_hits_removed(active: Seq<usize>, slots: Seq<usize>, r: int, at: int)
    requires
        0 <= at < active.len(),
    ensures
        hits(active, slots, r) == hits(active.remove(at), slots, r) + (if slots[active[at] as int]
            == r {
            1nat
        } else {
            0nat
        }),
    decreases active.len(),
{
    let front = active.drop_last();
    if at == active.len() - 1 {
        assert(active.remove(at) =~= front);
    } else {
        lemma_hits_removed(front, slots, r, at);
        assert(active.remove(at).drop_last() =~= front.remove(at));
        assert(active.remove(at).last() == active.last());
        assert(front[at] == active[at]);
    }
}

/// Where `active` holds just the sources among the first `m` that catch
/// `target`, the hits of a position are the sources of its identity that
/// catch `target`.
proof fn lemma_hits<A: EventAdapter + ?Sized>(
    adapter: &A,
    sources: Seq<&ChromeTraceEvent>,
    target: &ChromeTraceEvent,
    active: Seq<usize>,
    slots: Seq<usize>,
    r: int,
    m: int,
)
    requires
        0 <= m <= sources.len() <= usize::MAX,
        0 <= r < sources.len(),
        leads_to_first(adapter, sources, slots),
        active.no_duplicates(),
        forall|a: int| 0 <= a < active.len() ==> #[trigger] active[a] < m,
        forall|j: int|
            0 <= j < m ==> (active.contains(j as usize) <==> catches(
                adapter,
                #[trigger] sources[j],
                target,
            )),
    ensures
        hits(active, slots, r) == (if is_first_source(adapter, sources, r) {
            catching_sources(adapter, sources.take(m), adapter.event_id(sources[r]), target)
        } else {
            0
        }),
    decreases m,
{
    if m == 0 {
        if active.len() > 0 {
            assert(active[0] < m);
        }
        assert(sources.take(0) =~= Seq::<&ChromeTraceEvent>::empty());
    } else {
        let j = m - 1;
        let id = adapter.event_id(sources[r]);
        assert(sources.take(m).drop_last() =~= sources.take(j));
        assert(sources.take(m).last() == sources[j]);
        lemma_first_position(adapter, sources, adapter.event_id(sources[j]));
        lemma_first_position(adapter, sources, id);
        assert(slots[j] == r <==> (is_first_source(adapter, sources, r) && adapter.event_id(
            sources[j],
        ) == id));
        if catches(adapter, sources[j], target) {
            assert(active.contains(j as usize));
            let at = choose|i: int| 0 <= i < active.len() && active[i] == j as usize;
            let rest = active.remove(at);
            active.remove_ensures(at);
            assert(rest.no_duplicates());
            assert forall|a: int| 0 <= a < rest.len() implies #[trigger] rest[a] < j by {
                if a < at {
                    assert(rest[a] == active[a]);
                } else {
                    assert(rest[a] == active[a + 1]);
                }
            }
            assert forall|i: int| 0 <= i < j implies (rest.contains(i as usize) <==> catches(
                adapter,
                #[trigger] sources[i],
                target,
            )) by {
                if rest.contains(i as usize) {
                    let b = choose|b: int| 0 <= b < rest.len() && rest[b] == i as usize;
                    if b < at {
                        assert(active[b] == i as usize);
                    } else {
                        assert(active[b + 1] == i as usize);
                    }
                    assert(active.contains(i as usize));
                }
                if active.contains(i as usize) {
                    let b = choose|b: int| 0 <= b < active.len() && active[b] == i as usize;
                    if b < at {
                        assert(rest[b] == i as usize);
                    } else {
                        assert(rest[b - 1] == i as usize);
                    }
                }
            }
            lemma_hits_removed(active, slots, r, at);
            lemma_hits(adapter, sources, target, rest, slots, r, j);
        } else {
            assert forall|a: int| 0 <= a < active.len() implies #[trigger] active[a] < j by {
                if active[a] == j {
                    assert(active.contains(j as usize));
                }
            }
            lemma_hits(adapter, sources, target, active, slots, r, j);
        }
    }
}

/// The state of the sweep after `done` markers: `active` holds the active
/// sources, `order` the targets met so far, and the lists what the sources
/// caught of them, gathered at the first source of each identity.
spec fn sweep_state<A: EventAdapter + ?Sized>(
    adapter: &A,
    sources: Seq<&ChromeTraceEvent>,
    targets: Seq<&ChromeTraceEvent>,
    markers: Seq<SweepEvent>,
    done: int,
    active: Seq<usize>,
    order: Seq<int>,
    lists: Seq<Vec<&ChromeTraceEvent>>,
) -> bool {
    &&& 0 <= done <= markers.len()
    &&& sources.len() <= usize::MAX
    &&& targets.len() <= usize::MAX
    &&& lists.len() == sources.len()
    &&& active.no_duplicates()
    &&& forall|a: int|
        0 <= a < active.len() ==> is_active(adapter, sources, markers, done, #[trigger] active[a] as int)
    &&& forall|j: int| #[trigger]
        is_active(adapter, sources, markers, done, j) ==> active.contains(j as usize)
    &&& in_start_order(adapter, targets, order)
    &&& forall|a: int|
        0 <= a < order.len() ==> target_met(adapter, targets, markers, done, #[trigger] order[a])
    &&& forall|t: int| #[trigger]
        target_met(adapter, targets, markers, done, t) ==> order.contains(t)
    &&& forall|j: int|
        0 <= j < sources.len() ==> (#[trigger] lists[j])@ == gathered(
            adapter,
            sources,
            targets,
            j,
            order,
        )
}

/// Before the sweep has handled a marker, no source is active and no target
/// is met.
proof fn lemma_before_the_sweep<A: EventAdapter + ?Sized>(
    adapter: &A,
    sources: Seq<&ChromeTraceEvent>,
    targets: Seq<&ChromeTraceEvent>,
    markers: Seq<SweepEvent>,
)
    requires
        marks_all(adapter, sources, targets, markers),
        strictly_sorted(markers),
        sources.len() <= usize::MAX,
        targets.len() <= usize::MAX,
    ensures
        forall|j: int| !#[trigger] is_active(adapter, sources, markers, 0, j),
        forall|t: int| !#[trigger] target_met(adapter, targets, markers, 0, t),
{
    assert forall|marker: SweepEvent| #[trigger]
        is_marker(adapter, sources, targets, marker) implies !passed(markers, 0, marker) by {
        let at = choose|i: int| 0 <= i < markers.len() && markers[i] == marker;
        if at > 0 {
            assert(markers[0].precedes(markers[at]));
        }
    }
    assert forall|j: int| !#[trigger] is_active(adapter, sources, markers, 0, j) by {
        if 0 <= j < sources.len() && adapter.time_range(sources[j]) is Some {
            assert(is_marker(
                adapter,
                sources,
                targets,
                end_of(adapter, sources, EventOrigin::Source, Polarity::Start, j),
            ));
        }
    }
    assert forall|t: int| !#[trigger] target_met(adapter, targets, markers, 0, t) by {
        if 0 <= t < targets.len() && adapter.time_range(targets[t]) is Some {
            assert(is_marker(
                adapter,
                sources,
                targets,
                end_of(adapter, targets, EventOrigin::Target, Polarity::Start, t),
            ));
        }
    }
}

/// What the marker handled next does to which sources are active and which
/// targets are met.
proof fn lemma_step<A: EventAdapter + ?Sized>(
    adapter: &A,
    sources: Seq<&ChromeTraceEvent>,
    targets: Seq<&ChromeTraceEvent>,
    markers: Seq<SweepEvent>,
    done: int,
)
    requires
        marks_all(adapter, sources, targets, markers),
        strictly_sorted(markers),
        0 <= done < markers.len(),
        sources.len() <= usize::MAX,
        targets.len() <= usize::MAX,
    ensures
        forall|j: int|
            #![trigger is_active(adapter, sources, markers, done + 1, j)]
            #![trigger is_active(adapter, sources, markers, done, j)]
            is_active(adapter, sources, markers, done + 1, j) <==> {
                let marker = markers[done];
                if marker.origin == EventOrigin::Source && marker.index == j {
                    marker.polarity == Polarity::Start
                } else {
                    is_active(adapter, sources, markers, done, j)
                }
            },
        forall|t: int|
            #![trigger target_met(adapter, targets, markers, done + 1, t)]
            #![trigger target_met(adapter, targets, markers, done, t)]
            target_met(adapter, targets, markers, done + 1, t) <==> {
                let marker = markers[done];
                target_met(adapter, targets, markers, done, t) || (marker.origin
                    == EventOrigin::Target && marker.polarity == Polarity::Start && marker.index
                    == t)
            },
        forall|j: int|
            #![trigger is_active(adapter, sources, markers, done, j)]
            ({
                let marker = markers[done];
                marker.origin == EventOrigin::Target && marker.polarity == Polarity::Start && 0
                    <= j < sources.len()
            }) ==> (is_active(adapter, sources, markers, done, j) <==> catches(
                adapter,
                sources[j],
                targets[markers[done].index as int],
            )),
{
    let marker = markers[done];
    assert(is_marker(adapter, sources, targets, marker));
    assert forall|j: int|
        #![trigger is_active(adapter, sources, markers, done + 1, j)]
        #![trigger is_active(adapter, sources, markers, done, j)]
        is_active(adapter, sources, markers, done + 1, j) <==> (if marker.origin
            == EventOrigin::Source && marker.index == j {
            marker.polarity == Polarity::Start
        } else {
            is_active(adapter, sources, markers, done, j)
        }) by {
        if 0 <= j < sources.len() && adapter.time_range(sources[j]) is Some {
            let start = end_of(adapter, sources, EventOrigin::Source, Polarity::Start, j);
            let end = end_of(adapter, sources, EventOrigin::Source, Polarity::End, j);
            assert(is_marker(adapter, sources, targets, start));
            assert(is_marker(adapter, sources, targets, end));
            lemma_advance(markers, done, start);
            lemma_advance(markers, done, end);
        }
    }
    assert forall|t: int|
        #![trigger target_met(adapter, targets, markers, done + 1, t)]
        #![trigger target_met(adapter, targets, markers, done, t)]
        target_met(adapter, targets, markers, done + 1, t) <==> (target_met(
            adapter,
            targets,
            markers,
            done,
            t,
        ) || (marker.origin == EventOrigin::Target && marker.polarity == Polarity::Start
            && marker.index == t)) by {
        if 0 <= t < targets.len() && adapter.time_range(targets[t]) is Some {
            let start = end_of(adapter, targets, EventOrigin::Target, Polarity::Start, t);
            assert(is_marker(adapter, sources, targets, start));
            lemma_advance(markers, done, start);
        }
    }
}

/// Appends `target`, once for every source in `active`, to the list to which
/// that source leads.
fn record_target<'a>(
    lists: &mut Vec<Vec<&'a ChromeTraceEvent>>,
    active: &Vec<usize>,
    slots: &Vec<usize>,
    target: &'a ChromeTraceEvent,
)
    requires
        forall|a: int| 0 <= a < active@.len() ==> #[trigger] active@[a] < slots@.len(),
        forall|j: int| 0 <= j < slots@.len() ==> #[trigger] slots@[j] < old(lists)@.len(),
    ensures
        final(lists)@.len() == old(lists)@.len(),
        forall|r: int|
            0 <= r < old(lists)@.len() ==> (#[trigger] final(lists)@[r])@ == old(lists)@[r]@
                + copies(target, hits(active@, slots@, r)),
{
    let count: usize = lists.len();
    let mut a: usize = 0;
    assert(active@.take(0) =~= Seq::<usize>::empty());
    assert forall|r: int| 0 <= r < lists@.len() implies (#[trigger] lists@[r])@ == old(
        lists,
    )@[r]@ + copies(target, hits(active@.take(0), slots@, r)) by {
        assert(lists@[r]@ + copies(target, 0) =~= lists@[r]@);
    }
    while a < active.len()
        invariant
            a <= active@.len(),
            lists@.len() == old(lists)@.len(),
            lists@.len() == count,
            forall|b: int| 0 <= b < active@.len() ==> #[trigger] active@[b] < slots@.len(),
            forall|j: int| 0 <= j < slots@.len() ==> #[trigger] slots@[j] < lists@.len(),
            forall|r: int|
                0 <= r < lists@.len() ==> (#[trigger] lists@[r])@ == old(lists)@[r]@ + copies(
                    target,
                    hits(active@.take(a as int), slots@, r),
                ),
        decreases active@.len() - a,
    {
        let slot: usize = slots[active[a]];
        let ghost before = lists@;
        lists[slot].push(target);
        assert forall|r: int| 0 <= r < lists@.len() implies (#[trigger] lists@[r])@ == old(
            lists,
        )@[r]@ + copies(target, hits(active@.take(a + 1), slots@, r)) by {
            let shorter = active@.take(a as int);
            let longer = active@.take(a + 1);
            assert(longer.drop_last() =~= shorter);
            assert(longer.last() == active@[a as int]);
            let fewer = hits(shorter, slots@, r);
            if r == slot {
                assert(lists@[r]@ == before[r]@.push(target));
                assert(copies(target, fewer + 1) =~= copies(target, fewer).push(target));
                assert(lists@[r]@ =~= old(lists)@[r]@ + copies(target, fewer + 1));
            } else {
                assert(lists@[r] == before[r]);
            }
        }
        a = a + 1;
    }
    assert(active@.take(a as int) =~= active@);
}

/// Takes the source at position `index` out of `active`, if it is there.
fn deactivate(active: &mut Vec<usize>, index: usize)
    requires
        old(active)@.no_duplicates(),
    ensures
        final(active)@.no_duplicates(),
        forall|x: usize|
            final(active)@.contains(x) <==> (old(active)@.contains(x) && x != index),
{
    let mut a: usize = 0;
    while a < active.len()
        invariant
            a <= active@.len(),
            active@ == old(active)@,
            active@.no_duplicates(),
            forall|b: int| 0 <= b < a ==> active@[b] != index,
        decreases active@.len() - a,
    {
        if active[a] == index {
            let ghost before = active@;
            active.remove(a);
            proof {
                before.remove_ensures(a as int);
            }
            assert forall|x: usize| active@.contains(x) <==> (before.contains(x) && x
                != index) by {
                if active@.contains(x) {
                    let at = choose|i: int| 0 <= i < active@.len() && active@[i] == x;
                    if at < a {
                        assert(before[at] == x);
                    } else {
                        assert(before[at + 1] == x);
                    }
                }
                if before.contains(x) && x != index {
                    let at = choose|i: int| 0 <= i < before.len() && before[i] == x;
                    if at < a {
                        assert(active@[at] == x);
                    } else {
                        assert(active@[at - 1] == x);
                    }
                }
            }
            return ;
        }
        a = a + 1;
    }
    assert forall|x: usize| active@.contains(x) implies x != index by {
        let at = choose|i: int| 0 <= i < active@.len() && active@[i] == x;
    }
}

/// Runs the sweep over the sorted markers. Returns, for each source by its
/// position, the targets that it caught.
fn sweep<'a, A: EventAdapter + ?Sized>(
    markers: &Vec<SweepEvent>,
    slots: &Vec<usize>,
    source_events: &[&ChromeTraceEvent],
    target_events: &[&'a ChromeTraceEvent],
    adapter: &A,
) -> (lists: Vec<Vec<&'a ChromeTraceEvent>>)
    requires
        marks_all(adapter, source_events@, target_events@, markers@),
        strictly_sorted(markers@),
        leads_to_first(adapter, source_events@, slots@),
    ensures
        lists@.len() == source_events@.len(),
        forall|j: int|
            0 <= j < source_events@.len() ==> (#[trigger] lists@[j])@ == gathered(
                adapter,
                source_events@,
                target_events@,
                j,
                start_order(adapter, target_events@),
            ),
{
    let mut lists: Vec<Vec<&'a ChromeTraceEvent>> = Vec::new();
    let mut n: usize = 0;
    while n < source_events.len()
        invariant
            n <= source_events@.len(),
            lists@.len() == n,
            forall|j: int| 0 <= j < n ==> (#[trigger] lists@[j])@.len() == 0,
        decreases source_events@.len() - n,
    {
        lists.push(Vec::new());
        n = n + 1;
    }
    let target_count: usize = target_events.len();
    let mut active: Vec<usize> = Vec::new();
    let ghost mut order: Seq<int> = Seq::empty();
    proof {
        lemma_before_the_sweep(adapter, source_events@, target_events@, markers@);
        assert forall|j: int| 0 <= j < source_events@.len() implies (#[trigger] lists@[j])@
            == gathered(adapter, source_events@, target_events@, j, order) by {
            assert(lists@[j]@ =~= Seq::<&ChromeTraceEvent>::empty());
        }
    }
    let mut k: usize = 0;
    while k < markers.len()
        invariant
            marks_all(adapter, source_events@, target_events@, markers@),
            strictly_sorted(markers@),
            leads_to_first(adapter, source_events@, slots@),
            sweep_state(
                adapter,
                source_events@,
                target_events@,
                markers@,
                k as int,
                active@,
                order,
                lists@,
            ),
        decreases markers@.len() - k,
    {
        let marker: SweepEvent = markers[k];
        let ghost active_before = active@;
        let ghost order_before = order;
        let ghost lists_before = lists@;
        proof {
            lemma_step(adapter, source_events@, target_events@, markers@, k as int);
            assert(is_marker(adapter, source_events@, target_events@, marker));
        }
        match (marker.polarity, marker.origin) {
            (Polarity::Start, EventOrigin::Source) => {
                assert(!active@.contains(marker.index)) by {
                    if active@.contains(marker.index) {
                        let at = choose|i: int|
                            0 <= i < active@.len() && active@[i] == marker.index;
                        assert(is_active(
                            adapter,
                            source_events@,
                            markers@,
                            k as int,
                            active@[at] as int,
                        ));
                    }
                }
                active.push(marker.index);
                proof {
                    assert forall|j: int| #[trigger]
                        is_active(
                            adapter,
                            source_events@,
                            markers@,
                            k + 1,
                            j,
                        ) implies active@.contains(j as usize) by {
                        if j == marker.index {
                            assert(active@[active@.len() - 1] == j as usize);
                        } else {
                            assert(active_before.contains(j as usize));
                            let at = choose|i: int|
                                0 <= i < active_before.len() && active_before[i] == j as usize;
                            assert(active@[at] == j as usize);
                        }
                    }
                }
            },
            (Polarity::Start, EventOrigin::Target) => {
                proof {
                    assert forall|a: int| 0 <= a < active@.len() implies #[trigger] active@[a]
                        < slots@.len() by {
                        assert(is_active(
                            adapter,
                            source_events@,
                            markers@,
                            k as int,
                            active@[a] as int,
                        ));
                    }
                    assert forall|j: int| 0 <= j < slots@.len() implies #[trigger] slots@[j]
                        < lists@.len() by {
                        lemma_first_position(
                            adapter,
                            source_events@,
                            adapter.event_id(source_events@[j]),
                        );
                    }
                    assert forall|j: int| 0 <= j < source_events@.len() implies (
                    active@.contains(j as usize) <==> catches(
                        adapter,
                        #[trigger] source_events@[j],
                        target_events@[marker.index as int],
                    )) by {
                        assert(is_active(adapter, source_events@, markers@, k as int, j)
                            <==> catches(
                            adapter,
                            source_events@[j],
                            target_events@[marker.index as int],
                        ));
                        if active@.contains(j as usize) {
                            let at = choose|i: int|
                                0 <= i < active@.len() && active@[i] == j as usize;
                            assert(is_active(
                                adapter,
                                source_events@,
                                markers@,
                                k as int,
                                active@[at] as int,
                            ));
                        }
                    }
                }
                record_target(&mut lists, &active, slots, target_events[marker.index]);
                proof {
                    order = order.push(marker.index as int);
                    assert(order.drop_last() =~= order_before);
                    assert forall|t: int| #[trigger]
                        target_met(
                            adapter,
                            target_events@,
                            markers@,
                            k + 1,
                            t,
                        ) implies order.contains(t) by {
                        if t == marker.index {
                            assert(order[order.len() - 1] == t);
                        } else {
                            assert(order_before.contains(t));
                            let at = choose|i: int|
                                0 <= i < order_before.len() && order_before[i] == t;
                            assert(order[at] == t);
                        }
                    }
                    assert forall|a: int, b: int|
                        0 <= a < b < order.len() implies starts_before(
                        adapter,
                        target_events@,
                        #[trigger] order[a],
                        #[trigger] order[b],
                    ) by {
                        if b == order.len() - 1 {
                            assert(order[a] == order_before[a]);
                            assert(target_met(
                                adapter,
                                target_events@,
                                markers@,
                                k as int,
                                order_before[a],
                            ));
                        } else {
                            assert(order[a] == order_before[a]);
                            assert(order[b] == order_before[b]);
                        }
                    }
                    assert forall|j: int| 0 <= j < source_events@.len() implies (
                    #[trigger] lists@[j])@ == gathered(
                        adapter,
                        source_events@,
                        target_events@,
                        j,
                        order,
                    ) by {
                        let target = target_events@[marker.index as int];
                        assert(order.last() == marker.index as int);
                        lemma_hits(
                            adapter,
                            source_events@,
                            target,
                            active@,
                            slots@,
                            j,
                            source_events@.len() as int,
                        );
                        assert(source_events@.take(source_events@.len() as int)
                            =~= source_events@);
                        if !is_first_source(adapter, source_events@, j) {
                            assert(lists_before[j]@ + copies(target, 0) =~= lists_before[j]@);
                        }
                    }
                }
            },
            (Polarity::End, EventOrigin::Source) => {
                deactivate(&mut active, marker.index);
                proof {
                    assert forall|a: int| 0 <= a < active@.len() implies is_active(
                        adapter,
                        source_events@,
                        markers@,
                        k + 1,
                        #[trigger] active@[a] as int,
                    ) by {
                        assert(active@.contains(active@[a]));
                        assert(active_before.contains(active@[a]));
                        let at = choose|i: int|
                            0 <= i < active_before.len() && active_before[i] == active@[a];
                        assert(is_active(
                            adapter,
                            source_events@,
                            markers@,
                            k as int,
                            active_before[at] as int,
                        ));
                    }
                }
            },
            (Polarity::End, EventOrigin::Target) => {},
        }
        k = k + 1;
    }
    proof {
        lemma_start_order_of(adapter, target_events@, target_events@.len());
        let full = start_order(adapter, target_events@);
        assert forall|e: int| order.contains(e) <==> full.contains(e) by {
            if order.contains(e) {
                let at = choose|i: int| 0 <= i < order.len() && order[i] == e;
                assert(target_met(adapter, target_events@, markers@, k as int, order[at]));
            }
            if full.contains(e) {
                assert(target_met(adapter, target_events@, markers@, k as int, e));
            }
        }
        lemma_start_order_unique(adapter, target_events@, order, full);
    }
    lists
}

/// Finds for every source the first source with its identity.
fn first_positions<A: EventAdapter + ?Sized>(
    source_events: &[&ChromeTraceEvent],
    adapter: &A,
) -> (slots: Vec<usize>)
    ensures
        leads_to_first(adapter, source_events@, slots@),
{
    let mut slots: Vec<usize> = Vec::new();
    let mut seen: HashMap<usize, usize> = HashMap::new();
    let mut j: usize = 0;
    while j < source_events.len()
        invariant
            j <= source_events@.len(),
            slots@.len() == j,
            forall|id: EventId|
                seen@.contains_key(id.0) <==> (#[trigger] first_position(
                    adapter,
                    source_events@.take(j as int),
                    id,
                )) is Some,
            forall|id: EventId|
                seen@.contains_key(id.0) ==> (#[trigger] first_position(
                    adapter,
                    source_events@.take(j as int),
                    id,
                )) == Some(seen@[id.0] as int),
            forall|i: int|
                0 <= i < j ==> first_position(
                    adapter,
                    source_events@.take(j as int),
                    adapter.event_id(#[trigger] source_events@[i]),
                ) == Some(slots@[i] as int),
        decreases source_events@.len() - j,
    {
        let ghost before = source_events@.take(j as int);
        let ghost after = source_events@.take(j + 1);
        assert(after.drop_last() =~= before);
        assert(after.last() == source_events@[j as int]);
        let event_id = adapter.get_event_id(source_events[j]);
        let slot: usize = match seen.get(&event_id.0) {
            Some(first) => *first,
            None => {
                seen.insert(event_id.0, j);
                j
            },
        };
        slots.push(slot);
        proof {
            assert forall|id: EventId|
                seen@.contains_key(id.0) <==> (#[trigger] first_position(adapter, after, id))
                    is Some by {
                let _ = first_position(adapter, before, id);
            }
            assert forall|id: EventId| seen@.contains_key(id.0) implies (#[trigger] first_position(
                adapter,
                after,
                id,
            )) == Some(seen@[id.0] as int) by {
                let _ = first_position(adapter, before, id);
            }
            assert forall|i: int| 0 <= i < j + 1 implies first_position(
                adapter,
                after,
                adapter.event_id(#[trigger] source_events@[i]),
            ) == Some(slots@[i] as int) by {
                let _ = first_position(adapter, before, adapter.event_id(source_events@[i]));
            }
        }
        j = j + 1;
    }
    assert(source_events@.take(j as int) =~= source_events@);
    slots
}

/// Finds the targets that start while a source is active, and gathers them
/// by the identity of the source.
///
/// Every event with a time range gives a start marker and an end marker. The
/// markers are sorted by timestamp; at one timestamp starts come before ends,
/// and then sources before targets. The sweep over the sorted markers keeps
/// the set of active sources: a source start adds its source, a source end
/// takes just that source out, and a target start appends the target, once
/// for every active source, to the list of the identity of that source.
///
/// The list of an identity stands at the position of the first source that
/// carries it; the lists at the other positions are empty.
pub fn sweep_overlaps<'a, A: EventAdapter + ?Sized>(
    source_events: &[&ChromeTraceEvent],
    target_events: &[&'a ChromeTraceEvent],
    adapter: &A,
) -> (lists: Vec<Vec<&'a ChromeTraceEvent>>)
    ensures
        lists@.len() == source_events@.len(),
        forall|j: int|
            0 <= j < source_events@.len() ==> (#[trigger] lists@[j])@ == (if is_first_source(
                adapter,
                source_events@,
                j,
            ) {
                overlaps_by_identity(
                    adapter,
                    source_events@,
                    target_events@,
                    adapter.event_id(source_events@[j]),
                )
            } else {
                Seq::empty()
            }),
{
    let slots = first_positions(source_events, adapter);
    let markers = sorted_markers(source_events, target_events, adapter);
    sweep(&markers, &slots, source_events, target_events, adapter)
}

} // verus!
