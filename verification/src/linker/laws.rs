//! What holds of the linking algorithms, whatever the events.

use crate::linker::adapters::{EventAdapter, EventId, NsysEventAdapter};
use crate::linker::algorithms::{
    bucket_of, catches, catching_sources, copies, first_position, gather_caught,
    overlapping_targets, overlaps, overlaps_by_identity, place, select_caught, start_order,
    start_order_of, starts_before, time_span,
};
use crate::linker::nvtx_linker::{
    annotation_devices, annotations_on, derived_view, device_links, device_of, kernels_launched,
    link_of, links_of_devices, on_device, planned_links, KernelLink,
};
use crate::models::{ChromeTraceEvent, ConversionOptions, Micros};
use vstd::prelude::*;

verus! {

/// Between a source and a target whose ends do not lie before their starts,
/// there is an overlap exactly where the target starts inside the source,
/// together with the source, or at the moment the source ends.
pub proof fn lemma_overlap_rule(s1: i64, s2: i64, t1: i64, t2: i64)
    requires
        s1 <= s2,
        t1 <= t2,
    ensures
        overlaps((s1, s2), (t1, t2)) <==> ((s1 < t1 && t1 <= s2) || s1 == t1 || t1 == s2),
{
}

/// `order` holds positions of targets with a time range, each before those
/// that it starts before.
pub open spec fn in_start_order<A: EventAdapter + ?Sized>(
    adapter: &A,
    targets: Seq<&ChromeTraceEvent>,
    order: Seq<int>,
) -> bool {
    &&& forall|k: int|
        0 <= k < order.len() ==> 0 <= #[trigger] order[k] < targets.len() && adapter.time_range(
            targets[order[k]],
        ) is Some
    &&& forall|a: int, b: int|
        0 <= a < b < order.len() ==> starts_before(
            adapter,
            targets,
            #[trigger] order[a],
            #[trigger] order[b],
        )
}

/// Placing a new position keeps the order and adds just that position.
pub proof fn lemma_place<A: EventAdapter + ?Sized>(
    adapter: &A,
    targets: Seq<&ChromeTraceEvent>,
    order: Seq<int>,
    t: int,
)
    requires
        in_start_order(adapter, targets, order),
        0 <= t < targets.len(),
        adapter.time_range(targets[t]) is Some,
        !order.contains(t),
    ensures
        in_start_order(adapter, targets, place(adapter, targets, order, t)),
        forall|e: int| #[trigger]
            place(adapter, targets, order, t).contains(e) <==> (order.contains(e) || e == t),
    decreases order.len(),
{
    let placed = place(adapter, targets, order, t);
    if order.len() > 0 && starts_before(adapter, targets, t, order.last()) {
        let front = order.drop_last();
        let last = order.last();
        assert forall|k: int| 0 <= k < front.len() implies front[k] == order[k] by {}
        assert(!front.contains(t)) by {
            if front.contains(t) {
                let at = choose|i: int| 0 <= i < front.len() && front[i] == t;
                assert(order[at] == t);
            }
        }
        lemma_place(adapter, targets, front, t);
        let inner = place(adapter, targets, front, t);
        assert(placed == inner.push(last));
        assert forall|a: int, b: int| 0 <= a < b < placed.len() implies starts_before(
            adapter,
            targets,
            #[trigger] placed[a],
            #[trigger] placed[b],
        ) by {
            if b == placed.len() - 1 {
                assert(inner.contains(inner[a]));
                if inner[a] != t {
                    assert(front.contains(inner[a]));
                    let at = choose|i: int| 0 <= i < front.len() && front[i] == inner[a];
                    assert(order[at] == inner[a]);
                    assert(starts_before(adapter, targets, order[at], order[order.len() - 1]));
                }
            } else {
                assert(placed[a] == inner[a]);
                assert(placed[b] == inner[b]);
            }
        }
        assert forall|e: int| #[trigger] placed.contains(e) <==> (order.contains(e) || e == t) by {
            if placed.contains(e) {
                let at = choose|i: int| 0 <= i < placed.len() && placed[i] == e;
                if at < inner.len() {
                    assert(inner.contains(inner[at]));
                    if e != t {
                        assert(front.contains(e));
                        let f = choose|i: int| 0 <= i < front.len() && front[i] == e;
                        assert(order[f] == e);
                    }
                } else {
                    assert(order[order.len() - 1] == e);
                }
            }
            if order.contains(e) {
                let at = choose|i: int| 0 <= i < order.len() && order[i] == e;
                if at < front.len() {
                    assert(front[at] == e);
                    assert(front.contains(e));
                    assert(inner.contains(e));
                    let f = choose|i: int| 0 <= i < inner.len() && inner[i] == e;
                    assert(placed[f] == e);
                } else {
                    assert(placed[placed.len() - 1] == e);
                }
            }
            if e == t {
                assert(inner.contains(t));
                let f = choose|i: int| 0 <= i < inner.len() && inner[i] == t;
                assert(placed[f] == t);
            }
        }
    } else {
        assert(placed == order.push(t));
        assert forall|a: int, b: int| 0 <= a < b < placed.len() implies starts_before(
            adapter,
            targets,
            #[trigger] placed[a],
            #[trigger] placed[b],
        ) by {
            if b == placed.len() - 1 {
                assert(placed[a] == order[a]);
                assert(order.contains(order[a]));
                if a < order.len() - 1 {
                    assert(starts_before(adapter, targets, order[a], order[order.len() - 1]));
                }
            } else {
                assert(placed[a] == order[a]);
                assert(placed[b] == order[b]);
            }
        }
        assert forall|e: int| #[trigger] placed.contains(e) <==> (order.contains(e) || e == t) by {
            if placed.contains(e) {
                let at = choose|i: int| 0 <= i < placed.len() && placed[i] == e;
                if at < order.len() {
                    assert(order[at] == e);
                }
            }
            if order.contains(e) {
                let at = choose|i: int| 0 <= i < order.len() && order[i] == e;
                assert(placed[at] == e);
            }
            if e == t {
                assert(placed[placed.len() - 1] == t);
            }
        }
    }
}

/// The start order below `n` is in start order and holds every position
/// below `n` of a target with a time range.
pub proof fn lemma_start_order_of<A: EventAdapter + ?Sized>(
    adapter: &A,
    targets: Seq<&ChromeTraceEvent>,
    n: nat,
)
    requires
        n <= targets.len(),
    ensures
        in_start_order(adapter, targets, start_order_of(adapter, targets, n)),
        forall|e: int| #[trigger]
            start_order_of(adapter, targets, n).contains(e) <==> (0 <= e < n && adapter.time_range(
                targets[e],
            ) is Some),
    decreases n,
{
    if n > 0 {
        lemma_start_order_of(adapter, targets, (n - 1) as nat);
        let earlier = start_order_of(adapter, targets, (n - 1) as nat);
        if adapter.time_range(targets[n - 1]) is Some {
            lemma_place(adapter, targets, earlier, n - 1);
        }
    }
}

/// Two lists in start order that hold the same positions are one list.
pub proof fn lemma_start_order_unique<A: EventAdapter + ?Sized>(
    adapter: &A,
    targets: Seq<&ChromeTraceEvent>,
    x: Seq<int>,
    y: Seq<int>,
)
    requires
        in_start_order(adapter, targets, x),
        in_start_order(adapter, targets, y),
        forall|e: int| x.contains(e) <==> y.contains(e),
    ensures
        x == y,
    decreases x.len(),
{
    if x.len() == 0 {
        if y.len() > 0 {
            assert(y.contains(y[0]));
        }
        assert(x =~= y);
    } else {
        let xl = x.last();
        assert(x.contains(xl));
        assert(y.contains(xl));
        let yl = y.last();
        assert(y.contains(yl));
        assert(x.contains(yl));
        let ix = choose|i: int| 0 <= i < x.len() && x[i] == yl;
        let iy = choose|i: int| 0 <= i < y.len() && y[i] == xl;
        if ix < x.len() - 1 {
            assert(starts_before(adapter, targets, x[ix], x[x.len() - 1]));
        }
        if iy < y.len() - 1 {
            assert(starts_before(adapter, targets, y[iy], y[y.len() - 1]));
        }
        assert(xl == yl);
        let xf = x.drop_last();
        let yf = y.drop_last();
        assert forall|e: int| xf.contains(e) <==> yf.contains(e) by {
            if xf.contains(e) {
                let at = choose|i: int| 0 <= i < xf.len() && xf[i] == e;
                assert(x[at] == e);
                assert(starts_before(adapter, targets, x[at], x[x.len() - 1]));
                assert(x.contains(e));
                let bt = choose|i: int| 0 <= i < y.len() && y[i] == e;
                assert(yf[bt] == e);
            }
            if yf.contains(e) {
                let at = choose|i: int| 0 <= i < yf.len() && yf[i] == e;
                assert(y[at] == e);
                assert(starts_before(adapter, targets, y[at], y[y.len() - 1]));
                assert(y.contains(e));
                let bt = choose|i: int| 0 <= i < x.len() && x[i] == e;
                assert(xf[bt] == e);
            }
        }
        assert forall|k: int| 0 <= k < xf.len() implies xf[k] == x[k] by {}
        assert forall|k: int| 0 <= k < yf.len() implies yf[k] == y[k] by {}
        lemma_start_order_unique(adapter, targets, xf, yf);
        assert(x =~= xf.push(xl));
        assert(y =~= yf.push(yl));
    }
}

/// The span of some kernels is absent exactly where none of them has a time
/// range. Where it is there, its start is the smallest start and its end the
/// largest end among the kernels that have a time range.
pub proof fn lemma_time_span<A: EventAdapter + ?Sized>(adapter: &A, kernels: Seq<&ChromeTraceEvent>)
    ensures
        time_span(adapter, kernels) is None <==> forall|i: int|
            0 <= i < kernels.len() ==> adapter.time_range(#[trigger] kernels[i]) is None,
        time_span(adapter, kernels) is Some ==> {
            let span = time_span(adapter, kernels)->Some_0;
            &&& forall|i: int|
                0 <= i < kernels.len() && adapter.time_range(#[trigger] kernels[i]) is Some ==> {
                    let range = adapter.time_range(kernels[i])->Some_0;
                    span.0 <= range.0 && range.1 <= span.1
                }
            &&& exists|i: int|
                0 <= i < kernels.len() && adapter.time_range(#[trigger] kernels[i]) is Some
                    && adapter.time_range(kernels[i])->Some_0.0 == span.0
            &&& exists|i: int|
                0 <= i < kernels.len() && adapter.time_range(#[trigger] kernels[i]) is Some
                    && adapter.time_range(kernels[i])->Some_0.1 == span.1
        },
    decreases kernels.len(),
{
    if kernels.len() > 0 {
        let front = kernels.drop_last();
        let n = front.len() as int;
        lemma_time_span(adapter, front);
        assert forall|i: int| 0 <= i < n implies front[i] == kernels[i] by {}
        if time_span(adapter, kernels) is Some {
            let span = time_span(adapter, kernels)->Some_0;
            if time_span(adapter, front) is Some {
                let earlier = time_span(adapter, front)->Some_0;
                let a = choose|i: int|
                    0 <= i < n && adapter.time_range(#[trigger] front[i]) is Some
                        && adapter.time_range(front[i])->Some_0.0 == earlier.0;
                let b = choose|i: int|
                    0 <= i < n && adapter.time_range(#[trigger] front[i]) is Some
                        && adapter.time_range(front[i])->Some_0.1 == earlier.1;
                assert(adapter.time_range(kernels[a]) is Some);
                assert(adapter.time_range(kernels[b]) is Some);
                if adapter.time_range(kernels[n]) is Some {
                    assert(adapter.time_range(kernels[n]) is Some);
                }
            } else {
                assert(adapter.time_range(kernels[n]) == Some(span));
            }
            if forall|i: int|
                0 <= i < kernels.len() ==> adapter.time_range(#[trigger] kernels[i]) is None {
                assert(adapter.time_range(kernels[n]) is None);
                assert forall|i: int| 0 <= i < n implies adapter.time_range(
                    #[trigger] front[i],
                ) is None by {
                    assert(adapter.time_range(kernels[i]) is None);
                }
            }
        }
    }
}

/// A bucket holds the kernels that carry its identifier and no others: a
/// kernel with another identifier, or with none, is in no bucket but its own.
pub proof fn lemma_bucket_members<A: EventAdapter + ?Sized>(
    adapter: &A,
    kernels: Seq<&ChromeTraceEvent>,
    id: i32,
)
    ensures
        forall|k: int|
            0 <= k < bucket_of(adapter, kernels, id).len() ==> adapter.correlation_id(
                #[trigger] bucket_of(adapter, kernels, id)[k],
            ) == Some(id) && kernels.contains(bucket_of(adapter, kernels, id)[k]),
        forall|i: int|
            0 <= i < kernels.len() && adapter.correlation_id(#[trigger] kernels[i]) == Some(id)
                ==> bucket_of(adapter, kernels, id).contains(kernels[i]),
    decreases kernels.len(),
{
    if kernels.len() > 0 {
        let front = kernels.drop_last();
        let bucket = bucket_of(adapter, kernels, id);
        let earlier = bucket_of(adapter, front, id);
        lemma_bucket_members(adapter, front, id);
        assert forall|i: int| 0 <= i < front.len() implies front[i] == kernels[i] by {}
        assert forall|k: int| 0 <= k < bucket.len() implies adapter.correlation_id(
            #[trigger] bucket[k],
        ) == Some(id) && kernels.contains(bucket[k]) by {
            if k < earlier.len() {
                assert(bucket[k] == earlier[k]);
                assert(front.contains(earlier[k]));
                let at = choose|i: int| 0 <= i < front.len() && front[i] == earlier[k];
                assert(kernels[at] == bucket[k]);
            } else {
                assert(bucket[k] == kernels[kernels.len() - 1]);
            }
        }
        assert forall|i: int|
            0 <= i < kernels.len() && adapter.correlation_id(#[trigger] kernels[i]) == Some(
                id,
            ) implies bucket.contains(kernels[i]) by {
            if i < front.len() {
                assert(adapter.correlation_id(front[i]) == Some(id));
                assert(earlier.contains(front[i]));
                let at = choose|k: int| 0 <= k < earlier.len() && earlier[k] == front[i];
                assert(bucket[at] == kernels[i]);
            } else {
                assert(bucket[bucket.len() - 1] == kernels[i]);
            }
        }
    }
}

/// Whether some source with the identity `id` catches some target equal to
/// `target`.
pub open spec fn overlap_found<A: EventAdapter + ?Sized>(
    adapter: &A,
    sources: Seq<&ChromeTraceEvent>,
    targets: Seq<&ChromeTraceEvent>,
    id: EventId,
    target: &ChromeTraceEvent,
) -> bool {
    exists|j: int, i: int|
        0 <= j < sources.len() && 0 <= i < targets.len() && adapter.event_id(
            #[trigger] sources[j],
        ) == id && #[trigger] targets[i] == target && catches(adapter, sources[j], targets[i])
}

/// The targets reported for a source are the targets that it catches.
pub proof fn lemma_overlapping_targets<A: EventAdapter + ?Sized>(
    adapter: &A,
    source: &ChromeTraceEvent,
    targets: Seq<&ChromeTraceEvent>,
    target: &ChromeTraceEvent,
)
    ensures
        overlapping_targets(adapter, source, targets).contains(target) <==> exists|i: int|
            0 <= i < targets.len() && #[trigger] targets[i] == target && catches(
                adapter,
                source,
                targets[i],
            ),
{
    let order = start_order(adapter, targets);
    lemma_start_order_of(adapter, targets, targets.len());
    lemma_select_caught(adapter, source, targets, order, target);
    if overlapping_targets(adapter, source, targets).contains(target) {
        let k = choose|k: int|
            0 <= k < order.len() && targets[#[trigger] order[k]] == target && catches(
                adapter,
                source,
                targets[order[k]],
            );
        assert(order.contains(order[k]));
        assert(targets[order[k]] == target);
    }
    if exists|i: int|
        0 <= i < targets.len() && #[trigger] targets[i] == target && catches(
            adapter,
            source,
            targets[i],
        ) {
        let i = choose|i: int|
            0 <= i < targets.len() && #[trigger] targets[i] == target && catches(
                adapter,
                source,
                targets[i],
            );
        assert(order.contains(i));
        let k = choose|k: int| 0 <= k < order.len() && order[k] == i;
        assert(targets[order[k]] == target);
    }
}

/// Selecting from the positions `order` gives the targets at those positions
/// that the source catches.
pub proof fn lemma_select_caught<A: EventAdapter + ?Sized>(
    adapter: &A,
    source: &ChromeTraceEvent,
    targets: Seq<&ChromeTraceEvent>,
    order: Seq<int>,
    target: &ChromeTraceEvent,
)
    ensures
        select_caught(adapter, source, targets, order).contains(target) <==> exists|k: int|
            0 <= k < order.len() && targets[#[trigger] order[k]] == target && catches(
                adapter,
                source,
                targets[order[k]],
            ),
    decreases order.len(),
{
    if order.len() > 0 {
        let front = order.drop_last();
        let selected = select_caught(adapter, source, targets, order);
        let earlier = select_caught(adapter, source, targets, front);
        lemma_select_caught(adapter, source, targets, front, target);
        assert forall|k: int| 0 <= k < front.len() implies front[k] == order[k] by {}
        if selected.contains(target) {
            let at = choose|i: int| 0 <= i < selected.len() && selected[i] == target;
            if at < earlier.len() {
                assert(earlier[at] == target);
                assert(earlier.contains(target));
                let k = choose|k: int|
                    0 <= k < front.len() && targets[#[trigger] front[k]] == target && catches(
                        adapter,
                        source,
                        targets[front[k]],
                    );
                assert(targets[order[k]] == target);
            } else {
                assert(targets[order[order.len() - 1]] == target);
            }
        }
        if exists|k: int|
            0 <= k < order.len() && targets[#[trigger] order[k]] == target && catches(
                adapter,
                source,
                targets[order[k]],
            ) {
            let k = choose|k: int|
                0 <= k < order.len() && targets[#[trigger] order[k]] == target && catches(
                    adapter,
                    source,
                    targets[order[k]],
                );
            if k < front.len() {
                assert(targets[front[k]] == target);
                assert(earlier.contains(target));
                let at = choose|i: int| 0 <= i < earlier.len() && earlier[i] == target;
                assert(selected[at] == target);
            } else {
                assert(selected[selected.len() - 1] == target);
            }
        }
    }
}

/// A target is reported under an identity exactly where a source with that
/// identity catches it.
pub proof fn lemma_overlaps_found<A: EventAdapter + ?Sized>(
    adapter: &A,
    sources: Seq<&ChromeTraceEvent>,
    targets: Seq<&ChromeTraceEvent>,
    id: EventId,
    target: &ChromeTraceEvent,
)
    ensures
        overlaps_by_identity(adapter, sources, targets, id).contains(target) <==> overlap_found(
            adapter,
            sources,
            targets,
            id,
            target,
        ),
{
    broadcast use vstd::seq_lib::to_multiset_contains;

    let reported = overlaps_by_identity(adapter, sources, targets, id);
    let among = targets.to_multiset().count(target);
    let catching = catching_sources(adapter, sources, id, target);
    lemma_overlap_count(adapter, sources, targets, id, target);
    lemma_catching_some(adapter, sources, id, target);
    assert(reported.contains(target) <==> reported.to_multiset().count(target) > 0);
    assert(targets.contains(target) <==> among > 0);
    assert(among * catching > 0 <==> (among > 0 && catching > 0)) by (nonlinear_arith);
    if reported.contains(target) {
        let i = choose|i: int| 0 <= i < targets.len() && targets[i] == target;
        let j = choose|j: int|
            0 <= j < sources.len() && adapter.event_id(#[trigger] sources[j]) == id && catches(
                adapter,
                sources[j],
                target,
            );
        assert(adapter.event_id(sources[j]) == id && targets[i] == target && catches(
            adapter,
            sources[j],
            targets[i],
        ));
    }
    if overlap_found(adapter, sources, targets, id, target) {
        let (j, i) = choose|j: int, i: int|
            0 <= j < sources.len() && 0 <= i < targets.len() && adapter.event_id(
                #[trigger] sources[j],
            ) == id && #[trigger] targets[i] == target && catches(
                adapter,
                sources[j],
                targets[i],
            );
        assert(targets.contains(targets[i]));
        assert(catches(adapter, sources[j], target));
    }
}

/// Which overlaps are found does not depend on the order of the events:
/// sources and targets given in another order lead to the same targets under
/// every identity.
pub proof fn lemma_overlaps_permuted<A: EventAdapter + ?Sized>(
    adapter: &A,
    sources: Seq<&ChromeTraceEvent>,
    targets: Seq<&ChromeTraceEvent>,
    permuted_sources: Seq<&ChromeTraceEvent>,
    permuted_targets: Seq<&ChromeTraceEvent>,
    id: EventId,
    target: &ChromeTraceEvent,
)
    requires
        sources.to_multiset() == permuted_sources.to_multiset(),
        targets.to_multiset() == permuted_targets.to_multiset(),
    ensures
        overlaps_by_identity(adapter, sources, targets, id).contains(target)
            <==> overlaps_by_identity(adapter, permuted_sources, permuted_targets, id).contains(
            target,
        ),
{
    lemma_overlaps_found(adapter, sources, targets, id, target);
    lemma_overlaps_found(adapter, permuted_sources, permuted_targets, id, target);
    if overlap_found(adapter, sources, targets, id, target) {
        lemma_found_in_permutation(
            adapter,
            sources,
            targets,
            permuted_sources,
            permuted_targets,
            id,
            target,
        );
    }
    if overlap_found(adapter, permuted_sources, permuted_targets, id, target) {
        lemma_found_in_permutation(
            adapter,
            permuted_sources,
            permuted_targets,
            sources,
            targets,
            id,
            target,
        );
    }
}

/// Which identities have an entry in the overlap map does not depend on the
/// order of the events either.
pub proof fn lemma_overlap_entries_permuted<A: EventAdapter + ?Sized>(
    adapter: &A,
    sources: Seq<&ChromeTraceEvent>,
    targets: Seq<&ChromeTraceEvent>,
    permuted_sources: Seq<&ChromeTraceEvent>,
    permuted_targets: Seq<&ChromeTraceEvent>,
    id: EventId,
)
    requires
        sources.to_multiset() == permuted_sources.to_multiset(),
        targets.to_multiset() == permuted_targets.to_multiset(),
    ensures
        overlaps_by_identity(adapter, sources, targets, id).len() > 0 <==> overlaps_by_identity(
            adapter,
            permuted_sources,
            permuted_targets,
            id,
        ).len() > 0,
{
    let given = overlaps_by_identity(adapter, sources, targets, id);
    let permuted = overlaps_by_identity(adapter, permuted_sources, permuted_targets, id);
    if given.len() > 0 {
        assert(given.contains(given[0]));
        lemma_overlaps_permuted(
            adapter,
            sources,
            targets,
            permuted_sources,
            permuted_targets,
            id,
            given[0],
        );
        assert(permuted.contains(given[0]));
    }
    if permuted.len() > 0 {
        assert(permuted.contains(permuted[0]));
        lemma_overlaps_permuted(
            adapter,
            sources,
            targets,
            permuted_sources,
            permuted_targets,
            id,
            permuted[0],
        );
        assert(given.contains(permuted[0]));
    }
}

proof fn lemma_found_in_permutation<A: EventAdapter + ?Sized>(
    adapter: &A,
    sources: Seq<&ChromeTraceEvent>,
    targets: Seq<&ChromeTraceEvent>,
    permuted_sources: Seq<&ChromeTraceEvent>,
    permuted_targets: Seq<&ChromeTraceEvent>,
    id: EventId,
    target: &ChromeTraceEvent,
)
    requires
        sources.to_multiset() == permuted_sources.to_multiset(),
        targets.to_multiset() == permuted_targets.to_multiset(),
        overlap_found(adapter, sources, targets, id, target),
    ensures
        overlap_found(adapter, permuted_sources, permuted_targets, id, target),
{
    broadcast use vstd::seq_lib::to_multiset_contains;

    let (j, i) = choose|j: int, i: int|
        0 <= j < sources.len() && 0 <= i < targets.len() && adapter.event_id(
            #[trigger] sources[j],
        ) == id && #[trigger] targets[i] == target && catches(adapter, sources[j], targets[i]);
    assert(sources.contains(sources[j]));
    assert(sources.to_multiset().count(sources[j]) > 0);
    assert(permuted_sources.contains(sources[j]));
    assert(targets.contains(targets[i]));
    assert(targets.to_multiset().count(targets[i]) > 0);
    assert(permuted_targets.contains(targets[i]));
    let pj = choose|k: int| 0 <= k < permuted_sources.len() && permuted_sources[k] == sources[j];
    let pi = choose|k: int| 0 <= k < permuted_targets.len() && permuted_targets[k] == targets[i];
    assert(adapter.event_id(permuted_sources[pj]) == id && permuted_targets[pi] == target
        && catches(adapter, permuted_sources[pj], permuted_targets[pi]));
}

/// Putting one more position in its place adds the target at that position
/// to what is selected, if the source catches it, and changes nothing else.
proof fn lemma_select_placed<A: EventAdapter + ?Sized>(
    adapter: &A,
    source: &ChromeTraceEvent,
    targets: Seq<&ChromeTraceEvent>,
    order: Seq<int>,
    t: int,
)
    ensures
        select_caught(adapter, source, targets, place(adapter, targets, order, t)).to_multiset()
            == (if catches(adapter, source, targets[t]) {
            select_caught(adapter, source, targets, order).to_multiset().insert(targets[t])
        } else {
            select_caught(adapter, source, targets, order).to_multiset()
        }),
    decreases order.len(),
{
    broadcast use vstd::multiset::group_multiset_axioms;

    let placed = place(adapter, targets, order, t);
    if order.len() > 0 && starts_before(adapter, targets, t, order.last()) {
        let front = order.drop_last();
        let inner = place(adapter, targets, front, t);
        lemma_select_placed(adapter, source, targets, front, t);
        assert(placed.drop_last() =~= inner);
        assert(placed.last() == order.last());
        let before_front = select_caught(adapter, source, targets, front);
        let before_inner = select_caught(adapter, source, targets, inner);
        before_front.to_multiset_ensures();
        before_inner.to_multiset_ensures();
        assert(select_caught(adapter, source, targets, placed).to_multiset() =~= (if catches(
            adapter,
            source,
            targets[t],
        ) {
            select_caught(adapter, source, targets, order).to_multiset().insert(targets[t])
        } else {
            select_caught(adapter, source, targets, order).to_multiset()
        }));
    } else {
        assert(placed.drop_last() =~= order);
        select_caught(adapter, source, targets, order).to_multiset_ensures();
    }
}

/// A target is reported for a source as often as it stands among the
/// targets, if the source catches it, and not at all if it does not.
pub proof fn lemma_overlapping_count<A: EventAdapter + ?Sized>(
    adapter: &A,
    source: &ChromeTraceEvent,
    targets: Seq<&ChromeTraceEvent>,
    target: &ChromeTraceEvent,
)
    ensures
        overlapping_targets(adapter, source, targets).to_multiset().count(target) == (if catches(
            adapter,
            source,
            target,
        ) {
            targets.to_multiset().count(target)
        } else {
            0
        }),
{
    lemma_selected_count(adapter, source, targets, targets.len(), target);
    assert(targets.take(targets.len() as int) =~= targets);
}

proof fn lemma_selected_count<A: EventAdapter + ?Sized>(
    adapter: &A,
    source: &ChromeTraceEvent,
    targets: Seq<&ChromeTraceEvent>,
    n: nat,
    target: &ChromeTraceEvent,
)
    requires
        n <= targets.len(),
    ensures
        select_caught(
            adapter,
            source,
            targets,
            start_order_of(adapter, targets, n),
        ).to_multiset().count(target) == (if catches(adapter, source, target) {
            targets.take(n as int).to_multiset().count(target)
        } else {
            0
        }),
    decreases n,
{
    broadcast use vstd::multiset::group_multiset_axioms;
    broadcast use vstd::multiset::group_multiset_properties;

    if n == 0 {
        let none = Seq::<&ChromeTraceEvent>::empty();
        assert(targets.take(0) =~= none);
        assert(select_caught(adapter, source, targets, start_order_of(adapter, targets, 0))
            =~= none);
        none.to_multiset_ensures();
        assert(none.to_multiset().count(target) <= none.to_multiset().len());
    } else {
        let earlier = start_order_of(adapter, targets, (n - 1) as nat);
        let newest = targets[n - 1];
        lemma_selected_count(adapter, source, targets, (n - 1) as nat, target);
        let shorter = targets.take(n - 1);
        assert(targets.take(n as int) =~= shorter.push(newest));
        shorter.to_multiset_ensures();
        assert(targets.take(n as int).to_multiset() =~= shorter.to_multiset().insert(newest));
        let selected = select_caught(adapter, source, targets, earlier).to_multiset();
        if newest == target {
            assert(catches(adapter, source, newest) == catches(adapter, source, target));
            assert(shorter.to_multiset().insert(newest).count(target) == shorter.to_multiset().count(
                target,
            ) + 1);
            assert(selected.insert(newest).count(target) == selected.count(target) + 1);
        } else {
            assert(shorter.to_multiset().insert(newest).count(target) == shorter.to_multiset().count(
                target,
            ));
            assert(selected.insert(newest).count(target) == selected.count(target));
        }
        if adapter.time_range(newest) is Some {
            lemma_select_placed(adapter, source, targets, earlier, n - 1);
        } else {
            assert(!catches(adapter, source, newest));
        }
    }
}

/// Some source with the identity `id` catches `target` exactly where the
/// number of such sources is not zero.
pub proof fn lemma_catching_some<A: EventAdapter + ?Sized>(
    adapter: &A,
    sources: Seq<&ChromeTraceEvent>,
    id: EventId,
    target: &ChromeTraceEvent,
)
    ensures
        catching_sources(adapter, sources, id, target) > 0 <==> exists|j: int|
            0 <= j < sources.len() && adapter.event_id(#[trigger] sources[j]) == id && catches(
                adapter,
                sources[j],
                target,
            ),
    decreases sources.len(),
{
    if sources.len() > 0 {
        let front = sources.drop_last();
        lemma_catching_some(adapter, front, id, target);
        assert forall|j: int| 0 <= j < front.len() implies front[j] == sources[j] by {}
        if catching_sources(adapter, sources, id, target) > 0 {
            if catching_sources(adapter, front, id, target) > 0 {
                let j = choose|j: int|
                    0 <= j < front.len() && adapter.event_id(#[trigger] front[j]) == id
                        && catches(adapter, front[j], target);
                assert(adapter.event_id(sources[j]) == id && catches(
                    adapter,
                    sources[j],
                    target,
                ));
            } else {
                assert(adapter.event_id(sources[sources.len() - 1]) == id && catches(
                    adapter,
                    sources[sources.len() - 1],
                    target,
                ));
            }
        }
        if exists|j: int|
            0 <= j < sources.len() && adapter.event_id(#[trigger] sources[j]) == id && catches(
                adapter,
                sources[j],
                target,
            ) {
            let j = choose|j: int|
                0 <= j < sources.len() && adapter.event_id(#[trigger] sources[j]) == id
                    && catches(adapter, sources[j], target);
            if j < front.len() {
                assert(adapter.event_id(front[j]) == id && catches(adapter, front[j], target));
            }
        }
    }
}

/// Among the copies of one target, that target stands as often as there are
/// copies, and no other target stands there.
pub proof fn lemma_copies_count(target: &ChromeTraceEvent, count: nat, other: &ChromeTraceEvent)
    ensures
        copies(target, count).to_multiset().count(other) == (if target == other {
            count
        } else {
            0
        }),
    decreases count,
{
    broadcast use vstd::multiset::group_multiset_axioms;
    broadcast use vstd::multiset::group_multiset_properties;

    if count == 0 {
        let none = copies(target, 0);
        none.to_multiset_ensures();
        assert(none.to_multiset().count(other) <= none.to_multiset().len());
    } else {
        let fewer = copies(target, (count - 1) as nat);
        lemma_copies_count(target, (count - 1) as nat, other);
        assert(copies(target, count) =~= fewer.push(target));
        fewer.to_multiset_ensures();
        assert(fewer.push(target).to_multiset() =~= fewer.to_multiset().insert(target));
        if target == other {
            assert(fewer.to_multiset().insert(target).count(other) == fewer.to_multiset().count(
                other,
            ) + 1);
        } else {
            assert(fewer.to_multiset().insert(target).count(other) == fewer.to_multiset().count(
                other,
            ));
        }
    }
}

/// Putting one more position in its place adds the copies of the target at
/// that position to what is gathered, and changes nothing else.
proof fn lemma_gather_placed<A: EventAdapter + ?Sized>(
    adapter: &A,
    sources: Seq<&ChromeTraceEvent>,
    targets: Seq<&ChromeTraceEvent>,
    id: EventId,
    order: Seq<int>,
    t: int,
)
    ensures
        gather_caught(
            adapter,
            sources,
            targets,
            id,
            place(adapter, targets, order, t),
        ).to_multiset() == gather_caught(adapter, sources, targets, id, order).to_multiset().add(
            copies(targets[t], catching_sources(adapter, sources, id, targets[t])).to_multiset(),
        ),
    decreases order.len(),
{
    broadcast use vstd::multiset::group_multiset_axioms;

    let placed = place(adapter, targets, order, t);
    let added = copies(targets[t], catching_sources(adapter, sources, id, targets[t]));
    let before = gather_caught(adapter, sources, targets, id, order);
    if order.len() > 0 && starts_before(adapter, targets, t, order.last()) {
        let front = order.drop_last();
        let inner = place(adapter, targets, front, t);
        let last = targets[order.last()];
        let last_copies = copies(last, catching_sources(adapter, sources, id, last));
        lemma_gather_placed(adapter, sources, targets, id, front, t);
        assert(placed.drop_last() =~= inner);
        assert(placed.last() == order.last());
        let gathered_front = gather_caught(adapter, sources, targets, id, front);
        let gathered_inner = gather_caught(adapter, sources, targets, id, inner);
        vstd::seq_lib::lemma_multiset_commutative(gathered_inner, last_copies);
        vstd::seq_lib::lemma_multiset_commutative(gathered_front, last_copies);
        assert(gather_caught(adapter, sources, targets, id, placed).to_multiset()
            =~= before.to_multiset().add(added.to_multiset()));
    } else {
        assert(placed.drop_last() =~= order);
        assert(placed.last() == t);
        vstd::seq_lib::lemma_multiset_commutative(before, added);
    }
}

proof fn lemma_gathered_count<A: EventAdapter + ?Sized>(
    adapter: &A,
    sources: Seq<&ChromeTraceEvent>,
    targets: Seq<&ChromeTraceEvent>,
    id: EventId,
    n: nat,
    target: &ChromeTraceEvent,
)
    requires
        n <= targets.len(),
    ensures
        gather_caught(
            adapter,
            sources,
            targets,
            id,
            start_order_of(adapter, targets, n),
        ).to_multiset().count(target) == targets.take(n as int).to_multiset().count(target)
            * catching_sources(adapter, sources, id, target),
    decreases n,
{
    broadcast use vstd::multiset::group_multiset_axioms;
    broadcast use vstd::multiset::group_multiset_properties;

    let catching = catching_sources(adapter, sources, id, target);
    if n == 0 {
        let none = Seq::<&ChromeTraceEvent>::empty();
        assert(targets.take(0) =~= none);
        assert(gather_caught(adapter, sources, targets, id, start_order_of(adapter, targets, 0))
            =~= none);
        none.to_multiset_ensures();
        assert(none.to_multiset().count(target) <= none.to_multiset().len());
        assert(0 * catching == 0);
    } else {
        let earlier = start_order_of(adapter, targets, (n - 1) as nat);
        let newest = targets[n - 1];
        lemma_gathered_count(adapter, sources, targets, id, (n - 1) as nat, target);
        let shorter = targets.take(n - 1);
        let among = shorter.to_multiset().count(target);
        assert(targets.take(n as int) =~= shorter.push(newest));
        shorter.to_multiset_ensures();
        assert(targets.take(n as int).to_multiset() =~= shorter.to_multiset().insert(newest));
        if newest == target {
            assert(shorter.to_multiset().insert(newest).count(target) == among + 1);
            assert((among + 1) * catching == among * catching + catching) by (nonlinear_arith);
        } else {
            assert(shorter.to_multiset().insert(newest).count(target) == among);
        }
        if adapter.time_range(newest) is Some {
            lemma_gather_placed(adapter, sources, targets, id, earlier, n - 1);
            lemma_copies_count(
                newest,
                catching_sources(adapter, sources, id, newest),
                target,
            );
        } else {
            if newest == target {
                lemma_catching_some(adapter, sources, id, target);
                assert(catching == 0);
            }
        }
    }
}

/// A target is reported under an identity once for each time it stands among
/// the targets and each source with that identity that catches it.
pub proof fn lemma_overlap_count<A: EventAdapter + ?Sized>(
    adapter: &A,
    sources: Seq<&ChromeTraceEvent>,
    targets: Seq<&ChromeTraceEvent>,
    id: EventId,
    target: &ChromeTraceEvent,
)
    ensures
        overlaps_by_identity(adapter, sources, targets, id).to_multiset().count(target)
            == targets.to_multiset().count(target) * catching_sources(
            adapter,
            sources,
            id,
            target,
        ),
{
    lemma_gathered_count(adapter, sources, targets, id, targets.len(), target);
    assert(targets.take(targets.len() as int) =~= targets);
}

/// How many sources with a given identity catch a target does not depend
/// on the order of the sources.
pub proof fn lemma_catching_sources_permuted<A: EventAdapter + ?Sized>(
    adapter: &A,
    sources: Seq<&ChromeTraceEvent>,
    permuted: Seq<&ChromeTraceEvent>,
    id: EventId,
    target: &ChromeTraceEvent,
)
    requires
        sources.to_multiset() == permuted.to_multiset(),
    ensures
        catching_sources(adapter, sources, id, target) == catching_sources(
            adapter,
            permuted,
            id,
            target,
        ),
    decreases sources.len(),
{
    broadcast use vstd::multiset::group_multiset_axioms;

    sources.to_multiset_ensures();
    permuted.to_multiset_ensures();
    if sources.len() == 0 {
        assert(permuted.len() == 0);
    } else {
        let last = sources.last();
        let front = sources.drop_last();
        assert(sources[sources.len() - 1] == last);
        assert(sources.contains(last));
        assert(sources.to_multiset().count(last) > 0);
        assert(permuted.to_multiset().count(last) > 0);
        assert(permuted.contains(last));
        let at = choose|i: int| 0 <= i < permuted.len() && permuted[i] == last;
        let rest = permuted.remove(at);
        assert(front =~= sources.remove(sources.len() - 1));
        assert(sources.remove(sources.len() - 1).to_multiset() =~= sources.to_multiset().remove(
            last,
        ));
        assert(permuted.remove(at).to_multiset() =~= permuted.to_multiset().remove(last));
        assert(front.to_multiset() =~= rest.to_multiset());
        lemma_catching_sources_permuted(adapter, front, rest, id, target);
        lemma_catching_sources_removed(adapter, permuted, at, id, target);
    }
}

/// Taking one source out takes it out of the number of catching sources, if
/// it was one of them.
proof fn lemma_catching_sources_removed<A: EventAdapter + ?Sized>(
    adapter: &A,
    sources: Seq<&ChromeTraceEvent>,
    at: int,
    id: EventId,
    target: &ChromeTraceEvent,
)
    requires
        0 <= at < sources.len(),
    ensures
        catching_sources(adapter, sources, id, target) == catching_sources(
            adapter,
            sources.remove(at),
            id,
            target,
        ) + (if adapter.event_id(sources[at]) == id && catches(adapter, sources[at], target) {
            1nat
        } else {
            0nat
        }),
    decreases sources.len(),
{
    let front = sources.drop_last();
    if at == sources.len() - 1 {
        assert(sources.remove(at) =~= front);
    } else {
        lemma_catching_sources_removed(adapter, front, at, id, target);
        assert(sources.remove(at).drop_last() =~= front.remove(at));
        assert(sources.remove(at).last() == sources.last());
        assert(front[at] == sources[at]);
    }
}

/// Events given in another order lead to the same overlaps: under every
/// identity the same targets are reported, each as often as before. Only the
/// order in which they are reported may differ.
pub proof fn lemma_overlaps_permuted_alike<A: EventAdapter + ?Sized>(
    adapter: &A,
    sources: Seq<&ChromeTraceEvent>,
    targets: Seq<&ChromeTraceEvent>,
    permuted_sources: Seq<&ChromeTraceEvent>,
    permuted_targets: Seq<&ChromeTraceEvent>,
    id: EventId,
)
    requires
        sources.to_multiset() == permuted_sources.to_multiset(),
        targets.to_multiset() == permuted_targets.to_multiset(),
    ensures
        overlaps_by_identity(adapter, sources, targets, id).to_multiset() == overlaps_by_identity(
            adapter,
            permuted_sources,
            permuted_targets,
            id,
        ).to_multiset(),
{
    broadcast use vstd::multiset::group_multiset_axioms;

    let given = overlaps_by_identity(adapter, sources, targets, id).to_multiset();
    let permuted = overlaps_by_identity(adapter, permuted_sources, permuted_targets, id).to_multiset();
    assert forall|target: &ChromeTraceEvent| given.count(target) == permuted.count(target) by {
        lemma_overlap_count(adapter, sources, targets, id, target);
        lemma_overlap_count(adapter, permuted_sources, permuted_targets, id, target);
        lemma_catching_sources_permuted(adapter, sources, permuted_sources, id, target);
    }
    assert(given =~= permuted);
}

/// Every event of `list` has a time range, and none starts before one that
/// stands before it.
pub open spec fn by_start<A: EventAdapter + ?Sized>(
    adapter: &A,
    list: Seq<&ChromeTraceEvent>,
) -> bool {
    &&& forall|a: int| 0 <= a < list.len() ==> adapter.time_range(#[trigger] list[a]) is Some
    &&& forall|a: int, b: int|
        0 <= a < b < list.len() ==> adapter.time_range(#[trigger] list[a])->Some_0.0
            <= adapter.time_range(#[trigger] list[b])->Some_0.0
}

/// The targets reported under an identity stand in the order of their
/// starts, whatever the order in which the events were given.
pub proof fn lemma_overlaps_by_start<A: EventAdapter + ?Sized>(
    adapter: &A,
    sources: Seq<&ChromeTraceEvent>,
    targets: Seq<&ChromeTraceEvent>,
    id: EventId,
)
    ensures
        by_start(adapter, overlaps_by_identity(adapter, sources, targets, id)),
{
    lemma_start_order_of(adapter, targets, targets.len());
    lemma_gathered_by_start(adapter, sources, targets, id, start_order(adapter, targets));
}

proof fn lemma_gathered_by_start<A: EventAdapter + ?Sized>(
    adapter: &A,
    sources: Seq<&ChromeTraceEvent>,
    targets: Seq<&ChromeTraceEvent>,
    id: EventId,
    order: Seq<int>,
)
    requires
        in_start_order(adapter, targets, order),
    ensures
        by_start(adapter, gather_caught(adapter, sources, targets, id, order)),
        order.len() > 0 ==> forall|a: int|
            0 <= a < gather_caught(adapter, sources, targets, id, order).len()
                ==> adapter.time_range(
                #[trigger] gather_caught(adapter, sources, targets, id, order)[a],
            )->Some_0.0 <= adapter.time_range(targets[order.last()])->Some_0.0,
    decreases order.len(),
{
    if order.len() > 0 {
        let front = order.drop_last();
        let last = targets[order.last()];
        let earlier = gather_caught(adapter, sources, targets, id, front);
        let all = gather_caught(adapter, sources, targets, id, order);
        assert forall|k: int| 0 <= k < front.len() implies front[k] == order[k] by {}
        assert(order[order.len() - 1] == order.last());
        lemma_gathered_by_start(adapter, sources, targets, id, front);
        if front.len() > 0 {
            assert(front.last() == order[front.len() - 1]);
            assert(starts_before(
                adapter,
                targets,
                order[front.len() - 1],
                order[order.len() - 1],
            ));
        }
        assert forall|a: int| 0 <= a < all.len() implies adapter.time_range(#[trigger] all[a])
            is Some && adapter.time_range(all[a])->Some_0.0 <= adapter.time_range(
            last,
        )->Some_0.0 by {
            if a < earlier.len() {
                assert(all[a] == earlier[a]);
            } else {
                assert(all[a] == last);
            }
        }
        assert forall|a: int, b: int| 0 <= a < b < all.len() implies adapter.time_range(
            #[trigger] all[a],
        )->Some_0.0 <= adapter.time_range(#[trigger] all[b])->Some_0.0 by {
            if b < earlier.len() {
                assert(all[a] == earlier[a]);
                assert(all[b] == earlier[b]);
            } else {
                assert(all[b] == last);
            }
        }
    }
}

/// Where no other source shares the identity of a source, the targets
/// reported under that identity are those that overlap the source.
pub proof fn lemma_overlaps_of_one_source<A: EventAdapter + ?Sized>(
    adapter: &A,
    sources: Seq<&ChromeTraceEvent>,
    targets: Seq<&ChromeTraceEvent>,
    j: int,
)
    requires
        0 <= j < sources.len(),
        forall|i: int|
            0 <= i < sources.len() && i != j ==> adapter.event_id(#[trigger] sources[i])
                != adapter.event_id(sources[j]),
    ensures
        overlaps_by_identity(adapter, sources, targets, adapter.event_id(sources[j]))
            == overlapping_targets(adapter, sources[j], targets),
{
    lemma_gather_one(adapter, sources, targets, j, start_order(adapter, targets));
}

proof fn lemma_gather_one<A: EventAdapter + ?Sized>(
    adapter: &A,
    sources: Seq<&ChromeTraceEvent>,
    targets: Seq<&ChromeTraceEvent>,
    j: int,
    order: Seq<int>,
)
    requires
        0 <= j < sources.len(),
        forall|i: int|
            0 <= i < sources.len() && i != j ==> adapter.event_id(#[trigger] sources[i])
                != adapter.event_id(sources[j]),
    ensures
        gather_caught(adapter, sources, targets, adapter.event_id(sources[j]), order)
            == select_caught(adapter, sources[j], targets, order),
    decreases order.len(),
{
    if order.len() > 0 {
        let id = adapter.event_id(sources[j]);
        let target = targets[order.last()];
        let earlier = gather_caught(adapter, sources, targets, id, order.drop_last());
        lemma_gather_one(adapter, sources, targets, j, order.drop_last());
        lemma_catching_one(adapter, sources, j, target);
        if catches(adapter, sources[j], target) {
            assert(earlier + copies(target, 1) =~= earlier.push(target));
        } else {
            assert(earlier + copies(target, 0) =~= earlier);
        }
    }
}

/// A source that shares its identity with no other is the one source of
/// that identity that can catch a target.
proof fn lemma_catching_one<A: EventAdapter + ?Sized>(
    adapter: &A,
    sources: Seq<&ChromeTraceEvent>,
    j: int,
    target: &ChromeTraceEvent,
)
    requires
        0 <= j < sources.len(),
        forall|i: int|
            0 <= i < sources.len() && i != j ==> adapter.event_id(#[trigger] sources[i])
                != adapter.event_id(sources[j]),
    ensures
        catching_sources(adapter, sources, adapter.event_id(sources[j]), target) == (if catches(
            adapter,
            sources[j],
            target,
        ) {
            1nat
        } else {
            0nat
        }),
    decreases sources.len(),
{
    let id = adapter.event_id(sources[j]);
    let front = sources.drop_last();
    assert forall|i: int| 0 <= i < front.len() implies front[i] == sources[i] by {}
    if j == sources.len() - 1 {
        lemma_catching_some(adapter, front, id, target);
        if catching_sources(adapter, front, id, target) > 0 {
            let i = choose|i: int|
                0 <= i < front.len() && adapter.event_id(#[trigger] front[i]) == id && catches(
                    adapter,
                    front[i],
                    target,
                );
            assert(adapter.event_id(sources[i]) != id);
        }
    } else {
        assert(adapter.event_id(sources[sources.len() - 1]) != id);
        lemma_catching_one(adapter, front, j, target);
    }
}

/// Under an identity that no source carries nothing is reported.
pub proof fn lemma_no_overlaps_without_source<A: EventAdapter + ?Sized>(
    adapter: &A,
    sources: Seq<&ChromeTraceEvent>,
    targets: Seq<&ChromeTraceEvent>,
    id: EventId,
)
    requires
        forall|i: int| 0 <= i < sources.len() ==> adapter.event_id(#[trigger] sources[i]) != id,
    ensures
        overlaps_by_identity(adapter, sources, targets, id) == Seq::<&ChromeTraceEvent>::empty(),
{
    lemma_gather_none(adapter, sources, targets, id, start_order(adapter, targets));
}

proof fn lemma_gather_none<A: EventAdapter + ?Sized>(
    adapter: &A,
    sources: Seq<&ChromeTraceEvent>,
    targets: Seq<&ChromeTraceEvent>,
    id: EventId,
    order: Seq<int>,
)
    requires
        forall|i: int| 0 <= i < sources.len() ==> adapter.event_id(#[trigger] sources[i]) != id,
    ensures
        gather_caught(adapter, sources, targets, id, order) == Seq::<&ChromeTraceEvent>::empty(),
    decreases order.len(),
{
    if order.len() > 0 {
        let target = targets[order.last()];
        lemma_gather_none(adapter, sources, targets, id, order.drop_last());
        lemma_catching_some(adapter, sources, id, target);
        assert(catching_sources(adapter, sources, id, target) == 0);
        assert(Seq::<&ChromeTraceEvent>::empty() + copies(target, 0) =~= Seq::<
            &ChromeTraceEvent,
        >::empty());
    }
}

/// The first source of an identity carries that identity, and no source
/// before it does; where there is none, no source carries the identity.
pub proof fn lemma_first_position<A: EventAdapter + ?Sized>(
    adapter: &A,
    sources: Seq<&ChromeTraceEvent>,
    id: EventId,
)
    ensures
        match first_position(adapter, sources, id) {
            Some(first) => {
                &&& 0 <= first < sources.len()
                &&& adapter.event_id(sources[first]) == id
                &&& forall|i: int| 0 <= i < first ==> adapter.event_id(#[trigger] sources[i]) != id
            },
            None => forall|i: int|
                0 <= i < sources.len() ==> adapter.event_id(#[trigger] sources[i]) != id,
        },
    decreases sources.len(),
{
    if sources.len() > 0 {
        let front = sources.drop_last();
        lemma_first_position(adapter, front, id);
        assert forall|i: int| 0 <= i < front.len() implies front[i] == sources[i] by {}
    }
}

/// The events picked for a device belong to that device.
pub proof fn lemma_on_device(events: Seq<ChromeTraceEvent>, device: i64)
    ensures
        forall|k: int|
            0 <= k < on_device(events, device).len() ==> device_of(
                #[trigger] on_device(events, device)[k],
            ) == Some(device),
    decreases events.len(),
{
    if events.len() > 0 {
        lemma_on_device(events.drop_last(), device);
    }
}

/// The annotations picked for a device belong to that device.
pub proof fn lemma_annotations_on(
    events: Seq<ChromeTraceEvent>,
    options: &ConversionOptions,
    device: i64,
)
    ensures
        forall|k: int|
            0 <= k < annotations_on(events, options, device).len() ==> device_of(
                #[trigger] annotations_on(events, options, device)[k],
            ) == Some(device),
    decreases events.len(),
{
    if events.len() > 0 {
        lemma_annotations_on(events.drop_last(), options, device);
    }
}

/// The kernels launched by some API calls are among the kernels given.
pub proof fn lemma_kernels_launched<A: EventAdapter + ?Sized>(
    adapter: &A,
    api_calls: Seq<&ChromeTraceEvent>,
    kernels: Seq<&ChromeTraceEvent>,
)
    ensures
        forall|k: int|
            0 <= k < kernels_launched(adapter, api_calls, kernels).len() ==> kernels.contains(
                #[trigger] kernels_launched(adapter, api_calls, kernels)[k],
            ),
    decreases api_calls.len(),
{
    if api_calls.len() > 0 {
        let earlier = kernels_launched(adapter, api_calls.drop_last(), kernels);
        lemma_kernels_launched(adapter, api_calls.drop_last(), kernels);
        match adapter.correlation_id(api_calls.last()) {
            Some(id) => {
                let bucket = bucket_of(adapter, kernels, id);
                lemma_bucket_members(adapter, kernels, id);
                let all = kernels_launched(adapter, api_calls, kernels);
                assert forall|k: int| 0 <= k < all.len() implies kernels.contains(
                    #[trigger] all[k],
                ) by {
                    if k < earlier.len() {
                        assert(all[k] == earlier[k]);
                    } else {
                        assert(all[k] == bucket[k - earlier.len()]);
                    }
                }
            },
            None => {},
        }
    }
}

/// Whether a link joins an annotation and a kernel of the device `device`.
pub open spec fn link_on_device(link: KernelLink, device: i64) -> bool {
    device_of(link.annotation) == Some(device) && device_of(link.landing) == Some(device)
}

/// The links made on a device join annotations and kernels of that device.
pub proof fn lemma_device_links<A: EventAdapter + ?Sized>(
    adapter: &A,
    annotations: Seq<&ChromeTraceEvent>,
    api_calls: Seq<&ChromeTraceEvent>,
    kernels: Seq<&ChromeTraceEvent>,
    n: nat,
    device: i64,
)
    requires
        n <= annotations.len(),
        forall|k: int| 0 <= k < annotations.len() ==> device_of(#[trigger] annotations[k]) == Some(device),
        forall|k: int| 0 <= k < kernels.len() ==> device_of(#[trigger] kernels[k]) == Some(device),
    ensures
        forall|k: int|
            0 <= k < device_links(adapter, annotations, api_calls, kernels, n).len()
                ==> link_on_device(
                #[trigger] device_links(adapter, annotations, api_calls, kernels, n)[k],
                device,
            ),
    decreases n,
{
    if n > 0 {
        lemma_device_links(adapter, annotations, api_calls, kernels, (n - 1) as nat, device);
        let annotation = annotations[n - 1];
        let earlier = device_links(adapter, annotations, api_calls, kernels, (n - 1) as nat);
        let all = device_links(adapter, annotations, api_calls, kernels, n);
        assert forall|k: int| 0 <= k < earlier.len() && k < all.len() implies all[k]
            == earlier[k] by {}
        match link_of(adapter, annotations, api_calls, kernels, annotation) {
            Some(link) => {
                assert(all == earlier.push(link));
                let overlapping = overlaps_by_identity(
                    adapter,
                    annotations,
                    api_calls,
                    adapter.event_id(annotation),
                );
                let launched = kernels_launched(adapter, overlapping, kernels);
                lemma_kernels_launched(adapter, overlapping, kernels);
                assert(kernels.contains(launched[0]));
                let at = choose|i: int| 0 <= i < kernels.len() && kernels[i] == launched[0];
                assert(device_of(kernels[at]) == Some(device));
                assert(device_of(annotations[n - 1]) == Some(device));
                assert(link_on_device(link, device));
                assert forall|k: int| 0 <= k < all.len() implies link_on_device(
                    #[trigger] all[k],
                    device,
                ) by {
                    if k < earlier.len() {
                        assert(link_on_device(earlier[k], device));
                    }
                }
            },
            None => {},
        }
    }
}

/// Only events of one device are linked: the annotation of every link and
/// the kernel on which its arrow lands belong to the same device.
pub proof fn lemma_links_stay_on_one_device(
    nvtx_events: Seq<ChromeTraceEvent>,
    cuda_api_events: Seq<ChromeTraceEvent>,
    kernel_events: Seq<ChromeTraceEvent>,
    options: &ConversionOptions,
)
    ensures
        forall|k: int|
            0 <= k < planned_links(nvtx_events, cuda_api_events, kernel_events, options).len() ==> {
                let link = #[trigger] planned_links(
                    nvtx_events,
                    cuda_api_events,
                    kernel_events,
                    options,
                )[k];
                device_of(link.annotation) is Some && device_of(link.annotation) == device_of(
                    link.landing,
                )
            },
{
    lemma_links_of_devices(
        nvtx_events,
        cuda_api_events,
        kernel_events,
        options,
        annotation_devices(nvtx_events, options),
    );
}

proof fn lemma_links_of_devices(
    nvtx_events: Seq<ChromeTraceEvent>,
    cuda_api_events: Seq<ChromeTraceEvent>,
    kernel_events: Seq<ChromeTraceEvent>,
    options: &ConversionOptions,
    devices: Seq<i64>,
)
    ensures
        forall|k: int|
            0 <= k < links_of_devices(
                &NsysEventAdapter,
                nvtx_events,
                cuda_api_events,
                kernel_events,
                options,
                devices,
            ).len() ==> {
                let link = #[trigger] links_of_devices(
                    &NsysEventAdapter,
                    nvtx_events,
                    cuda_api_events,
                    kernel_events,
                    options,
                    devices,
                )[k];
                device_of(link.annotation) is Some && device_of(link.annotation) == device_of(
                    link.landing,
                )
            },
    decreases devices.len(),
{
    if devices.len() > 0 {
        let adapter = &NsysEventAdapter;
        let device = devices.last();
        let earlier = links_of_devices(
            adapter,
            nvtx_events,
            cuda_api_events,
            kernel_events,
            options,
            devices.drop_last(),
        );
        lemma_links_of_devices(
            nvtx_events,
            cuda_api_events,
            kernel_events,
            options,
            devices.drop_last(),
        );
        let annotations = annotations_on(nvtx_events, options, device);
        let api_calls = on_device(cuda_api_events, device);
        let kernels = on_device(kernel_events, device);
        lemma_annotations_on(nvtx_events, options, device);
        lemma_on_device(kernel_events, device);
        lemma_device_links(adapter, annotations, api_calls, kernels, annotations.len(), device);
        let added = device_links(adapter, annotations, api_calls, kernels, annotations.len());
        let all = links_of_devices(
            adapter,
            nvtx_events,
            cuda_api_events,
            kernel_events,
            options,
            devices,
        );
        assert forall|k: int| 0 <= k < all.len() implies ({
            let link = #[trigger] all[k];
            device_of(link.annotation) is Some && device_of(link.annotation) == device_of(
                link.landing,
            )
        }) by {
            if k < earlier.len() {
                assert(all[k] == earlier[k]);
            } else {
                assert(all[k] == added[k - earlier.len()]);
                assert(link_on_device(added[k - earlier.len()], device));
            }
        }
    }
}

/// The derived event of a link begins where the span of the kernels begins
/// and lasts as long as the span, to the nanosecond.
pub proof fn lemma_derived_span(link: KernelLink, color: Option<Seq<char>>)
    ensures
        derived_view(link, color).ts.wf(),
        derived_view(link, color).ts.as_nanos() == link.start_ns,
        derived_view(link, color).dur is Some,
        derived_view(link, color).dur->Some_0.wf(),
        derived_view(link, color).dur->Some_0.as_nanos() == link.end_ns - link.start_ns,
{
    Micros::lemma_of_nanos(link.start_ns as int);
    Micros::lemma_of_nanos(link.end_ns - link.start_ns);
}

} // verus!
