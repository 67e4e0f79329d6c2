//! What a search finds: the routes it lists are walks along the course that
//! respect every usage limit, and a walk that exists is not missed.

use vstd::prelude::*;
use crate::data::RegattaData;
use crate::graph::{edge_of_course, leaving, lemma_leaving_is_edge, lemma_route_edges, route_edges, RegattaEdge};
use crate::optimize::{
    admissible, advance, capped, entity_of, finished, initial_frame, leg_performance, lemma_search_hops_grows,
    limit_of, path_of, search, search_hops, travel_time, Frame, PathView, SearchMode, StepView,
};
use crate::units::LEG_CAP;

verus! {

/// The state reached from `frame` by sailing the edges `hops` in order.
pub open spec fn follow(data: RegattaData, frame: Frame, hops: Seq<(usize, RegattaEdge)>) -> Frame
    decreases hops.len(),
{
    if hops.len() == 0 {
        frame
    } else {
        follow(data, advance(data, frame, hops.first()), hops.drop_first())
    }
}

/// Whether the edges `hops` can be sailed in order from `frame`: each leaves
/// the buoy that the one before reached, each is admissible when its turn
/// comes, and there is a step left for each.
pub open spec fn sailable(data: RegattaData, mode: SearchMode, frame: Frame, hops: Seq<(usize, RegattaEdge)>) -> bool
    decreases hops.len(),
{
    hops.len() == 0 || {
        &&& frame.remaining > 0
        &&& leaving(route_edges(data), frame.point).contains(hops.first())
        &&& admissible(data, mode, frame.used, hops.first().1)
        &&& sailable(data, mode, advance(data, frame, hops.first()), hops.drop_first())
    }
}

/// How many of the edges `hops` belong to the start line or leg at position
/// `entity`.
pub open spec fn times_sailed(data: RegattaData, hops: Seq<(usize, RegattaEdge)>, entity: int) -> nat
    decreases hops.len(),
{
    if hops.len() == 0 {
        0
    } else {
        let rest = times_sailed(data, hops.drop_first(), entity);
        if entity_of(data, hops.first().1) == entity {
            rest + 1
        } else {
            rest
        }
    }
}

/// How often the start line or leg at position `entity` may be sailed in one
/// route: its own limit and, for a leg on the way to a target, no more than
/// [`LEG_CAP`].
pub open spec fn allowance(data: RegattaData, mode: SearchMode, entity: int) -> int {
    if entity < data.starts@.len() {
        data.starts@[entity].max_number as int
    } else {
        let limit = data.rakken@[entity - data.starts@.len()].max_number as int;
        if mode is ToTarget && limit > LEG_CAP {
            LEG_CAP as int
        } else {
            limit
        }
    }
}

/// Whether a route along the edges `hops` from `frame` is complete at no
/// buoy before its last: on the way to a target, the target is touched at
/// the end alone.
pub open spec fn direct(data: RegattaData, mode: SearchMode, frame: Frame, hops: Seq<(usize, RegattaEdge)>) -> bool
    decreases hops.len(),
{
    hops.len() == 0 || {
        &&& !finished(mode, frame)
        &&& direct(data, mode, advance(data, frame, hops.first()), hops.drop_first())
    }
}

/// `path` is the route sailed from `frame` along the edges `hops`, and it is
/// complete at its end and not before.
pub open spec fn route_along(
    data: RegattaData,
    mode: SearchMode,
    frame: Frame,
    path: PathView,
    hops: Seq<(usize, RegattaEdge)>,
) -> bool {
    &&& sailable(data, mode, frame, hops)
    &&& direct(data, mode, frame, hops)
    &&& finished(mode, follow(data, frame, hops))
    &&& path == path_of(follow(data, frame, hops))
}

/// Every route that a search lists is sailed along edges of the course, each
/// admissible in its turn, and is complete. The edges are returned.
pub proof fn lemma_search_lists_routes(data: RegattaData, mode: SearchMode, frame: Frame, i: int) -> (hops: Seq<
    (usize, RegattaEdge),
>)
    requires
        0 <= i < search(data, mode, frame).len(),
    ensures
        route_along(data, mode, frame, search(data, mode, frame)[i], hops),
    decreases frame.remaining, 1nat, 0nat,
{
    if finished(mode, frame) {
        Seq::empty()
    } else {
        lemma_search_hops_list_routes(data, mode, frame, leaving(route_edges(data), frame.point).len(), i)
    }
}

/// Every route that a search lists through the first `count` edges is sailed
/// along edges of the course, each admissible in its turn, and is complete.
pub proof fn lemma_search_hops_list_routes(
    data: RegattaData,
    mode: SearchMode,
    frame: Frame,
    count: nat,
    i: int,
) -> (hops: Seq<(usize, RegattaEdge)>)
    requires
        !finished(mode, frame),
        count <= leaving(route_edges(data), frame.point).len(),
        0 <= i < search_hops(data, mode, frame, count).len(),
    ensures
        route_along(data, mode, frame, search_hops(data, mode, frame, count)[i], hops),
    decreases frame.remaining, 0nat, count,
{
    let hop = leaving(route_edges(data), frame.point)[count - 1];
    let earlier = search_hops(data, mode, frame, (count - 1) as nat);
    if i < earlier.len() {
        lemma_search_hops_list_routes(data, mode, frame, (count - 1) as nat, i)
    } else {
        let next = advance(data, frame, hop);
        let rest = lemma_search_lists_routes(data, mode, next, i - earlier.len());
        let hops = seq![hop] + rest;
        assert(hops.first() == hop);
        assert(hops.drop_first() =~= rest);
        hops
    }
}

/// Where some edges can be sailed from `frame` to a state in which the route
/// is complete, the search lists at least one route.
pub proof fn lemma_search_finds_a_route(
    data: RegattaData,
    mode: SearchMode,
    frame: Frame,
    hops: Seq<(usize, RegattaEdge)>,
)
    requires
        sailable(data, mode, frame, hops),
        finished(mode, follow(data, frame, hops)),
    ensures
        search(data, mode, frame).len() > 0,
    decreases hops.len(),
{
    if !finished(mode, frame) {
        let hop = hops.first();
        let edges_out = leaving(route_edges(data), frame.point);
        let k = choose|k: int| 0 <= k < edges_out.len() && edges_out[k] == hop;
        lemma_search_finds_a_route(data, mode, advance(data, frame, hop), hops.drop_first());
        assert(search_hops(data, mode, frame, (k + 1) as nat).len() > 0);
        lemma_search_hops_grows(data, mode, frame, (k + 1) as nat, edges_out.len());
    }
}

/// Sailing edges from `frame` adds one step per edge, ends at the buoy that
/// the last edge reaches, and keeps the steps made before.
pub proof fn lemma_follow_steps(data: RegattaData, frame: Frame, hops: Seq<(usize, RegattaEdge)>)
    ensures
        follow(data, frame, hops).steps.len() == frame.steps.len() + hops.len(),
        follow(data, frame, hops).steps.take(frame.steps.len() as int) == frame.steps,
        hops.len() > 0 ==> follow(data, frame, hops).point == hops.last().0 && follow(
            data,
            frame,
            hops,
        ).steps.last().to == hops.last().0,
        forall|k: int|
            0 <= k < hops.len() ==> (#[trigger] follow(data, frame, hops).steps[frame.steps.len() + k]).to == hops[k].0
                && follow(data, frame, hops).steps[frame.steps.len() + k].distance == hops[k].1.distance
                && follow(data, frame, hops).steps[frame.steps.len() + k].from == (if k == 0 {
                frame.point
            } else {
                hops[k - 1].0
            }),
    decreases hops.len(),
{
    let end = follow(data, frame, hops);
    if hops.len() == 0 {
        assert(frame.steps.take(frame.steps.len() as int) =~= frame.steps);
    } else {
        let next = advance(data, frame, hops.first());
        let rest = hops.drop_first();
        lemma_follow_steps(data, next, rest);
        assert(end.steps.take(frame.steps.len() as int) =~= frame.steps) by {
            assert forall|j: int| 0 <= j < frame.steps.len() implies end.steps[j] == frame.steps[j] by {
                assert(end.steps.take(next.steps.len() as int)[j] == end.steps[j]);
            }
        }
        assert(end.steps.take(next.steps.len() as int)[frame.steps.len() as int] == end.steps[frame.steps.len() as int]);
        if rest.len() > 0 {
            assert(rest.last() == hops.last());
        }
        assert forall|k: int| 0 <= k < hops.len() implies (#[trigger] end.steps[frame.steps.len() + k]).to == hops[k].0
            && end.steps[frame.steps.len() + k].distance == hops[k].1.distance && end.steps[frame.steps.len() + k].from
            == (if k == 0 {
            frame.point
        } else {
            hops[k - 1].0
        }) by {
            if k > 0 {
                assert(end.steps[next.steps.len() + (k - 1)].to == rest[k - 1].0);
                assert(rest[k - 1] == hops[k]);
                if k > 1 {
                    assert(rest[k - 2] == hops[k - 1]);
                }
            }
        }
    }
}

/// Sailing edges raises the count of each start line and leg by the number
/// of times it is sailed, and never beyond what it is allowed.
pub proof fn lemma_follow_usage(
    data: RegattaData,
    mode: SearchMode,
    frame: Frame,
    hops: Seq<(usize, RegattaEdge)>,
    entity: int,
)
    requires
        sailable(data, mode, frame, hops),
        frame.used.len() == data.starts@.len() + data.rakken@.len(),
        0 <= entity < frame.used.len(),
        frame.used[entity] <= allowance(data, mode, entity),
    ensures
        follow(data, frame, hops).used.len() == frame.used.len(),
        follow(data, frame, hops).used[entity] == frame.used[entity] + times_sailed(data, hops, entity),
        follow(data, frame, hops).used[entity] <= allowance(data, mode, entity),
    decreases hops.len(),
{
    if hops.len() > 0 {
        let hop = hops.first();
        let edges_out = leaving(route_edges(data), frame.point);
        let k = choose|k: int| 0 <= k < edges_out.len() && edges_out[k] == hop;
        let i = lemma_leaving_is_edge(route_edges(data), frame.point, k);
        lemma_route_edges(data);
        assert(edge_of_course(data, route_edges(data)[i]));
        let next = advance(data, frame, hop);
        assert(limit_of(data, hop.1) <= u32::MAX);
        lemma_follow_usage(data, mode, next, hops.drop_first(), entity);
    }
}

/// From the beginning of a search, no start line or leg can be sailed more
/// often than it is allowed.
pub proof fn lemma_walk_within_limits(
    data: RegattaData,
    mode: SearchMode,
    start: usize,
    start_time: int,
    steps: nat,
    hops: Seq<(usize, RegattaEdge)>,
    entity: int,
)
    requires
        sailable(data, mode, initial_frame(data, start, start_time, steps), hops),
        0 <= entity < data.starts@.len() + data.rakken@.len(),
    ensures
        times_sailed(data, hops, entity) <= allowance(data, mode, entity),
        mode is ToTarget && entity >= data.starts@.len() ==> times_sailed(data, hops, entity) <= LEG_CAP,
{
    lemma_follow_usage(data, mode, initial_frame(data, start, start_time, steps), hops, entity);
}

/// Edges that can be sailed from a state are no more than the steps left.
pub proof fn lemma_walk_within_steps(
    data: RegattaData,
    mode: SearchMode,
    frame: Frame,
    hops: Seq<(usize, RegattaEdge)>,
)
    requires
        sailable(data, mode, frame, hops),
    ensures
        hops.len() <= frame.remaining,
    decreases hops.len(),
{
    if hops.len() > 0 {
        lemma_walk_within_steps(data, mode, advance(data, frame, hops.first()), hops.drop_first());
    }
}

/// `path` is the complete route that leaves `start` at `start_time` along
/// the edges `hops`: it has one step per edge and at most `steps` steps, the
/// steps join up from `start` onwards, and no start line or leg is sailed
/// more often than it is allowed.
pub open spec fn is_route_along(
    data: RegattaData,
    mode: SearchMode,
    start: usize,
    start_time: int,
    steps: nat,
    path: PathView,
    hops: Seq<(usize, RegattaEdge)>,
) -> bool {
    &&& route_along(data, mode, initial_frame(data, start, start_time, steps), path, hops)
    &&& chained(data, start, hops)
    &&& path.steps.len() == hops.len()
    &&& hops.len() <= steps
    &&& forall|k: int|
        0 <= k < hops.len() ==> (#[trigger] path.steps[k]).to == hops[k].0 && path.steps[k].from == (if k == 0 {
            start
        } else {
            path.steps[k - 1].to
        })
    &&& within_allowance(data, mode, hops)
}

/// `path` is a complete route that leaves `start` at `start_time` along
/// edges of the course within their limits.
pub open spec fn is_route(
    data: RegattaData,
    mode: SearchMode,
    start: usize,
    start_time: int,
    steps: nat,
    path: PathView,
) -> bool {
    exists|hops: Seq<(usize, RegattaEdge)>| is_route_along(data, mode, start, start_time, steps, path, hops)
}

/// Whether the edges `hops` join up from `point` onwards: each is an edge of
/// the course that leaves the buoy that the one before reached.
pub open spec fn chained(data: RegattaData, point: usize, hops: Seq<(usize, RegattaEdge)>) -> bool
    decreases hops.len(),
{
    hops.len() == 0 || {
        &&& leaving(route_edges(data), point).contains(hops.first())
        &&& chained(data, hops.first().0, hops.drop_first())
    }
}

/// Whether the edges `hops` sail no start line or leg more often than it is
/// allowed.
pub open spec fn within_allowance(data: RegattaData, mode: SearchMode, hops: Seq<(usize, RegattaEdge)>) -> bool {
    forall|entity: int|
        0 <= entity < data.starts@.len() + data.rakken@.len() ==> #[trigger] times_sailed(data, hops, entity)
            <= allowance(data, mode, entity)
}

/// Whether the edges `hops` connect `start` to `target`: they join up from
/// `start`, end at `target`, are at most `steps`, and sail no start line more
/// often than its limit and no leg more often than its limit or
/// [`LEG_CAP`] times.
pub open spec fn connects(
    data: RegattaData,
    start: usize,
    target: usize,
    steps: nat,
    hops: Seq<(usize, RegattaEdge)>,
) -> bool {
    &&& chained(data, start, hops)
    &&& 0 < hops.len() <= steps
    &&& hops.last().0 == target
    &&& within_allowance(data, SearchMode::ToTarget(target), hops)
}

/// Every edge that leaves a buoy belongs to a start line or leg of the
/// course.
pub proof fn lemma_departure_entity(data: RegattaData, point: usize, hop: (usize, RegattaEdge))
    requires
        leaving(route_edges(data), point).contains(hop),
    ensures
        edge_of_course(data, (point, hop.0, hop.1)),
        0 <= entity_of(data, hop.1) < data.starts@.len() + data.rakken@.len(),
{
    let edges_out = leaving(route_edges(data), point);
    let k = choose|k: int| 0 <= k < edges_out.len() && edges_out[k] == hop;
    let i = lemma_leaving_is_edge(route_edges(data), point, k);
    lemma_route_edges(data);
    assert(edge_of_course(data, route_edges(data)[i]));
}

/// Counting how often a start line or leg is sailed, one more edge at the
/// end adds one where the edge belongs to it.
pub proof fn lemma_times_sailed_push(
    data: RegattaData,
    hops: Seq<(usize, RegattaEdge)>,
    hop: (usize, RegattaEdge),
    entity: int,
)
    ensures
        times_sailed(data, hops.push(hop), entity) == times_sailed(data, hops, entity) + (if entity_of(data, hop.1)
            == entity {
            1nat
        } else {
            0nat
        }),
    decreases hops.len(),
{
    if hops.len() == 0 {
        assert(hops.push(hop).drop_first() =~= hops);
    } else {
        lemma_times_sailed_push(data, hops.drop_first(), hop, entity);
        assert(hops.push(hop).drop_first() =~= hops.drop_first().push(hop));
    }
}

/// A start line or leg is sailed no more often on the first `count` edges
/// than on all of them, and less often where the next edge belongs to it.
pub proof fn lemma_times_sailed_prefix(data: RegattaData, hops: Seq<(usize, RegattaEdge)>, count: int, entity: int)
    requires
        0 <= count <= hops.len(),
    ensures
        times_sailed(data, hops.take(count), entity) <= times_sailed(data, hops, entity),
        count < hops.len() && entity_of(data, hops[count].1) == entity ==> times_sailed(
            data,
            hops.take(count),
            entity,
        ) < times_sailed(data, hops, entity),
    decreases hops.len() - count,
{
    if count == hops.len() {
        assert(hops.take(count) =~= hops);
    } else {
        lemma_times_sailed_prefix(data, hops, count + 1, entity);
        lemma_times_sailed_push(data, hops.take(count), hops[count], entity);
        assert(hops.take(count).push(hops[count]) =~= hops.take(count + 1));
    }
}

/// Edges that sail nothing more often than allowed do so on every beginning
/// of their way.
pub proof fn lemma_beginning_within_allowance(
    data: RegattaData,
    mode: SearchMode,
    hops: Seq<(usize, RegattaEdge)>,
    count: int,
)
    requires
        within_allowance(data, mode, hops),
        0 <= count <= hops.len(),
    ensures
        within_allowance(data, mode, hops.take(count)),
{
    assert forall|entity: int| 0 <= entity < data.starts@.len() + data.rakken@.len() implies #[trigger] times_sailed(
        data,
        hops.take(count),
        entity,
    ) <= allowance(data, mode, entity) by {
        lemma_times_sailed_prefix(data, hops, count, entity);
        assert(times_sailed(data, hops, entity) <= allowance(data, mode, entity));
    }
}

/// Edges that sail nothing more often than allowed sail no start line or leg
/// more often than its own limit and, on the way to a target, no leg more
/// than [`LEG_CAP`] times, whatever its limit.
pub proof fn lemma_allowance_keeps_limits(
    data: RegattaData,
    mode: SearchMode,
    hops: Seq<(usize, RegattaEdge)>,
    entity: int,
)
    requires
        within_allowance(data, mode, hops),
        0 <= entity < data.starts@.len() + data.rakken@.len(),
    ensures
        entity < data.starts@.len() ==> times_sailed(data, hops, entity) <= data.starts@[entity].max_number,
        entity >= data.starts@.len() ==> times_sailed(data, hops, entity) <= data.rakken@[entity
            - data.starts@.len()].max_number,
        mode is ToTarget && entity >= data.starts@.len() ==> times_sailed(data, hops, entity) <= LEG_CAP,
{
    assert(times_sailed(data, hops, entity) <= allowance(data, mode, entity));
}

/// Edges that join up from the buoy of `frame`, are no more than the steps
/// left, and of which each finds its start line or leg sailed less often
/// than allowed when its turn comes, can be sailed from `frame`.
pub proof fn lemma_room_is_sailable(
    data: RegattaData,
    mode: SearchMode,
    frame: Frame,
    hops: Seq<(usize, RegattaEdge)>,
)
    requires
        chained(data, frame.point, hops),
        hops.len() <= frame.remaining,
        frame.used.len() == data.starts@.len() + data.rakken@.len(),
        forall|k: int|
            0 <= k < hops.len() ==> frame.used[entity_of(data, hops[k].1)] + #[trigger] times_sailed(
                data,
                hops.take(k),
                entity_of(data, hops[k].1),
            ) < allowance(data, mode, entity_of(data, hops[k].1)),
    ensures
        sailable(data, mode, frame, hops),
    decreases hops.len(),
{
    if hops.len() > 0 {
        let hop = hops.first();
        let rest = hops.drop_first();
        let first_entity = entity_of(data, hop.1);
        lemma_departure_entity(data, frame.point, hop);
        assert(hops.take(0) =~= Seq::<(usize, RegattaEdge)>::empty());
        assert(times_sailed(data, hops.take(0), first_entity) == 0);
        assert(frame.used[first_entity] < allowance(data, mode, first_entity));
        assert(admissible(data, mode, frame.used, hop.1));
        let next = advance(data, frame, hop);
        assert forall|k: int| 0 <= k < rest.len() implies next.used[entity_of(data, rest[k].1)] + #[trigger] times_sailed(
            data,
            rest.take(k),
            entity_of(data, rest[k].1),
        ) < allowance(data, mode, entity_of(data, rest[k].1)) by {
            let entity = entity_of(data, rest[k].1);
            assert(rest[k] == hops[k + 1]);
            assert(hops.take(k + 1).drop_first() =~= rest.take(k));
            assert(hops.take(k + 1).first() == hop);
            assert(frame.used[entity] + times_sailed(data, hops.take(k + 1), entity) < allowance(data, mode, entity));
            lemma_chained_entities(data, frame.point, hops, k + 1);
        }
        lemma_room_is_sailable(data, mode, next, rest);
    }
}

/// Every one of edges that join up belongs to a start line or leg of the
/// course.
pub proof fn lemma_chained_entities(data: RegattaData, point: usize, hops: Seq<(usize, RegattaEdge)>, k: int)
    requires
        chained(data, point, hops),
        0 <= k < hops.len(),
    ensures
        0 <= entity_of(data, hops[k].1) < data.starts@.len() + data.rakken@.len(),
    decreases hops.len(),
{
    if k == 0 {
        lemma_departure_entity(data, point, hops.first());
    } else {
        lemma_chained_entities(data, hops.first().0, hops.drop_first(), k - 1);
    }
}

/// Edges that join up from `start`, are at most `steps`, and sail no start
/// line or leg more often than it is allowed, can be sailed from the
/// beginning of a search.
pub proof fn lemma_walk_is_sailable(
    data: RegattaData,
    mode: SearchMode,
    start: usize,
    start_time: int,
    steps: nat,
    hops: Seq<(usize, RegattaEdge)>,
)
    requires
        chained(data, start, hops),
        hops.len() <= steps,
        within_allowance(data, mode, hops),
    ensures
        sailable(data, mode, initial_frame(data, start, start_time, steps), hops),
{
    let begin = initial_frame(data, start, start_time, steps);
    assert forall|k: int| 0 <= k < hops.len() implies begin.used[entity_of(data, hops[k].1)] + #[trigger] times_sailed(
        data,
        hops.take(k),
        entity_of(data, hops[k].1),
    ) < allowance(data, mode, entity_of(data, hops[k].1)) by {
        let entity = entity_of(data, hops[k].1);
        lemma_chained_entities(data, start, hops, k);
        lemma_times_sailed_prefix(data, hops, k, entity);
        assert(times_sailed(data, hops, entity) <= allowance(data, mode, entity));
    }
    lemma_room_is_sailable(data, mode, begin, hops);
}

/// Edges that can be sailed from a state join up from its buoy.
pub proof fn lemma_sailable_is_chained(
    data: RegattaData,
    mode: SearchMode,
    frame: Frame,
    hops: Seq<(usize, RegattaEdge)>,
)
    requires
        sailable(data, mode, frame, hops),
    ensures
        chained(data, frame.point, hops),
    decreases hops.len(),
{
    if hops.len() > 0 {
        lemma_sailable_is_chained(data, mode, advance(data, frame, hops.first()), hops.drop_first());
    }
}

/// Every route that a search from its beginning lists is a route along edges
/// of the course, within the steps given and the limits of every start line
/// and leg. On the way to a target other than the start it has at least one
/// step, and its last step arrives at the target.
pub proof fn lemma_search_lists_only_routes(
    data: RegattaData,
    mode: SearchMode,
    start: usize,
    start_time: int,
    steps: nat,
    i: int,
)
    requires
        0 <= i < search(data, mode, initial_frame(data, start, start_time, steps)).len(),
    ensures
        is_route(data, mode, start, start_time, steps, search(data, mode, initial_frame(data, start, start_time, steps))[i]),
        mode matches SearchMode::ToTarget(target) ==> (target != start ==> {
            let path = search(data, mode, initial_frame(data, start, start_time, steps))[i];
            &&& path.steps.len() > 0
            &&& path.steps.last().to == target
            &&& forall|k: int| 0 <= k < path.steps.len() ==> (#[trigger] path.steps[k]).from != target
        }),
        mode is FixedDepth ==> search(data, mode, initial_frame(data, start, start_time, steps))[i].steps.len() == steps,
{
    let begin = initial_frame(data, start, start_time, steps);
    let path = search(data, mode, begin)[i];
    let hops = lemma_search_lists_routes(data, mode, begin, i);
    lemma_follow_steps(data, begin, hops);
    lemma_walk_within_steps(data, mode, begin, hops);
    assert forall|entity: int| 0 <= entity < data.starts@.len() + data.rakken@.len() implies #[trigger] times_sailed(
        data,
        hops,
        entity,
    ) <= allowance(data, mode, entity) by {
        lemma_walk_within_limits(data, mode, start, start_time, steps, hops, entity);
    }
    assert forall|k: int| 0 <= k < hops.len() implies (#[trigger] path.steps[k]).to == hops[k].0 && path.steps[k].from
        == (if k == 0 {
        start
    } else {
        path.steps[k - 1].to
    }) by {
        assert(path.steps[begin.steps.len() + k].to == hops[k].0);
        if k > 0 {
            assert(path.steps[begin.steps.len() + (k - 1)].to == hops[k - 1].0);
        }
    }
    lemma_sailable_is_chained(data, mode, begin, hops);
    assert(is_route_along(data, mode, start, start_time, steps, path, hops));
    match mode {
        SearchMode::FixedDepth => {
            lemma_follow_remaining(data, begin, hops);
        },
        SearchMode::ToTarget(target) => {
            assert forall|k: int| 0 <= k < path.steps.len() implies (#[trigger] path.steps[k]).from != target by {
                lemma_direct_nodes(data, target, begin, hops, k);
                if k > 0 {
                    assert(path.steps[k - 1].to == hops[k - 1].0);
                }
            }
        },
    }
}

/// On a route that touches its target at the end alone, no edge leaves the
/// target.
pub proof fn lemma_direct_nodes(data: RegattaData, target: usize, frame: Frame, hops: Seq<(usize, RegattaEdge)>, k: int)
    requires
        direct(data, SearchMode::ToTarget(target), frame, hops),
        0 <= k < hops.len(),
    ensures
        node_at(frame.point, hops, k) != target,
    decreases hops.len(),
{
    if k > 0 {
        let next = advance(data, frame, hops.first());
        let rest = hops.drop_first();
        lemma_direct_nodes(data, target, next, rest, k - 1);
        if k > 1 {
            assert(rest[k - 2] == hops[k - 1]);
        }
    }
}

/// `path` is a route of exactly `steps` steps from `start`: it runs along
/// edges of the course within their limits, and its times fit together.
pub open spec fn is_fixed_route(data: RegattaData, start: usize, start_time: int, steps: nat, path: PathView) -> bool {
    &&& path.steps.len() == steps
    &&& is_route(data, SearchMode::FixedDepth, start, start_time, steps, path)
    &&& well_timed(data, start_time, path)
}

/// `path` is a route from `start` to `target`: it has at least one step, its
/// last step arrives at the target, no step leaves the target, it runs along
/// edges of the course within their limits and sails no leg more than
/// [`LEG_CAP`] times, and its times fit together.
pub open spec fn is_target_route(
    data: RegattaData,
    start: usize,
    target: usize,
    start_time: int,
    steps: nat,
    path: PathView,
) -> bool {
    &&& path.steps.len() > 0
    &&& path.steps.last().to == target
    &&& forall|k: int| 0 <= k < path.steps.len() ==> (#[trigger] path.steps[k]).from != target
    &&& is_route(data, SearchMode::ToTarget(target), start, start_time, steps, path)
    &&& well_timed(data, start_time, path)
}

/// The first `cap` routes of a search of fixed depth are routes of exactly
/// that many steps. With no step to make and room for one route, the list is
/// the one route without steps.
pub proof fn lemma_fixed_search_lists(
    data: RegattaData,
    start: usize,
    start_time: int,
    steps: nat,
    cap: int,
    listed: Seq<PathView>,
)
    requires
        0 <= cap,
        listed == capped(search(data, SearchMode::FixedDepth, initial_frame(data, start, start_time, steps)), cap),
    ensures
        forall|i: int| 0 <= i < listed.len() ==> is_fixed_route(data, start, start_time, steps, #[trigger] listed[i]),
        steps == 0 && cap >= 1 ==> listed == seq![path_of(initial_frame(data, start, start_time, steps))],
{
    let mode = SearchMode::FixedDepth;
    let found = search(data, mode, initial_frame(data, start, start_time, steps));
    assert forall|i: int| 0 <= i < listed.len() implies is_fixed_route(
        data,
        start,
        start_time,
        steps,
        #[trigger] listed[i],
    ) by {
        assert(listed[i] == found[i]);
        lemma_search_lists_only_routes(data, mode, start, start_time, steps, i);
        lemma_search_lists_timed_routes(data, mode, start, start_time, steps, i);
    }
}

/// The first `cap` routes of a search for a target other than the start are
/// routes to the target. Where the course leads to the target and there is
/// room for one route, the list is not empty.
pub proof fn lemma_target_search_lists(
    data: RegattaData,
    start: usize,
    target: usize,
    start_time: int,
    steps: nat,
    cap: int,
    listed: Seq<PathView>,
)
    requires
        start != target,
        0 <= cap,
        listed == capped(
            search(data, SearchMode::ToTarget(target), initial_frame(data, start, start_time, steps)),
            cap,
        ),
    ensures
        forall|i: int|
            0 <= i < listed.len() ==> is_target_route(data, start, target, start_time, steps, #[trigger] listed[i]),
        cap >= 1 && (exists|hops: Seq<(usize, RegattaEdge)>| reaches(data, start, target, steps, hops))
            ==> listed.len() >= 1,
{
    let mode = SearchMode::ToTarget(target);
    let found = search(data, mode, initial_frame(data, start, start_time, steps));
    assert forall|i: int| 0 <= i < listed.len() implies is_target_route(
        data,
        start,
        target,
        start_time,
        steps,
        #[trigger] listed[i],
    ) by {
        assert(listed[i] == found[i]);
        lemma_search_lists_only_routes(data, mode, start, start_time, steps, i);
        lemma_search_lists_timed_routes(data, mode, start, start_time, steps, i);
    }
    if cap >= 1 && (exists|hops: Seq<(usize, RegattaEdge)>| reaches(data, start, target, steps, hops)) {
        let hops = choose|hops: Seq<(usize, RegattaEdge)>| reaches(data, start, target, steps, hops);
        lemma_reachable_target_is_found(data, start, target, start_time, steps, hops);
    }
}

/// Each edge sailed takes one of the steps left.
pub proof fn lemma_follow_remaining(data: RegattaData, frame: Frame, hops: Seq<(usize, RegattaEdge)>)
    requires
        hops.len() <= frame.remaining,
    ensures
        follow(data, frame, hops).remaining + hops.len() == frame.remaining,
    decreases hops.len(),
{
    if hops.len() > 0 {
        lemma_follow_remaining(data, advance(data, frame, hops.first()), hops.drop_first());
    }
}

/// Where edges of the course connect the start to a target, within the steps
/// given and the limits of every start line and leg, the search for the
/// target lists at least one route.
pub proof fn lemma_connected_target_is_found(
    data: RegattaData,
    start: usize,
    target: usize,
    start_time: int,
    steps: nat,
    hops: Seq<(usize, RegattaEdge)>,
)
    requires
        connects(data, start, target, steps, hops),
    ensures
        search(data, SearchMode::ToTarget(target), initial_frame(data, start, start_time, steps)).len() > 0,
{
    let mode = SearchMode::ToTarget(target);
    let begin = initial_frame(data, start, start_time, steps);
    lemma_walk_is_sailable(data, mode, start, start_time, steps, hops);
    lemma_follow_steps(data, begin, hops);
    lemma_search_finds_a_route(data, mode, begin, hops);
}

/// The buoy reached after the first `count` of the edges `hops` from
/// `start`.
pub open spec fn node_at(start: usize, hops: Seq<(usize, RegattaEdge)>, count: int) -> usize {
    if count <= 0 {
        start
    } else {
        hops[count - 1].0
    }
}

/// Whether every one of the edges `hops` leaves the buoy that the one before
/// reached, the first one `start`.
pub open spec fn linked(data: RegattaData, start: usize, hops: Seq<(usize, RegattaEdge)>) -> bool {
    forall|k: int|
        0 <= k < hops.len() ==> leaving(route_edges(data), node_at(start, hops, k)).contains(#[trigger] hops[k])
}

/// Whether every one of the edges `hops` belongs to a start line or leg that
/// may be sailed at all.
pub open spec fn open_edges(data: RegattaData, hops: Seq<(usize, RegattaEdge)>) -> bool {
    forall|k: int| 0 <= k < hops.len() ==> limit_of(data, (#[trigger] hops[k]).1) >= 1
}

/// Whether the edges `hops` pass no buoy twice on their way from `start`.
pub open spec fn simple(start: usize, hops: Seq<(usize, RegattaEdge)>) -> bool {
    forall|i: int, j: int|
        0 <= i < j <= hops.len() ==> #[trigger] node_at(start, hops, i) != #[trigger] node_at(start, hops, j)
}

/// Whether the edges `hops` lead from `start` to `target` over the course:
/// they join up from `start`, end at `target`, are at most `steps`, and each
/// belongs to a start line or leg that may be sailed at all.
pub open spec fn reaches(
    data: RegattaData,
    start: usize,
    target: usize,
    steps: nat,
    hops: Seq<(usize, RegattaEdge)>,
) -> bool {
    &&& linked(data, start, hops)
    &&& 0 < hops.len() <= steps
    &&& hops.last().0 == target
    &&& open_edges(data, hops)
}

/// Edges that join up one after the other do so counted from the first.
pub proof fn lemma_chained_is_linked(data: RegattaData, start: usize, hops: Seq<(usize, RegattaEdge)>)
    requires
        chained(data, start, hops),
    ensures
        linked(data, start, hops),
    decreases hops.len(),
{
    if hops.len() > 0 {
        let rest = hops.drop_first();
        lemma_chained_is_linked(data, hops.first().0, rest);
        assert forall|k: int| 0 <= k < hops.len() implies leaving(
            route_edges(data),
            node_at(start, hops, k),
        ).contains(#[trigger] hops[k]) by {
            if k > 0 {
                assert(rest[k - 1] == hops[k]);
                assert(node_at(hops.first().0, rest, k - 1) == node_at(start, hops, k));
            }
        }
    }
}

/// Edges of which each leaves the buoy that the one before reached join up
/// one after the other.
pub proof fn lemma_linked_is_chained(data: RegattaData, start: usize, hops: Seq<(usize, RegattaEdge)>)
    requires
        linked(data, start, hops),
    ensures
        chained(data, start, hops),
    decreases hops.len(),
{
    if hops.len() > 0 {
        let rest = hops.drop_first();
        assert(leaving(route_edges(data), node_at(start, hops, 0)).contains(hops[0]));
        assert forall|k: int| 0 <= k < rest.len() implies leaving(
            route_edges(data),
            node_at(hops.first().0, rest, k),
        ).contains(#[trigger] rest[k]) by {
            assert(rest[k] == hops[k + 1]);
            assert(node_at(hops.first().0, rest, k) == node_at(start, hops, k + 1));
        }
        lemma_linked_is_chained(data, hops.first().0, rest);
    }
}

/// Where a way comes by the same buoy after `i` and after `j` edges, the
/// edges in between can be left out.
pub proof fn lemma_cut(data: RegattaData, start: usize, hops: Seq<(usize, RegattaEdge)>, i: int, j: int)
    requires
        linked(data, start, hops),
        open_edges(data, hops),
        0 <= i < j <= hops.len(),
        node_at(start, hops, i) == node_at(start, hops, j),
    ensures
        linked(data, start, hops.take(i) + hops.skip(j)),
        open_edges(data, hops.take(i) + hops.skip(j)),
        (hops.take(i) + hops.skip(j)).len() == hops.len() - (j - i),
        node_at(start, hops.take(i) + hops.skip(j), hops.len() - (j - i)) == node_at(
            start,
            hops,
            hops.len() as int,
        ),
{
    let cut = hops.take(i) + hops.skip(j);
    let gone = j - i;
    assert forall|k: int| 0 <= k < cut.len() implies #[trigger] cut[k] == (if k < i {
        hops[k]
    } else {
        hops[k + gone]
    }) by {}
    assert forall|k: int| 0 <= k <= cut.len() implies node_at(start, cut, k) == (if k < i {
        node_at(start, hops, k)
    } else {
        node_at(start, hops, k + gone)
    }) by {
        if k == 0 {
        } else if k <= i {
            assert(cut[k - 1] == hops[k - 1]);
        } else {
            assert(cut[k - 1] == hops[k - 1 + gone]);
        }
    }
    assert forall|k: int| 0 <= k < cut.len() implies leaving(
        route_edges(data),
        node_at(start, cut, k),
    ).contains(#[trigger] cut[k]) by {
        if k < i {
            assert(leaving(route_edges(data), node_at(start, hops, k)).contains(hops[k]));
        } else {
            assert(leaving(route_edges(data), node_at(start, hops, k + gone)).contains(hops[k + gone]));
        }
    }
    assert forall|k: int| 0 <= k < cut.len() implies limit_of(data, (#[trigger] cut[k]).1) >= 1 by {
        if k < i {
            assert(limit_of(data, hops[k].1) >= 1);
        } else {
            assert(limit_of(data, hops[k + gone].1) >= 1);
        }
    }
}

/// A way that passes a buoy twice can be cut short: there is a way between
/// the same buoys, over edges of the given ones, that passes no buoy twice
/// and is no longer.
pub proof fn lemma_shortcut(data: RegattaData, start: usize, hops: Seq<(usize, RegattaEdge)>) -> (short: Seq<
    (usize, RegattaEdge),
>)
    requires
        linked(data, start, hops),
        open_edges(data, hops),
    ensures
        linked(data, start, short),
        open_edges(data, short),
        simple(start, short),
        short.len() <= hops.len(),
        node_at(start, short, short.len() as int) == node_at(start, hops, hops.len() as int),
    decreases hops.len(),
{
    if simple(start, hops) {
        hops
    } else {
        let (i, j) = choose|i: int, j: int|
            0 <= i < j <= hops.len() && #[trigger] node_at(start, hops, i) == #[trigger] node_at(start, hops, j);
        lemma_cut(data, start, hops, i, j);
        lemma_shortcut(data, start, hops.take(i) + hops.skip(j))
    }
}

/// On a way that passes no buoy twice, no two edges belong to the same start
/// line or leg.
pub proof fn lemma_simple_entities(data: RegattaData, start: usize, hops: Seq<(usize, RegattaEdge)>, i: int, j: int)
    requires
        linked(data, start, hops),
        simple(start, hops),
        0 <= i < j < hops.len(),
    ensures
        entity_of(data, hops[i].1) != entity_of(data, hops[j].1),
{
    lemma_departure_entity(data, node_at(start, hops, i), hops[i]);
    lemma_departure_entity(data, node_at(start, hops, j), hops[j]);
    assert(node_at(start, hops, i) != node_at(start, hops, j));
    assert(node_at(start, hops, i) != node_at(start, hops, j + 1));
    assert(node_at(start, hops, i + 1) == hops[i].0);
    assert(node_at(start, hops, j + 1) == hops[j].0);
}

/// A start line or leg to which none of the edges belongs is not sailed.
pub proof fn lemma_not_sailed(data: RegattaData, hops: Seq<(usize, RegattaEdge)>, entity: int)
    requires
        forall|k: int| 0 <= k < hops.len() ==> entity_of(data, (#[trigger] hops[k]).1) != entity,
    ensures
        times_sailed(data, hops, entity) == 0,
    decreases hops.len(),
{
    if hops.len() > 0 {
        let rest = hops.drop_first();
        assert forall|k: int| 0 <= k < rest.len() implies entity_of(data, (#[trigger] rest[k]).1) != entity by {
            assert(rest[k] == hops[k + 1]);
        }
        lemma_not_sailed(data, rest, entity);
        assert(entity_of(data, hops[0].1) != entity);
    }
}

/// Edges of which no two belong to the same start line or leg sail each at
/// most once, and only those to which one of them belongs.
pub proof fn lemma_sailed_once(data: RegattaData, hops: Seq<(usize, RegattaEdge)>, entity: int)
    requires
        forall|i: int, j: int|
            0 <= i < j < hops.len() ==> entity_of(data, (#[trigger] hops[i]).1) != entity_of(
                data,
                (#[trigger] hops[j]).1,
            ),
    ensures
        times_sailed(data, hops, entity) <= 1,
        times_sailed(data, hops, entity) == 1 ==> exists|k: int|
            0 <= k < hops.len() && entity_of(data, (#[trigger] hops[k]).1) == entity,
    decreases hops.len(),
{
    if hops.len() > 0 {
        let rest = hops.drop_first();
        assert forall|i: int, j: int| 0 <= i < j < rest.len() implies entity_of(data, (#[trigger] rest[i]).1)
            != entity_of(data, (#[trigger] rest[j]).1) by {
            assert(rest[i] == hops[i + 1]);
            assert(rest[j] == hops[j + 1]);
        }
        if entity_of(data, hops.first().1) == entity {
            assert forall|k: int| 0 <= k < rest.len() implies entity_of(data, (#[trigger] rest[k]).1) != entity by {
                assert(rest[k] == hops[k + 1]);
                assert(hops[0] == hops.first());
            }
            lemma_not_sailed(data, rest, entity);
            assert(entity_of(data, hops[0].1) == entity);
        } else {
            lemma_sailed_once(data, rest, entity);
            if times_sailed(data, rest, entity) == 1 {
                let k = choose|k: int| 0 <= k < rest.len() && entity_of(data, (#[trigger] rest[k]).1) == entity;
                assert(rest[k] == hops[k + 1]);
            }
        }
    }
}

/// A way over the course that passes no buoy twice, along start lines and
/// legs that may be sailed at all, sails none of them more often than it is
/// allowed.
pub proof fn lemma_simple_way_within_allowance(
    data: RegattaData,
    mode: SearchMode,
    start: usize,
    hops: Seq<(usize, RegattaEdge)>,
)
    requires
        linked(data, start, hops),
        simple(start, hops),
        open_edges(data, hops),
    ensures
        within_allowance(data, mode, hops),
{
    assert forall|i: int, j: int| 0 <= i < j < hops.len() implies entity_of(data, (#[trigger] hops[i]).1)
        != entity_of(data, (#[trigger] hops[j]).1) by {
        lemma_simple_entities(data, start, hops, i, j);
    }
    assert forall|entity: int| 0 <= entity < data.starts@.len() + data.rakken@.len() implies #[trigger] times_sailed(
        data,
        hops,
        entity,
    ) <= allowance(data, mode, entity) by {
        lemma_sailed_once(data, hops, entity);
        if times_sailed(data, hops, entity) == 1 {
            let k = choose|k: int| 0 <= k < hops.len() && entity_of(data, (#[trigger] hops[k]).1) == entity;
            lemma_departure_entity(data, node_at(start, hops, k), hops[k]);
            assert(limit_of(data, hops[k].1) >= 1);
        }
    }
}

/// Where the course leads from the start to another buoy within the steps
/// given, along start lines and legs that may be sailed at all, the search
/// for that buoy lists at least one route.
pub proof fn lemma_reachable_target_is_found(
    data: RegattaData,
    start: usize,
    target: usize,
    start_time: int,
    steps: nat,
    hops: Seq<(usize, RegattaEdge)>,
)
    requires
        start != target,
        reaches(data, start, target, steps, hops),
    ensures
        search(data, SearchMode::ToTarget(target), initial_frame(data, start, start_time, steps)).len() > 0,
{
    let mode = SearchMode::ToTarget(target);
    let short = lemma_shortcut(data, start, hops);
    lemma_simple_way_within_allowance(data, mode, start, short);
    lemma_linked_is_chained(data, start, short);
    assert(node_at(start, hops, hops.len() as int) == target);
    assert(short.len() > 0);
    assert(connects(data, start, target, steps, short));
    lemma_connected_target_is_found(data, start, target, start_time, steps, short);
}

/// The sum of the distances of some steps.
pub open spec fn total_length(steps: Seq<StepView>) -> int
    decreases steps.len(),
{
    if steps.len() == 0 {
        0
    } else {
        total_length(steps.drop_last()) + steps.last().distance
    }
}

/// Whether the step at position `k` of a route that leaves at `start_time`
/// fits its place: it leaves when the step before arrives, at the speed
/// estimated for that moment, and takes the time that its distance takes at
/// that speed.
pub open spec fn step_timed(data: RegattaData, start_time: int, steps: Seq<StepView>, k: int) -> bool {
    let step = steps[k];
    &&& step.start_time == (if k == 0 {
        start_time
    } else {
        steps[k - 1].end_time
    })
    &&& step.speed == leg_performance(data, step.from as int, step.to as int, step.start_time).estimated_speed
    &&& step.end_time == step.start_time + travel_time(step.distance, step.speed)
}

/// Whether the times of a route that leaves at `start_time` fit together:
/// each step leaves when the one before arrives, the first at `start_time`;
/// its speed is the one estimated for its own departure; it takes the time
/// that its distance takes at that speed; and the route ends when its last
/// step arrives, having covered the distances of all its steps.
pub open spec fn well_timed(data: RegattaData, start_time: int, path: PathView) -> bool {
    &&& forall|k: int| 0 <= k < path.steps.len() ==> #[trigger] step_timed(data, start_time, path.steps, k)
    &&& path.end_time == (if path.steps.len() == 0 {
        start_time
    } else {
        path.steps.last().end_time
    })
    &&& path.total_distance == total_length(path.steps)
}

/// One more step adds its distance to the sum.
pub proof fn lemma_total_length_push(steps: Seq<StepView>, step: StepView)
    ensures
        total_length(steps.push(step)) == total_length(steps) + step.distance,
{
    assert(steps.push(step).drop_last() =~= steps);
}

/// Sailing one edge from a state whose times fit together leads to a state
/// whose times fit together.
pub proof fn lemma_advance_times(data: RegattaData, start_time: int, frame: Frame, hop: (usize, RegattaEdge))
    requires
        well_timed(data, start_time, path_of(frame)),
    ensures
        well_timed(data, start_time, path_of(advance(data, frame, hop))),
{
    let next = advance(data, frame, hop);
    let before = frame.steps;
    let after = next.steps;
    let added = after[before.len() as int];
    assert(after == before.push(added));
    lemma_total_length_push(before, added);
    assert(step_timed(data, start_time, after, before.len() as int)) by {
        if before.len() > 0 {
            assert(after[before.len() - 1] == before.last());
        }
    }
    assert forall|k: int| 0 <= k < after.len() implies #[trigger] step_timed(data, start_time, after, k) by {
        if k < before.len() {
            assert(step_timed(data, start_time, before, k));
            assert(after[k] == before[k]);
            if k > 0 {
                assert(after[k - 1] == before[k - 1]);
            }
        }
    }
}

/// Sailing edges from a state whose times fit together leads to a state
/// whose times fit together.
pub proof fn lemma_follow_times(data: RegattaData, start_time: int, frame: Frame, hops: Seq<(usize, RegattaEdge)>)
    requires
        well_timed(data, start_time, path_of(frame)),
    ensures
        well_timed(data, start_time, path_of(follow(data, frame, hops))),
    decreases hops.len(),
{
    if hops.len() > 0 {
        lemma_advance_times(data, start_time, frame, hops.first());
        lemma_follow_times(data, start_time, advance(data, frame, hops.first()), hops.drop_first());
    }
}

/// The times of every route that a search from its beginning lists fit
/// together.
pub proof fn lemma_search_lists_timed_routes(
    data: RegattaData,
    mode: SearchMode,
    start: usize,
    start_time: int,
    steps: nat,
    i: int,
)
    requires
        0 <= i < search(data, mode, initial_frame(data, start, start_time, steps)).len(),
    ensures
        well_timed(data, start_time, search(data, mode, initial_frame(data, start, start_time, steps))[i]),
{
    let begin = initial_frame(data, start, start_time, steps);
    let hops = lemma_search_lists_routes(data, mode, begin, i);
    lemma_follow_times(data, start_time, begin, hops);
}

} // verus!
