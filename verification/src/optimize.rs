//! Leg performance and the enumeration of routes.

use vstd::prelude::*;
use petgraph::graph::Graph;
use crate::data::RegattaData;
use crate::graph::{
    build_regatta_graph, departures, edge_of_course, graph_edges, graph_outgoing, leaving, lemma_leaving_is_edge,
    lemma_route_edges, route_edges, RegattaEdge,
};
use crate::units::{
    gap, gap_between, FULL_TURN, HALF_TURN, LEG_CAP, MAX_DISTANCE, MAX_LEG_TIME, MAX_START_TIME, MAX_STEPS, SCALE,
};
use crate::walks::{
    is_fixed_route, is_target_route, lemma_fixed_search_lists, lemma_target_search_lists, reaches,
};
use crate::wind::wind_at;

verus! {

/// One sailed edge of a route.
#[derive(Debug, Clone, Copy, PartialEq, Eq, Structural)]
pub struct Step {
    /// Index of the buoy the step leaves.
    pub from: usize,
    /// Index of the buoy the step reaches.
    pub to: usize,
    /// Length, in thousandths of a nautical mile.
    pub distance: i64,
    /// Estimated boat speed, in thousandths of a knot.
    pub speed: i64,
    /// Time of departure, in thousandths of an hour since the race began.
    pub start_time: i64,
    /// Time of arrival, in thousandths of an hour since the race began.
    pub end_time: i64,
}

/// A route: its steps in order, its length and the time at which it ends.
#[derive(Debug, Clone)]
pub struct Path {
    pub steps: Vec<Step>,
    /// Sum of the distances of the steps.
    pub total_distance: i64,
    /// Time of arrival at the end of the last step.
    pub end_time: i64,
}

/// How a boat fares on the way from one buoy to another at one moment.
#[derive(Debug, Clone, Copy, PartialEq, Eq, Structural)]
pub struct LegPerformance {
    /// Boat speed from the polar table, in thousandths of a knot.
    pub estimated_speed: i64,
    /// Course over ground, in thousandths of a degree from 0 up to a full turn.
    pub course_bearing: i64,
    /// Direction the wind blows from, in thousandths of a degree.
    pub wind_direction: i64,
    /// Angle between course and wind, in thousandths of a degree from 0 to
    /// half a turn.
    pub relative_bearing: i64,
    /// True wind speed, in thousandths of a knot.
    pub wind_speed: i64,
}

/// Why a search for routes was not made.
#[derive(Debug, Clone, Copy, PartialEq, Eq, Structural)]
pub enum ExploreError {
    /// The start index is not the index of a buoy.
    InvalidStartPoint(usize),
    /// The target index is not the index of a buoy.
    InvalidTargetPoint(usize),
    /// Start and target are the same buoy.
    TargetIsStart(usize),
}

/// When a route is complete.
#[derive(Debug, Clone, Copy, PartialEq, Eq, Structural)]
pub enum SearchMode {
    /// A route is complete once it has the asked number of steps.
    FixedDepth,
    /// A route is complete once it reaches the buoy with this index.
    ToTarget(usize),
}

/// A step as exact integers.
pub struct StepView {
    pub from: usize,
    pub to: usize,
    pub distance: int,
    pub speed: int,
    pub start_time: int,
    pub end_time: int,
}

/// A route as exact integers.
pub struct PathView {
    pub steps: Seq<StepView>,
    pub total_distance: int,
    pub end_time: int,
}

impl View for Step {
    type V = StepView;

    open spec fn view(&self) -> StepView {
        StepView {
            from: self.from,
            to: self.to,
            distance: self.distance as int,
            speed: self.speed as int,
            start_time: self.start_time as int,
            end_time: self.end_time as int,
        }
    }
}

/// The steps of a route as exact integers.
pub open spec fn steps_view(steps: Seq<Step>) -> Seq<StepView> {
    steps.map_values(|step: Step| step@)
}

impl View for Path {
    type V = PathView;

    open spec fn view(&self) -> PathView {
        PathView {
            steps: steps_view(self.steps@),
            total_distance: self.total_distance as int,
            end_time: self.end_time as int,
        }
    }
}

/// A list of routes as exact integers.
pub open spec fn paths_view(paths: Seq<Path>) -> Seq<PathView> {
    paths.map_values(|path: Path| path@)
}

/// A bearing between minus and plus half a turn brought into the range from
/// 0 up to a full turn.
pub open spec fn course_of(raw: int) -> int {
    (raw + FULL_TURN) % (FULL_TURN as int)
}

/// The angle between wind and course, folded into half a turn: which side
/// the wind comes from is dropped.
pub open spec fn relative_bearing_of(wind_direction: int, course: int) -> int {
    let apart = gap(wind_direction, course);
    if apart > HALF_TURN {
        FULL_TURN - apart
    } else {
        apart
    }
}

/// The performance on the way from buoy `from` to buoy `to` at `time`: the
/// course from the bearing table, the wind from the schedule at `time`, and
/// the boat speed that the polar table gives for the angle between them.
pub open spec fn leg_performance(data: RegattaData, from: int, to: int, time: int) -> LegPerformance {
    let course = course_of(data.bearings@[from]@[to] as int);
    let wind = wind_at(data.wind_data.conditions@, time).unwrap();
    let relative = relative_bearing_of(wind.wind_angle as int, course);
    LegPerformance {
        estimated_speed: data.polar_data.speed_at(relative, wind.wind_speed as int).unwrap(),
        course_bearing: course as i64,
        wind_direction: wind.wind_angle,
        relative_bearing: relative as i64,
        wind_speed: wind.wind_speed,
    }
}

/// Estimates the performance on the way from one buoy to another at a given
/// time, in thousandths of an hour since the race began.
pub fn estimate_leg_performance(data: &RegattaData, from: usize, to: usize, time: i64) -> (performance:
    LegPerformance)
    requires
        data.tables_wf(),
        from < data.boeien@.len(),
        to < data.boeien@.len(),
        data.boeien@[from as int].resolved(),
        data.boeien@[to as int].resolved(),
    ensures
        performance == leg_performance(*data, from as int, to as int, time as int),
        0 <= performance.course_bearing < FULL_TURN,
        0 <= performance.relative_bearing <= HALF_TURN,
        performance.course_bearing == course_of(data.bearings@[from as int]@[to as int] as int),
        performance.relative_bearing == relative_bearing_of(
            performance.wind_direction as int,
            performance.course_bearing as int,
        ),
{
    let raw: i64 = data.bearings[from][to];
    let course_bearing: i64 = (raw + FULL_TURN) % FULL_TURN;
    let wind = data.wind_data.get_wind_at_time(time).unwrap();
    let apart: u64 = gap_between(wind.wind_angle, course_bearing);
    let relative_bearing: i64 = if apart > HALF_TURN as u64 {
        FULL_TURN - apart as i64
    } else {
        apart as i64
    };
    let estimated_speed = data.polar_data.get_boat_speed(relative_bearing, wind.wind_speed).unwrap();
    LegPerformance {
        estimated_speed,
        course_bearing,
        wind_direction: wind.wind_angle,
        relative_bearing,
        wind_speed: wind.wind_speed,
    }
}

/// The state of a search at one buoy: where the boat is and when, how many
/// steps it may still make, the steps that brought it there, how often each
/// start line and leg has been sailed, and the distance covered.
pub struct Frame {
    pub point: usize,
    pub time: int,
    pub remaining: nat,
    pub steps: Seq<StepView>,
    pub used: Seq<u32>,
    pub distance: int,
}

/// The state in which a search begins: at `start`, at `start_time`, with no
/// step made and nothing sailed.
pub open spec fn initial_frame(data: RegattaData, start: usize, start_time: int, steps: nat) -> Frame {
    Frame {
        point: start,
        time: start_time,
        remaining: steps,
        steps: Seq::empty(),
        used: Seq::new(data.starts@.len() + data.rakken@.len(), |i: int| 0u32),
        distance: 0,
    }
}

/// The position of an edge's start line or leg among all start lines and
/// legs: the start lines come first, then the legs. Both directions of a leg
/// share one position.
pub open spec fn entity_of(data: RegattaData, weight: RegattaEdge) -> int {
    if weight.is_start {
        weight.index as int
    } else {
        data.starts@.len() + weight.index
    }
}

/// How often the start line or leg of an edge may be sailed in one route.
pub open spec fn limit_of(data: RegattaData, weight: RegattaEdge) -> int {
    if weight.is_start {
        data.starts@[weight.index as int].max_number as int
    } else {
        data.rakken@[weight.index as int].max_number as int
    }
}

/// Whether an edge may be sailed: its start line or leg has been sailed
/// fewer times than its limit and, on the way to a target, a leg fewer than
/// [`LEG_CAP`] times.
pub open spec fn admissible(data: RegattaData, mode: SearchMode, used: Seq<u32>, weight: RegattaEdge) -> bool {
    &&& used[entity_of(data, weight)] < limit_of(data, weight)
    &&& (mode is ToTarget && !weight.is_start) ==> used[entity_of(data, weight)] < LEG_CAP
}

/// Time to sail a distance at a speed, rounded down. A speed that is not
/// positive counts as one knot.
pub open spec fn travel_time(distance: int, speed: int) -> int {
    if speed > 0 {
        (distance * SCALE) / speed
    } else {
        distance
    }
}

/// The state after sailing the edge `hop`, given as target and weight, from
/// the state `frame`. The speed is the one estimated for the moment of
/// departure.
pub open spec fn advance(data: RegattaData, frame: Frame, hop: (usize, RegattaEdge)) -> Frame {
    let speed = leg_performance(data, frame.point as int, hop.0 as int, frame.time).estimated_speed as int;
    let distance = hop.1.distance as int;
    let end_time = frame.time + travel_time(distance, speed);
    let entity = entity_of(data, hop.1);
    Frame {
        point: hop.0,
        time: end_time,
        remaining: (frame.remaining - 1) as nat,
        steps: frame.steps.push(
            StepView { from: frame.point, to: hop.0, distance, speed, start_time: frame.time, end_time },
        ),
        used: frame.used.update(entity, (frame.used[entity] + 1) as u32),
        distance: frame.distance + distance,
    }
}

/// Whether the route that led to `frame` is complete.
pub open spec fn finished(mode: SearchMode, frame: Frame) -> bool {
    match mode {
        SearchMode::FixedDepth => frame.remaining == 0,
        SearchMode::ToTarget(target) => frame.point == target,
    }
}

/// The route that led to `frame`.
pub open spec fn path_of(frame: Frame) -> PathView {
    PathView { steps: frame.steps, total_distance: frame.distance, end_time: frame.time }
}

/// All complete routes that continue the route of `frame`, in the order in
/// which a depth-first walk of the course finds them.
///
/// A complete route is listed as it is. A route that is not complete and has
/// no step left is dropped. Any other route is continued along every edge
/// that leaves its last buoy and is admissible, in the order in which the
/// edges were added to the course.
pub open spec fn search(data: RegattaData, mode: SearchMode, frame: Frame) -> Seq<PathView>
    decreases frame.remaining, 1nat, 0nat,
{
    if finished(mode, frame) {
        seq![path_of(frame)]
    } else if frame.remaining == 0 {
        Seq::empty()
    } else {
        search_hops(data, mode, frame, leaving(route_edges(data), frame.point).len())
    }
}

/// The complete routes that continue the route of `frame` along one of the
/// first `count` edges that leave its last buoy.
pub open spec fn search_hops(data: RegattaData, mode: SearchMode, frame: Frame, count: nat) -> Seq<PathView>
    decreases frame.remaining, 0nat, count,
{
    if count == 0 || frame.remaining == 0 {
        Seq::empty()
    } else {
        let hop = leaving(route_edges(data), frame.point)[count - 1];
        let earlier = search_hops(data, mode, frame, (count - 1) as nat);
        if admissible(data, mode, frame.used, hop.1) {
            earlier + search(data, mode, advance(data, frame, hop))
        } else {
            earlier
        }
    }
}

/// The first `cap` routes of a list, or all of them where there are fewer.
pub open spec fn capped(paths: Seq<PathView>, cap: int) -> Seq<PathView> {
    if paths.len() <= cap {
        paths
    } else {
        paths.take(cap)
    }
}

/// The limits inside which the arithmetic of a search is exact.
pub open spec fn frame_wf(data: RegattaData, frame: Frame) -> bool {
    &&& frame.point < data.boeien@.len()
    &&& frame.used.len() == data.starts@.len() + data.rakken@.len()
    &&& frame.steps.len() + frame.remaining <= MAX_STEPS
    &&& -MAX_START_TIME <= frame.time <= MAX_START_TIME + frame.steps.len() * MAX_LEG_TIME
    &&& 0 <= frame.distance <= frame.steps.len() * MAX_DISTANCE
}

/// The routes through the first `count` edges are the beginning of the
/// routes through the first `more` edges.
pub proof fn lemma_search_hops_grows(data: RegattaData, mode: SearchMode, frame: Frame, count: nat, more: nat)
    requires
        count <= more,
    ensures
        search_hops(data, mode, frame, count).len() <= search_hops(data, mode, frame, more).len(),
        search_hops(data, mode, frame, more).take(search_hops(data, mode, frame, count).len() as int)
            == search_hops(data, mode, frame, count),
    decreases more,
{
    let short = search_hops(data, mode, frame, count);
    if count == more {
        assert(short.take(short.len() as int) =~= short);
    } else if frame.remaining == 0 {
        assert(short.take(short.len() as int) =~= short);
    } else {
        lemma_search_hops_grows(data, mode, frame, count, (more - 1) as nat);
        let earlier = search_hops(data, mode, frame, (more - 1) as nat);
        let all = search_hops(data, mode, frame, more);
        assert(all.take(short.len() as int) =~= earlier.take(short.len() as int));
    }
}

/// Cutting a list at a cap gives the same as cutting a beginning of it that
/// is at least as long as the cap.
pub proof fn lemma_capped_beginning(short: Seq<PathView>, long: Seq<PathView>, cap: int)
    requires
        0 <= cap <= short.len() <= long.len(),
        long.take(short.len() as int) == short,
    ensures
        capped(long, cap) == capped(short, cap),
{
    assert(short.take(cap) =~= long.take(cap)) by {
        assert forall|i: int| 0 <= i < cap implies short.take(cap)[i] == long.take(cap)[i] by {
            assert(long.take(short.len() as int)[i] == long[i]);
        }
    }
    assert(short.take(short.len() as int) =~= short);
    assert(long.take(long.len() as int) =~= long);
}

/// Time to sail a distance at a speed, rounded down.
pub fn travel_time_of(distance: i64, speed: i64) -> (time: i64)
    requires
        0 <= distance <= MAX_DISTANCE,
    ensures
        time == travel_time(distance as int, speed as int),
        0 <= time <= MAX_LEG_TIME,
{
    if speed > 0 {
        assert(0 <= (distance * SCALE) / (speed as int) <= distance * SCALE) by (nonlinear_arith)
            requires
                0 <= distance,
                0 < speed,
                SCALE == 1000,
        ;
        (distance * SCALE) / speed
    } else {
        distance
    }
}

/// A copy of a list.
fn copy_of<T: Copy>(items: &Vec<T>) -> (copy: Vec<T>)
    ensures
        copy@ == items@,
{
    let mut copy: Vec<T> = Vec::new();
    let mut i: usize = 0;
    while i < items.len()
        invariant
            i <= items@.len(),
            copy@ == items@.take(i as int),
        decreases items@.len() - i,
    {
        copy.push(items[i]);
        assert(items@.take(i as int).push(items@[i as int]) =~= items@.take(i + 1));
        i = i + 1;
    }
    assert(items@.take(i as int) =~= items@);
    copy
}

/// The state of a search at one buoy.
pub struct PathExplorationState {
    pub current_point: usize,
    pub current_time: i64,
    pub remaining_steps: usize,
    pub current_steps: Vec<Step>,
    pub edges_used: Vec<u32>,
    pub total_distance: i64,
}

impl View for PathExplorationState {
    type V = Frame;

    open spec fn view(&self) -> Frame {
        Frame {
            point: self.current_point,
            time: self.current_time as int,
            remaining: self.remaining_steps as nat,
            steps: steps_view(self.current_steps@),
            used: self.edges_used@,
            distance: self.total_distance as int,
        }
    }
}

/// Continues the route of `state` in every admissible way and appends the
/// complete routes to `all_paths`, until `all_paths` holds `max_paths`
/// routes.
pub fn explore_recursive(
    data: &RegattaData,
    graph: &Graph<Option<String>, RegattaEdge>,
    mode: SearchMode,
    state: PathExplorationState,
    all_paths: &mut Vec<Path>,
    max_paths: usize,
)
    requires
        data.wf(),
        graph_edges(*graph) == route_edges(*data),
        frame_wf(*data, state@),
        old(all_paths)@.len() <= max_paths,
    ensures
        paths_view(final(all_paths)@) == capped(
            paths_view(old(all_paths)@) + search(*data, mode, state@),
            max_paths as int,
        ),
    decreases state.remaining_steps,
{
    let ghost before = paths_view(all_paths@);
    let ghost frame = state@;
    let complete = match mode {
        SearchMode::FixedDepth => state.remaining_steps == 0,
        SearchMode::ToTarget(target) => state.current_point == target,
    };
    if complete {
        if all_paths.len() < max_paths {
            let path = Path {
                steps: state.current_steps,
                total_distance: state.total_distance,
                end_time: state.current_time,
            };
            assert(path@ == path_of(frame));
            all_paths.push(path);
            assert(paths_view(all_paths@) =~= before + seq![path_of(frame)]);
        } else {
            assert((before + seq![path_of(frame)]).take(max_paths as int) =~= before);
        }
        return;
    }
    if state.remaining_steps == 0 {
        assert(before + Seq::<PathView>::empty() =~= before);
        return;
    }
    let hops = graph_outgoing(graph, state.current_point);
    let mut next: usize = 0;
    while next < hops.len()
        invariant
            next <= hops@.len(),
            data.wf(),
            graph_edges(*graph) == route_edges(*data),
            hops@ == departures(route_edges(*data), state.current_point),
            frame == state@,
            frame_wf(*data, frame),
            frame.remaining > 0,
            !finished(mode, frame),
            before == paths_view(old(all_paths)@),
            before.len() <= max_paths,
            paths_view(all_paths@) == capped(before + search_hops(*data, mode, frame, next as nat), max_paths as int),
        decreases hops@.len() - next,
    {
        let ghost found = before + search_hops(*data, mode, frame, next as nat);
        if all_paths.len() >= max_paths {
            proof {
                let all = search_hops(*data, mode, frame, hops@.len());
                lemma_search_hops_grows(*data, mode, frame, next as nat, hops@.len());
                let long = before + all;
                assert(long.take(found.len() as int) =~= found) by {
                    let short_hops = search_hops(*data, mode, frame, next as nat);
                    assert forall|i: int| 0 <= i < found.len() implies long[i] == found[i] by {
                        if i >= before.len() {
                            assert(all.take(short_hops.len() as int)[i - before.len()] == all[i - before.len()]);
                        }
                    }
                }
                assert(paths_view(all_paths@).len() == all_paths@.len());
                assert(found.len() >= max_paths);
                lemma_capped_beginning(found, long, max_paths as int);
                assert(search(*data, mode, frame) == all);
            }
            return;
        }
        assert(paths_view(all_paths@) == found);
        // The graph hands its edges out latest first; they are sailed in the
        // order in which they were added.
        let (target_point, weight) = hops[hops.len() - 1 - next];
        let ghost hop = leaving(route_edges(*data), state.current_point)[next as int];
        proof {
            assert(hop == (target_point, weight));
            let i = lemma_leaving_is_edge(route_edges(*data), state.current_point, next as int);
            lemma_route_edges(*data);
            assert(edge_of_course(*data, route_edges(*data)[i]));
        }
        let entity: usize = if weight.is_start {
            weight.index
        } else {
            data.starts.len() + weight.index
        };
        let max_usage: u32 = if weight.is_start {
            data.starts[weight.index].max_number
        } else {
            data.rakken[weight.index].max_number
        };
        let used: u32 = state.edges_used[entity];
        let capped_leg = match mode {
            SearchMode::FixedDepth => false,
            SearchMode::ToTarget(_) => !weight.is_start && used >= LEG_CAP,
        };
        if used < max_usage && !capped_leg {
            let performance = estimate_leg_performance(data, state.current_point, target_point, state.current_time);
            let speed = performance.estimated_speed;
            let distance = weight.distance;
            let travel_time = travel_time_of(distance, speed);
            let end_time = state.current_time + travel_time;
            let step = Step {
                from: state.current_point,
                to: target_point,
                distance,
                speed,
                start_time: state.current_time,
                end_time,
            };
            let mut new_steps = copy_of(&state.current_steps);
            new_steps.push(step);
            let mut new_edges_used = copy_of(&state.edges_used);
            new_edges_used.set(entity, used + 1);
            let new_state = PathExplorationState {
                current_point: target_point,
                current_time: end_time,
                remaining_steps: state.remaining_steps - 1,
                current_steps: new_steps,
                edges_used: new_edges_used,
                total_distance: state.total_distance + distance,
            };
            proof {
                assert(steps_view(new_steps@) =~= frame.steps.push(step@));
                assert(new_state@ == advance(*data, frame, hop));
                assert(admissible(*data, mode, frame.used, weight));
            }
            explore_recursive(data, graph, mode, new_state, all_paths, max_paths);
            proof {
                let child = search(*data, mode, new_state@);
                assert(found + child =~= before + search_hops(*data, mode, frame, (next + 1) as nat));
            }
        } else {
            assert(!admissible(*data, mode, frame.used, weight));
        }
        next = next + 1;
    }
}

/// The number of routes a search may return: `max_paths`, or no limit other
/// than the machine's.
pub open spec fn cap_of(max_paths: Option<usize>) -> int {
    match max_paths {
        Some(cap) => cap as int,
        None => usize::MAX as int,
    }
}

/// A usage count of zero for each of `count` start lines and legs.
fn zero_usage(count: usize) -> (used: Vec<u32>)
    ensures
        used@ == Seq::new(count as nat, |i: int| 0u32),
{
    let mut used: Vec<u32> = Vec::new();
    let mut i: usize = 0;
    while i < count
        invariant
            i <= count,
            used@ == Seq::new(i as nat, |j: int| 0u32),
        decreases count - i,
    {
        used.push(0u32);
        assert(used@ =~= Seq::new((i + 1) as nat, |j: int| 0u32));
        i = i + 1;
    }
    used
}

/// Runs a search from `start_point` at `start_time` with `steps` steps.
fn explore_from(
    data: &RegattaData,
    mode: SearchMode,
    start_point: usize,
    start_time: i64,
    steps: usize,
    max_paths: Option<usize>,
) -> (paths: Vec<Path>)
    requires
        data.wf(),
        start_point < data.boeien@.len(),
        steps <= MAX_STEPS,
        -MAX_START_TIME <= start_time <= MAX_START_TIME,
    ensures
        paths_view(paths@) == capped(
            search(*data, mode, initial_frame(*data, start_point, start_time as int, steps as nat)),
            cap_of(max_paths),
        ),
        paths@.len() <= cap_of(max_paths),
{
    let (graph, _node_indices) = build_regatta_graph(data).unwrap();
    let mut all_paths: Vec<Path> = Vec::new();
    let initial_edges_used = zero_usage(data.starts.len() + data.rakken.len());
    let initial_state = PathExplorationState {
        current_point: start_point,
        current_time: start_time,
        remaining_steps: steps,
        current_steps: Vec::new(),
        edges_used: initial_edges_used,
        total_distance: 0,
    };
    let cap: usize = match max_paths {
        Some(cap) => cap,
        None => usize::MAX,
    };
    proof {
        assert(steps_view(initial_state.current_steps@) =~= Seq::<StepView>::empty());
        assert(initial_state@ == initial_frame(*data, start_point, start_time as int, steps as nat));
        let found = search(*data, mode, initial_state@);
        assert(paths_view(all_paths@) + found =~= found);
    }
    explore_recursive(data, &graph, mode, initial_state, &mut all_paths, cap);
    assert(paths_view(all_paths@).len() == all_paths@.len());
    all_paths
}

/// Lists the routes of exactly `num_steps` steps that leave `start_point` at
/// `start_time`, whatever buoy they end at, in the order in which a
/// depth-first walk of the course finds them. Where `max_paths` is given, no
/// more than that many routes are listed: the first ones found.
///
/// A start index that is not the index of a buoy is an error.
pub fn explore_paths(
    data: &RegattaData,
    start_point: usize,
    start_time: i64,
    num_steps: usize,
    max_paths: Option<usize>,
) -> (result: Result<Vec<Path>, ExploreError>)
    requires
        data.wf(),
        num_steps <= MAX_STEPS,
        -MAX_START_TIME <= start_time <= MAX_START_TIME,
    ensures
        match result {
            Ok(paths) => {
                &&& start_point < data.boeien@.len()
                &&& paths_view(paths@) == capped(
                    search(
                        *data,
                        SearchMode::FixedDepth,
                        initial_frame(*data, start_point, start_time as int, num_steps as nat),
                    ),
                    cap_of(max_paths),
                )
            },
            Err(error) => start_point >= data.boeien@.len() && error == ExploreError::InvalidStartPoint(start_point),
        },
        result matches Ok(paths) ==> paths@.len() <= cap_of(max_paths),
        result matches Ok(paths) ==> forall|i: int|
            0 <= i < paths@.len() ==> is_fixed_route(
                *data,
                start_point,
                start_time as int,
                num_steps as nat,
                (#[trigger] paths@[i])@,
            ),
        num_steps == 0 && start_point < data.boeien@.len() && max_paths != Some(0usize) ==> (result matches Ok(paths)
            && paths@.len() == 1 && paths@[0]@.steps.len() == 0 && paths@[0].end_time == start_time
            && paths@[0].total_distance == 0),
{
    if start_point >= data.boeien.len() {
        return Err(ExploreError::InvalidStartPoint(start_point));
    }
    let paths = explore_from(data, SearchMode::FixedDepth, start_point, start_time, num_steps, max_paths);
    proof {
        let listed = paths_view(paths@);
        lemma_fixed_search_lists(
            *data,
            start_point,
            start_time as int,
            num_steps as nat,
            cap_of(max_paths),
            listed,
        );
        assert forall|i: int| 0 <= i < paths@.len() implies is_fixed_route(
            *data,
            start_point,
            start_time as int,
            num_steps as nat,
            (#[trigger] paths@[i])@,
        ) by {
            assert(listed[i] == paths@[i]@);
        }
        if num_steps == 0 && max_paths != Some(0usize) {
            assert(listed.len() == 1);
            assert(listed[0] == paths@[0]@);
        }
    }
    Ok(paths)
}

/// Lists the routes of at most `max_steps` steps that leave `start_point` at
/// `start_time` and end on first reaching `target_point`, in the order in
/// which a depth-first walk of the course finds them. No leg is sailed more
/// than [`LEG_CAP`] times on such a route. Where `max_paths` is given, no
/// more than that many routes are listed: the first ones found.
///
/// A start or target index that is not the index of a buoy is an error, and
/// so is a target that is the start.
///
/// Every route listed ends at the target, touches it at no earlier step and
/// keeps every limit. At least one
/// route is listed wherever the course leads from the start to the target
/// within `max_steps` edges along start lines and legs that may be sailed at
/// all, unless `max_paths` is zero.
pub fn explore_target_paths(
    data: &RegattaData,
    start_point: usize,
    target_point: usize,
    start_time: i64,
    max_steps: usize,
    max_paths: Option<usize>,
) -> (result: Result<Vec<Path>, ExploreError>)
    requires
        data.wf(),
        max_steps <= MAX_STEPS,
        -MAX_START_TIME <= start_time <= MAX_START_TIME,
    ensures
        match result {
            Ok(paths) => {
                &&& start_point < data.boeien@.len()
                &&& target_point < data.boeien@.len()
                &&& start_point != target_point
                &&& paths_view(paths@) == capped(
                    search(
                        *data,
                        SearchMode::ToTarget(target_point),
                        initial_frame(*data, start_point, start_time as int, max_steps as nat),
                    ),
                    cap_of(max_paths),
                )
            },
            Err(error) => {
                if start_point >= data.boeien@.len() {
                    error == ExploreError::InvalidStartPoint(start_point)
                } else if target_point >= data.boeien@.len() {
                    error == ExploreError::InvalidTargetPoint(target_point)
                } else {
                    start_point == target_point && error == ExploreError::TargetIsStart(start_point)
                }
            },
        },
        result matches Ok(paths) ==> paths@.len() <= cap_of(max_paths),
        result matches Ok(paths) ==> forall|i: int|
            0 <= i < paths@.len() ==> is_target_route(
                *data,
                start_point,
                target_point,
                start_time as int,
                max_steps as nat,
                (#[trigger] paths@[i])@,
            ),
        result matches Ok(paths) ==> (max_paths != Some(0usize) && (exists|hops: Seq<(usize, RegattaEdge)>|
            reaches(*data, start_point, target_point, max_steps as nat, hops)) ==> paths@.len() >= 1),
{
    if start_point >= data.boeien.len() {
        return Err(ExploreError::InvalidStartPoint(start_point));
    }
    if target_point >= data.boeien.len() {
        return Err(ExploreError::InvalidTargetPoint(target_point));
    }
    if start_point == target_point {
        return Err(ExploreError::TargetIsStart(start_point));
    }
    let paths = explore_from(
        data,
        SearchMode::ToTarget(target_point),
        start_point,
        start_time,
        max_steps,
        max_paths,
    );
    proof {
        let listed = paths_view(paths@);
        lemma_target_search_lists(
            *data,
            start_point,
            target_point,
            start_time as int,
            max_steps as nat,
            cap_of(max_paths),
            listed,
        );
        assert forall|i: int| 0 <= i < paths@.len() implies is_target_route(
            *data,
            start_point,
            target_point,
            start_time as int,
            max_steps as nat,
            (#[trigger] paths@[i])@,
        ) by {
            assert(listed[i] == paths@[i]@);
        }
    }
    Ok(paths)
}

} // verus!
