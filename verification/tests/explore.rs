use uurs24::data::{Boei, Rak, RegattaData, Start};
use uurs24::optimize::{
    estimate_leg_performance, explore_paths, explore_target_paths, ExploreError, Path,
};
use uurs24::polar::PolarData;
use uurs24::wind::{WindCondition, WindData};

fn milli(value: f64) -> i64 {
    (value * 1000.0).round() as i64
}

fn bearing(from: (f64, f64), to: (f64, f64)) -> i64 {
    let (s_lat, s_lon) = (from.0.to_radians(), from.1.to_radians());
    let (t_lat, t_lon) = (to.0.to_radians(), to.1.to_radians());
    let d_lon = t_lon - s_lon;
    let degrees = (d_lon.sin() * t_lat.cos())
        .atan2(s_lat.cos() * t_lat.sin() - s_lat.sin() * t_lat.cos() * d_lon.cos())
        .to_degrees();
    milli(degrees)
}

fn buoy(name: &str, kind: Option<&str>, position: Option<(f64, f64)>) -> Boei {
    Boei {
        name: name.to_string(),
        buoy_type: kind.map(|k| k.to_string()),
        description: None,
        lat_min_sec: None,
        long_min_sec: None,
        lat_min: None,
        long_min: None,
        lat: position.map(|p| (p.0 * 1_000_000.0).round() as i64),
        long: position.map(|p| (p.1 * 1_000_000.0).round() as i64),
    }
}

fn bearings(positions: &[Option<(f64, f64)>]) -> Vec<Vec<i64>> {
    positions
        .iter()
        .map(|from| {
            positions
                .iter()
                .map(|to| match (from, to) {
                    (Some(a), Some(b)) => bearing(*a, *b),
                    _ => 0,
                })
                .collect()
        })
        .collect()
}

fn leg(from: &str, to: &str, nm: f64, max_number: u32) -> Rak {
    Rak { from: from.to_string(), to: to.to_string(), distance: milli(nm), max_number }
}

fn start_line(from: &str, to: &str, nm: f64, max_number: u32) -> Start {
    Start { from: from.to_string(), to: to.to_string(), distance: milli(nm), max_number }
}

fn flat_polar(knots: f64) -> PolarData {
    PolarData {
        wind_speeds: vec![milli(6.0), milli(10.0), milli(20.0)],
        wind_angles: vec![milli(0.0), milli(90.0), milli(180.0)],
        boat_speeds: vec![vec![milli(knots); 3]; 3],
    }
}

fn steady_wind(knots: f64, degrees: f64) -> WindData {
    WindData {
        conditions: (0..=24)
            .map(|hour| WindCondition { time: hour, wind_speed: milli(knots), wind_angle: milli(degrees) })
            .collect(),
    }
}

fn triangle(max_ab: u32, max_bc: u32) -> RegattaData {
    let positions = [Some((0.0, 0.0)), Some((0.0, 1.0)), Some((1.0, 1.0))];
    RegattaData {
        boeien: vec![
            buoy("A", None, positions[0]),
            buoy("B", None, positions[1]),
            buoy("C", None, positions[2]),
        ],
        starts: vec![],
        rakken: vec![leg("A", "B", 1.0, max_ab), leg("B", "C", 1.0, max_bc)],
        polar_data: flat_polar(5.0),
        wind_data: steady_wind(10.0, 90.0),
        bearings: bearings(&positions),
    }
}

fn visits(path: &Path) -> Vec<(usize, usize)> {
    path.steps.iter().map(|step| (step.from, step.to)).collect()
}

#[test]
fn three_buoys_two_steps() {
    let data = triangle(2, 2);
    let paths = explore_paths(&data, 0, 0, 2, None).unwrap();
    // A leg that may be sailed twice can be sailed straight back, so there
    // are two routes; the edges are taken in the order of the tables.
    assert_eq!(paths.len(), 2);
    assert_eq!(visits(&paths[0]), vec![(0, 1), (1, 0)]);
    assert_eq!(paths[0].total_distance, 2_000);
    assert_eq!(paths[0].end_time, 400);
    assert_eq!(visits(&paths[1]), vec![(0, 1), (1, 2)]);
    assert_eq!(paths[1].total_distance, 2_000);
    assert_eq!(paths[1].end_time, 400);
    assert_eq!(paths[1].steps[0].speed, 5_000);
    assert_eq!(paths[1].steps[0].start_time, 0);
    assert_eq!(paths[1].steps[0].end_time, 200);
    assert_eq!(paths[1].steps[1].start_time, 200);
    assert_eq!(paths[1].steps[1].end_time, 400);
}

#[test]
fn three_buoys_two_steps_with_single_use_legs_gives_one_route() {
    let data = triangle(1, 1);
    let paths = explore_paths(&data, 0, 0, 2, None).unwrap();
    assert_eq!(paths.len(), 1);
    assert_eq!(visits(&paths[0]), vec![(0, 1), (1, 2)]);
    assert_eq!(paths[0].total_distance, 2_000);
    assert_eq!(paths[0].end_time, 400);
}

#[test]
fn zero_steps_gives_one_empty_route() {
    let data = triangle(2, 2);
    let paths = explore_paths(&data, 1, 1_500, 0, None).unwrap();
    assert_eq!(paths.len(), 1);
    assert!(paths[0].steps.is_empty());
    assert_eq!(paths[0].end_time, 1_500);
    assert_eq!(paths[0].total_distance, 0);
    let capped = explore_paths(&data, 1, 1_500, 0, Some(3)).unwrap();
    assert_eq!(capped.len(), 1);
}

#[test]
fn max_paths_keeps_the_first_routes() {
    let data = triangle(2, 2);
    let all = explore_paths(&data, 1, 0, 2, None).unwrap();
    let all_visits: Vec<_> = all.iter().map(visits).collect();
    assert_eq!(
        all_visits,
        vec![
            vec![(1, 0), (0, 1)],
            vec![(1, 2), (2, 1)],
        ]
    );
    let one = explore_paths(&data, 1, 0, 2, Some(1)).unwrap();
    assert_eq!(one.len(), 1);
    assert_eq!(visits(&one[0]), all_visits[0]);
    let none = explore_paths(&data, 1, 0, 2, Some(0)).unwrap();
    assert!(none.is_empty());
}

#[test]
fn usage_limit_of_zero_closes_a_leg() {
    let data = triangle(0, 2);
    assert!(explore_paths(&data, 0, 0, 1, None).unwrap().is_empty());
    let from_b = explore_paths(&data, 1, 0, 1, None).unwrap();
    assert_eq!(from_b.len(), 1);
    assert_eq!(visits(&from_b[0]), vec![(1, 2)]);
}

#[test]
fn invalid_start_is_reported() {
    let data = triangle(2, 2);
    assert_eq!(explore_paths(&data, 3, 0, 2, None).err(), Some(ExploreError::InvalidStartPoint(3)));
    assert_eq!(
        explore_target_paths(&data, 7, 1, 0, 2, None).err(),
        Some(ExploreError::InvalidStartPoint(7))
    );
}

#[test]
fn invalid_target_is_reported() {
    let data = triangle(2, 2);
    assert_eq!(
        explore_target_paths(&data, 0, 3, 0, 2, None).err(),
        Some(ExploreError::InvalidTargetPoint(3))
    );
}

#[test]
fn target_equal_to_start_is_reported() {
    let data = triangle(2, 2);
    assert_eq!(
        explore_target_paths(&data, 1, 1, 0, 2, None).err(),
        Some(ExploreError::TargetIsStart(1))
    );
}

#[test]
fn target_search_stops_at_the_target() {
    let data = triangle(2, 2);
    let paths = explore_target_paths(&data, 0, 2, 0, 4, None).unwrap();
    let all_visits: Vec<_> = paths.iter().map(visits).collect();
    assert_eq!(
        all_visits,
        vec![
            vec![(0, 1), (1, 2)],
        ]
    );
    assert_eq!(paths[0].end_time, 400);
    assert!(explore_target_paths(&data, 0, 2, 0, 1, None).unwrap().is_empty());
}

#[test]
fn target_search_sails_no_leg_more_than_twice() {
    let positions = [Some((0.0, 0.0)), Some((0.0, 1.0)), Some((1.0, 1.0))];
    let mut data = triangle(5, 5);
    data.bearings = bearings(&positions);
    // A-B may be sailed five times, yet a route to C uses it at most twice:
    // A-B, B-A, A-B would need it a third time before reaching C.
    let paths = explore_target_paths(&data, 0, 2, 0, 5, None).unwrap();
    assert_eq!(paths.len(), 1);
    assert_eq!(visits(&paths[0]), vec![(0, 1), (1, 2)]);
    // Without the cap the fixed-depth search does sail it three times.
    let free = explore_paths(&data, 0, 0, 3, None).unwrap();
    assert!(free.iter().any(|p| visits(p) == vec![(0, 1), (1, 0), (0, 1)]));
}

#[test]
fn start_lines_are_sailed_one_way() {
    let positions = [Some((52.0, 5.0)), Some((52.1, 5.0)), Some((52.1, 5.2))];
    let data = RegattaData {
        boeien: vec![
            buoy("S", Some("Startboei"), positions[0]),
            buoy("M1", Some("Merkboei"), positions[1]),
            buoy("M2", Some("Merkboei"), positions[2]),
        ],
        starts: vec![start_line("S", "M1", 6.0, 1)],
        rakken: vec![leg("M1", "M2", 7.5, 2)],
        polar_data: flat_polar(5.0),
        wind_data: steady_wind(12.0, 225.0),
        bearings: bearings(&positions),
    };
    let paths = explore_paths(&data, 0, 0, 3, None).unwrap();
    assert_eq!(paths.len(), 1);
    assert_eq!(visits(&paths[0]), vec![(0, 1), (1, 2), (2, 1)]);
    assert_eq!(paths[0].total_distance, 21_000);
    assert_eq!(paths[0].end_time, 1_200 + 1_500 + 1_500);
    assert!(explore_paths(&data, 1, 0, 3, None).unwrap().is_empty());
}

#[test]
fn speed_depends_on_the_time_of_departure() {
    let positions = [Some((0.0, 0.0)), Some((0.0, 1.0)), Some((1.0, 1.0))];
    let mut data = triangle(2, 2);
    data.bearings = bearings(&positions);
    data.polar_data = PolarData {
        wind_speeds: vec![milli(5.0), milli(20.0)],
        wind_angles: vec![milli(0.0), milli(90.0)],
        boat_speeds: vec![vec![milli(2.0), milli(4.0)], vec![milli(5.0), milli(10.0)]],
    };
    data.wind_data = WindData {
        conditions: vec![
            WindCondition { time: 0, wind_speed: milli(5.0), wind_angle: milli(0.0) },
            WindCondition { time: 1, wind_speed: milli(25.0), wind_angle: milli(0.0) },
        ],
    };
    // Leaving B for C (course 0) into a northerly wind: 2 kt at the start, 4 kt an hour later.
    let early = estimate_leg_performance(&data, 1, 2, 0);
    assert_eq!(early.estimated_speed, 2_000);
    let late = estimate_leg_performance(&data, 1, 2, 1_000);
    assert_eq!(late.estimated_speed, 4_000);
    // A to B (course 90) is a beam reach at 5 kt and takes 0.2 h; B to C then
    // leaves in a wind of 9 kt, still nearest to the 5 kt column.
    let paths = explore_paths(&data, 0, 0, 2, None).unwrap();
    let through = paths.iter().find(|path| visits(path) == vec![(0, 1), (1, 2)]).unwrap();
    assert_eq!(through.steps[0].speed, 5_000);
    assert_eq!(through.steps[0].end_time, 200);
    assert_eq!(through.steps[1].speed, 2_000);
    assert_eq!(through.steps[1].end_time, 700);
}

#[test]
fn zero_speed_counts_as_one_knot() {
    let mut data = triangle(1, 1);
    data.polar_data = flat_polar(0.0);
    let paths = explore_paths(&data, 0, 0, 1, None).unwrap();
    assert_eq!(paths.len(), 1);
    assert_eq!(paths[0].steps[0].speed, 0);
    assert_eq!(paths[0].end_time, 1_000);
}

fn square() -> RegattaData {
    let positions = [Some((52.0, 5.0)), Some((52.0, 5.1)), Some((52.1, 5.1)), Some((52.1, 5.0))];
    RegattaData {
        boeien: vec![
            buoy("A", None, positions[0]),
            buoy("B", None, positions[1]),
            buoy("C", None, positions[2]),
            buoy("D", None, positions[3]),
        ],
        starts: vec![start_line("A", "B", 2.0, 1)],
        rakken: vec![
            leg("A", "B", 3.0, 5),
            leg("B", "C", 4.0, 5),
            leg("C", "A", 5.0, 1),
            leg("C", "D", 6.0, 5),
        ],
        polar_data: flat_polar(6.0),
        wind_data: steady_wind(10.0, 270.0),
        bearings: bearings(&positions),
    }
}

#[test]
fn routes_to_a_target_end_there_and_keep_every_limit() {
    let data = square();
    let paths = explore_target_paths(&data, 0, 3, 0, 7, None).unwrap();
    assert!(!paths.is_empty());
    let leg_ends = [(0usize, 1usize), (1, 2), (2, 0), (2, 3)];
    let leg_lengths = [3_000i64, 4_000, 5_000, 6_000];
    let leg_limits = [5usize, 5, 1, 5];
    for path in &paths {
        assert!(path.steps.len() <= 7);
        assert_eq!(path.steps[0].from, 0);
        assert_eq!(path.steps.last().unwrap().to, 3);
        // The target is reached once, at the end.
        assert!(path.steps.iter().all(|step| step.from != 3));
        for pair in path.steps.windows(2) {
            assert_eq!(pair[0].to, pair[1].from);
            assert_eq!(pair[0].end_time, pair[1].start_time);
        }
        let mut start_line_uses = 0;
        let mut leg_uses = [0usize; 4];
        for step in &path.steps {
            if step.distance == 2_000 {
                assert_eq!((step.from, step.to), (0, 1));
                start_line_uses += 1;
            } else {
                let leg = leg_lengths.iter().position(|length| *length == step.distance).unwrap();
                let (a, b) = leg_ends[leg];
                assert!((step.from, step.to) == (a, b) || (step.from, step.to) == (b, a));
                leg_uses[leg] += 1;
            }
            assert_eq!(step.speed, 6_000);
            assert_eq!(step.end_time - step.start_time, step.distance * 1_000 / 6_000);
        }
        assert!(start_line_uses <= 1);
        for leg in 0..4 {
            assert!(leg_uses[leg] <= 2);
            assert!(leg_uses[leg] <= leg_limits[leg]);
        }
        assert_eq!(path.total_distance, path.steps.iter().map(|step| step.distance).sum::<i64>());
        assert_eq!(path.end_time, path.steps.last().unwrap().end_time);
    }
    // Along A-B, B-C and C-D.
    assert!(paths.iter().any(|path| visits(path) == vec![(0, 1), (1, 2), (2, 3)] && path.total_distance == 13_000));
    // A-B, B-A, A-B is open as long as the start line takes one of the two crossings from A.
    assert!(paths.iter().any(|path| path.steps.len() == 5
        && visits(path)[..3] == [(0, 1), (1, 0), (0, 1)]));
    assert!(paths.iter().all(|path| {
        let ab = path.steps.iter().filter(|s| s.distance == 3_000).count();
        ab <= 2
    }));
    let few = explore_target_paths(&data, 0, 3, 0, 7, Some(2)).unwrap();
    assert_eq!(few.len(), 2);
    assert_eq!(visits(&few[0]), visits(&paths[0]));
    assert_eq!(visits(&few[1]), visits(&paths[1]));
}

#[test]
fn fixed_depth_routes_have_the_asked_number_of_steps() {
    let data = square();
    for steps in 0..5usize {
        let paths = explore_paths(&data, 0, 250, steps, None).unwrap();
        assert!(!paths.is_empty());
        for path in &paths {
            assert_eq!(path.steps.len(), steps);
            if steps > 0 {
                assert_eq!(path.steps[0].from, 0);
                assert_eq!(path.steps[0].start_time, 250);
            } else {
                assert_eq!(path.end_time, 250);
            }
        }
    }
    // From A the start line comes first, then the legs in table order.
    let first_steps: Vec<(usize, i64)> = explore_paths(&data, 0, 0, 1, None)
        .unwrap()
        .iter()
        .map(|path| (path.steps[0].to, path.steps[0].distance))
        .collect();
    assert_eq!(first_steps, vec![(1, 2_000), (1, 3_000), (2, 5_000)]);
    let from_c: Vec<(usize, i64)> = explore_paths(&data, 2, 0, 1, None)
        .unwrap()
        .iter()
        .map(|path| (path.steps[0].to, path.steps[0].distance))
        .collect();
    assert_eq!(from_c, vec![(1, 4_000), (0, 5_000), (3, 6_000)]);
}

#[test]
fn a_target_out_of_reach_gives_no_route() {
    let mut data = square();
    data.rakken[3].max_number = 0;
    assert!(explore_target_paths(&data, 0, 3, 0, 7, None).unwrap().is_empty());
    let data = square();
    assert!(explore_target_paths(&data, 0, 3, 0, 1, None).unwrap().is_empty());
    let shortest = explore_target_paths(&data, 0, 3, 0, 2, None).unwrap();
    assert_eq!(shortest.len(), 1);
    assert_eq!(visits(&shortest[0]), vec![(0, 2), (2, 3)]);
    assert_eq!(explore_target_paths(&data, 0, 3, 0, 3, None).unwrap().len(), 3);
}
