use uurs24::data::{Boei, Rak, RegattaData, Start};
use uurs24::optimize::{estimate_leg_performance, travel_time_of};
use uurs24::units::gap_between;
use uurs24::polar::{find_closest_index, PolarData};
use uurs24::polar_text::{parse_number, parse_polar_table, split_cells, split_lines, thousandth_of, PolarError};
use uurs24::wind::{interpolate_between, Wind, WindCondition, WindData};

fn milli(value: f64) -> i64 {
    (value * 1000.0).round() as i64
}

fn knots(value: i64) -> f64 {
    value as f64 / 1000.0
}

const POLARS: &str = "twa/tws;6;8;10;12;14;16;20
0;0;0;0;0;0;0;0
52;4.72;5.61;6.20;6.47;6.58;6.64;6.69
60;5.03;5.90;6.43;6.66;6.79;6.87;6.95
75;5.31;6.18;6.66;6.91;7.10;7.24;7.44
90;5.33;6.38;7.19;7.42;7.56;7.73;8.07
110;5.20;6.35;7.12;7.63;7.98;8.19;8.58
120;4.95;6.12;6.91;7.47;7.93;8.35;8.85
135;4.31;5.43;6.35;7.01;7.52;8.01;8.83
150;3.59;4.62;5.55;6.36;6.96;7.43;8.35
";

fn sample_polar() -> PolarData {
    parse_polar_table(POLARS).unwrap()
}

fn hourly(samples: &[(u32, f64, f64)]) -> WindData {
    WindData {
        conditions: samples
            .iter()
            .map(|(time, speed, angle)| WindCondition {
                time: *time,
                wind_speed: milli(*speed),
                wind_angle: milli(*angle),
            })
            .collect(),
    }
}

fn buoy(name: &str, kind: Option<&str>, resolved: bool) -> Boei {
    Boei {
        name: name.to_string(),
        buoy_type: kind.map(|k| k.to_string()),
        description: None,
        lat_min_sec: None,
        long_min_sec: None,
        lat_min: None,
        long_min: None,
        lat: if resolved { Some(52_500_000) } else { None },
        long: if resolved { Some(5_250_000) } else { None },
    }
}

fn two_buoys(raw_bearing: i64, wind: WindData) -> RegattaData {
    RegattaData {
        boeien: vec![buoy("P", None, true), buoy("Q", None, true)],
        starts: vec![],
        rakken: vec![],
        polar_data: sample_polar(),
        wind_data: wind,
        bearings: vec![vec![0, raw_bearing], vec![0, 0]],
    }
}

#[test]
fn test_polar_data_loading() {
    let polar_data = sample_polar();

    let expected_wind_speeds: Vec<i64> = vec![6.0, 8.0, 10.0, 12.0, 14.0, 16.0, 20.0].into_iter().map(milli).collect();
    assert_eq!(polar_data.wind_speeds, expected_wind_speeds);

    let expected_wind_angles: Vec<i64> =
        vec![0.0, 52.0, 60.0, 75.0, 90.0, 110.0, 120.0, 135.0, 150.0].into_iter().map(milli).collect();
    assert_eq!(polar_data.wind_angles, expected_wind_angles);

    assert_eq!(polar_data.boat_speeds.len(), expected_wind_angles.len());
    assert_eq!(polar_data.boat_speeds[0].len(), expected_wind_speeds.len());

    let speed = polar_data.get_boat_speed(milli(52.0), milli(6.0));
    assert!(speed.is_some());
    assert!((knots(speed.unwrap()) - 4.72).abs() < 0.01);

    let speed = polar_data.get_boat_speed(milli(90.0), milli(10.0));
    assert!(speed.is_some());
    assert!((knots(speed.unwrap()) - 7.19).abs() < 0.01);

    let speed = polar_data.get_boat_speed(milli(135.0), milli(20.0));
    assert!(speed.is_some());
    assert!((knots(speed.unwrap()) - 8.83).abs() < 0.01);
}

#[test]
fn polar_lookup_reads_the_nearest_cell() {
    let polar = sample_polar();
    // 57 degrees is nearer to 60 than to 52; 8.9 kt is nearer to 8 than to 10.
    assert_eq!(polar.get_boat_speed(milli(57.0), milli(8.9)), Some(milli(5.90)));
    // Every query inside the same cell reads the same value.
    assert_eq!(polar.get_boat_speed(milli(63.0), milli(7.1)), Some(milli(5.90)));
    // Beyond the axes the outermost entries are the nearest.
    assert_eq!(polar.get_boat_speed(milli(180.0), milli(45.0)), Some(milli(8.35)));
    assert_eq!(polar.get_boat_speed(milli(-10.0), milli(0.0)), Some(0));
}

#[test]
fn polar_lookup_resolves_ties_to_the_first_entry() {
    let polar = sample_polar();
    // 56 degrees is as far from 52 as from 60, 7 kt as far from 6 as from 8.
    assert_eq!(polar.get_boat_speed(milli(56.0), milli(7.0)), Some(milli(4.72)));
    assert_eq!(find_closest_index(&vec![10, 30, 30, 50], 30), Some(1));
    assert_eq!(find_closest_index(&vec![10, 30], 20), Some(0));
    assert_eq!(find_closest_index(&vec![30, 10], 20), Some(0));
    assert_eq!(find_closest_index(&vec![i64::MIN, i64::MAX], 0), Some(1));
    assert_eq!(find_closest_index(&vec![i64::MAX, i64::MIN], -1), Some(1));
    assert_eq!(find_closest_index(&vec![i64::MAX, i64::MIN], 0), Some(0));
}

#[test]
fn polar_lookup_on_an_empty_or_ragged_table_gives_nothing() {
    assert_eq!(PolarData::new().get_boat_speed(milli(90.0), milli(10.0)), None);
    assert_eq!(find_closest_index(&vec![], 5), None);
    let ragged = PolarData {
        wind_speeds: vec![milli(5.0), milli(10.0)],
        wind_angles: vec![milli(0.0), milli(90.0)],
        boat_speeds: vec![vec![milli(1.0), milli(2.0)], vec![milli(3.0)]],
    };
    assert!(!ragged.is_valid());
    assert_eq!(ragged.get_boat_speed(milli(90.0), milli(5.0)), Some(milli(3.0)));
    assert_eq!(ragged.get_boat_speed(milli(90.0), milli(10.0)), None);
    assert!(sample_polar().is_valid());
    assert!(!PolarData::new().is_valid());
}

#[test]
fn wind_between_two_observations_is_interpolated() {
    let wind = hourly(&[(0, 10.0, 90.0), (1, 14.0, 70.0), (3, 14.0, 130.0)]);
    assert_eq!(wind.get_wind_at_time(250), Some(Wind { wind_speed: 11_000, wind_angle: 85_000 }));
    assert_eq!(wind.get_wind_at_time(1_000), Some(Wind { wind_speed: 14_000, wind_angle: 70_000 }));
    assert_eq!(wind.get_wind_at_time(2_500), Some(Wind { wind_speed: 14_000, wind_angle: 115_000 }));
    // Rounded toward the earlier observation: 10 + 4 * 1/3 and 90 - 20 * 1/3.
    let uneven = hourly(&[(0, 0.010, 0.090), (3, 0.014, 0.070)]);
    assert_eq!(uneven.get_wind_at_time(1_000), Some(Wind { wind_speed: 11, wind_angle: 84 }));
    assert_eq!(interpolate_between(10, 14, 1, 3), 11);
    assert_eq!(interpolate_between(90, 70, 1, 3), 84);
    assert_eq!(interpolate_between(i64::MIN, i64::MAX, 1, 2), -1);
    assert_eq!(interpolate_between(i64::MAX, i64::MIN, i64::MAX, i64::MAX), i64::MIN);
}

#[test]
fn wind_outside_the_observed_range_is_the_boundary_observation() {
    let wind = hourly(&[(2, 10.0, 90.0), (3, 14.0, 70.0), (5, 18.0, 130.0)]);
    let first = Some(Wind { wind_speed: 10_000, wind_angle: 90_000 });
    let last = Some(Wind { wind_speed: 18_000, wind_angle: 130_000 });
    assert_eq!(wind.get_wind_at_time(-5_000), first);
    assert_eq!(wind.get_wind_at_time(0), first);
    assert_eq!(wind.get_wind_at_time(2_000), first);
    assert_eq!(wind.get_wind_at_time(5_000), last);
    assert_eq!(wind.get_wind_at_time(24_000), last);
    assert_eq!(wind.get_wind_at_time(i64::MIN), first);
    assert_eq!(wind.get_wind_at_time(i64::MAX), last);
    assert_eq!(WindData::new().get_wind_at_time(0), None);
}

#[test]
fn wind_at_an_hour_is_the_observation_of_that_hour() {
    let wind = hourly(&[(0, 10.0, 90.0), (1, 14.0, 70.0), (3, 18.0, 130.0)]);
    assert_eq!(
        wind.get_wind_at_hour(1),
        Some(&WindCondition { time: 1, wind_speed: 14_000, wind_angle: 70_000 })
    );
    assert_eq!(wind.get_wind_at_hour(2), None);
    assert_eq!(wind.get_all_conditions().len(), 3);
    assert!(wind.is_valid());
    assert!(!hourly(&[(1, 10.0, 90.0), (1, 14.0, 70.0)]).is_valid());
    assert!(!hourly(&[(2, 10.0, 90.0), (1, 14.0, 70.0)]).is_valid());
    assert!(!hourly(&[(0, 10.0, 361.0)]).is_valid());
    assert!(!hourly(&[(0, 10.0, -1.0)]).is_valid());
    assert!(hourly(&[(0, 10.0, 360.0)]).is_valid());
}

#[test]
fn leg_performance_combines_course_wind_and_polar() {
    let data = two_buoys(milli(30.0), hourly(&[(0, 10.0, 90.0), (24, 10.0, 90.0)]));
    let performance = estimate_leg_performance(&data, 0, 1, 3_000);
    assert_eq!(performance.course_bearing, 30_000);
    assert_eq!(performance.wind_direction, 90_000);
    assert_eq!(performance.wind_speed, 10_000);
    assert_eq!(performance.relative_bearing, 60_000);
    assert_eq!(performance.estimated_speed, milli(6.43));
}

#[test]
fn relative_bearing_is_folded_into_half_a_turn() {
    // Course 350, wind from 20: 330 apart, which is 30 on the other side.
    let data = two_buoys(milli(-10.0), hourly(&[(0, 8.0, 20.0)]));
    let performance = estimate_leg_performance(&data, 0, 1, 0);
    assert_eq!(performance.course_bearing, 350_000);
    assert_eq!(performance.relative_bearing, 30_000);
    // Exactly half a turn stays as it is.
    let data = two_buoys(milli(0.0), hourly(&[(0, 8.0, 180.0)]));
    assert_eq!(estimate_leg_performance(&data, 0, 1, 0).relative_bearing, 180_000);
    // A full turn apart is dead ahead.
    let data = two_buoys(milli(0.0), hourly(&[(0, 8.0, 360.0)]));
    assert_eq!(estimate_leg_performance(&data, 0, 1, 0).relative_bearing, 0);
}

#[test]
fn course_bearing_stays_below_a_full_turn() {
    for raw in [-180_000, -179_999, -1, 0, 1, 90_000, 179_999, 180_000] {
        for wind_angle in [0.0, 45.0, 180.0, 359.999, 360.0] {
            let data = two_buoys(raw, hourly(&[(0, 8.0, wind_angle)]));
            let performance = estimate_leg_performance(&data, 0, 1, 0);
            assert!((0..360_000).contains(&performance.course_bearing));
            assert!((0..=180_000).contains(&performance.relative_bearing));
        }
    }
    let data = two_buoys(-180_000, hourly(&[(0, 8.0, 0.0)]));
    assert_eq!(estimate_leg_performance(&data, 0, 1, 0).course_bearing, 180_000);
    let data = two_buoys(180_000, hourly(&[(0, 8.0, 0.0)]));
    assert_eq!(estimate_leg_performance(&data, 0, 1, 0).course_bearing, 180_000);
}

#[test]
fn leg_performance_is_the_same_on_every_call() {
    let data = two_buoys(milli(123.456), hourly(&[(0, 7.0, 200.0), (6, 19.0, 310.0)]));
    let first = estimate_leg_performance(&data, 0, 1, 2_345);
    let second = estimate_leg_performance(&data, 0, 1, 2_345);
    assert_eq!(first, second);
    assert_eq!(first.wind_speed, 11_690);
    assert_eq!(first.wind_direction, 242_991);
}

#[test]
fn buoys_are_found_by_name_and_kind() {
    let mut data = RegattaData::new();
    assert!(data.get_boei("FINISH").is_none());
    data.boeien = vec![
        buoy("START", Some("Startboei"), true),
        buoy("KG10", Some("Merkboei"), true),
        buoy("FINISH", Some("Finishboei"), false),
        buoy("KG10", None, false),
        buoy("WV19", Some("Merkboei"), true),
    ];
    assert_eq!(data.get_boei_index("START"), Some(0));
    assert_eq!(data.get_boei_index("FINISH"), Some(2));
    // A name given twice refers to the later buoy.
    assert_eq!(data.get_boei_index("KG10"), Some(3));
    assert_eq!(data.get_boei("KG10").unwrap().buoy_type, None);
    assert_eq!(data.get_boei_index("kg10"), None);
    assert!(data.get_boei("").is_none());
    let marks: Vec<&str> = data.get_boeien_by_type("Merkboei").iter().map(|b| b.name.as_str()).collect();
    assert_eq!(marks, vec!["KG10", "WV19"]);
    assert!(data.get_boeien_by_type("Boei").is_empty());
}

#[test]
fn coordinates_need_both_latitude_and_longitude() {
    let mut boei = buoy("X", None, false);
    assert!(!boei.has_coordinates());
    assert_eq!(boei.coordinates(), None);
    boei.lat = Some(53_083_667);
    assert!(!boei.has_coordinates());
    assert_eq!(boei.coordinates(), None);
    boei.long = Some(5_338_217);
    assert!(boei.has_coordinates());
    assert_eq!(boei.coordinates(), Some((53_083_667, 5_338_217)));
}

#[test]
fn data_set_validity_is_checked() {
    let mut data = two_buoys(0, hourly(&[(0, 8.0, 20.0)]));
    data.starts = vec![Start { from: "P".to_string(), to: "Q".to_string(), distance: 1_500, max_number: 1 }];
    data.rakken = vec![Rak { from: "Q".to_string(), to: "P".to_string(), distance: 2_500, max_number: 2 }];
    assert!(data.is_valid());
    assert_eq!(data.get_starts().len(), 1);
    assert_eq!(data.get_rakken().len(), 1);
    assert_eq!(data.get_polar_data().wind_speeds.len(), 7);
    assert_eq!(data.get_wind_data().conditions.len(), 1);

    data.rakken[0].distance = 0;
    assert!(!data.course_valid());
    data.rakken[0].distance = 1_000_000_001;
    assert!(!data.course_valid());
    data.rakken[0].distance = 1_000_000_000;
    assert!(data.course_valid());

    // An end without coordinates spoils the course, and so does an unknown name.
    data.boeien[1].long = None;
    assert!(!data.course_valid());
    data.boeien[1].long = Some(5_250_000);
    assert!(data.course_valid());
    data.rakken[0].from = "nowhere".to_string();
    assert!(!data.course_valid());
    data.rakken[0].from = "Q".to_string();
    data.starts[0].to = "nowhere".to_string();
    assert!(!data.course_valid());
    data.starts[0].to = "Q".to_string();
    assert!(data.course_valid());

    assert!(data.tables_valid());
    data.bearings[1][0] = 180_001;
    assert!(!data.bearings_valid());
    data.bearings[1][0] = -180_000;
    assert!(data.bearings_valid());
    data.bearings[0].push(0);
    assert!(!data.bearings_valid());
    assert!(!data.is_valid());
    assert!(!RegattaData::new().is_valid());
}

#[test]
fn travel_time_is_distance_over_speed_rounded_down() {
    assert_eq!(travel_time_of(1_000, 5_000), 200);
    assert_eq!(travel_time_of(7_500, 5_000), 1_500);
    assert_eq!(travel_time_of(1, 3), 333);
    assert_eq!(travel_time_of(1_000, 7_000), 142);
    assert_eq!(travel_time_of(0, 5_000), 0);
    assert_eq!(travel_time_of(1_000_000_000, 1), 1_000_000_000_000);
    // A speed that is not positive counts as one knot.
    assert_eq!(travel_time_of(1_250, 0), 1_250);
    assert_eq!(travel_time_of(1_250, -3_000), 1_250);
}

#[test]
fn gap_is_the_absolute_difference() {
    assert_eq!(gap_between(3, 10), 7);
    assert_eq!(gap_between(10, 3), 7);
    assert_eq!(gap_between(-4, 4), 8);
    assert_eq!(gap_between(5, 5), 0);
    assert_eq!(gap_between(i64::MIN, i64::MAX), u64::MAX);
    assert_eq!(gap_between(i64::MAX, i64::MIN), u64::MAX);
}

fn chars(text: &str) -> Vec<char> {
    text.chars().collect()
}

fn texts(parts: &[Vec<char>]) -> Vec<String> {
    parts.iter().map(|part| part.iter().collect()).collect()
}

#[test]
fn polar_text_is_read_row_by_row() {
    let table = parse_polar_table("x;5;10.5\n0;1;2\n90;3.25;4.1239\n").unwrap();
    assert_eq!(table.wind_speeds, vec![5_000, 10_500]);
    assert_eq!(table.wind_angles, vec![0, 90_000]);
    assert_eq!(table.boat_speeds, vec![vec![1_000, 2_000], vec![3_250, 4_123]]);
    assert!(table.is_valid());
    // The first cell of the first line is not read, whatever it holds.
    let table = parse_polar_table(";7\r\n45;-1.5\r\n").unwrap();
    assert_eq!(table.wind_speeds, vec![7_000]);
    assert_eq!(table.wind_angles, vec![45_000]);
    assert_eq!(table.boat_speeds, vec![vec![-1_500]]);
    // A first line of one cell gives a table without wind speeds, whose rows are angles alone.
    let table = parse_polar_table("twa\n30\n60").unwrap();
    assert!(table.wind_speeds.is_empty());
    assert_eq!(table.wind_angles, vec![30_000, 60_000]);
    assert_eq!(table.boat_speeds, vec![Vec::<i64>::new(), Vec::new()]);
}

#[test]
fn polar_lines_of_another_width_are_passed_over() {
    let table = parse_polar_table("x;5;10\n\n0;1;2\nremark\n45;3\n90;3;4;\n180;5;6").unwrap();
    assert_eq!(table.wind_angles, vec![0, 180_000]);
    assert_eq!(table.boat_speeds, vec![vec![1_000, 2_000], vec![5_000, 6_000]]);
    // Even where they hold what is no number.
    let table = parse_polar_table("x;5\nnot;a;number\n10;2").unwrap();
    assert_eq!(table.wind_angles, vec![10_000]);
}

#[test]
fn polar_text_without_a_line_or_with_a_bad_number_is_no_table() {
    assert_eq!(parse_polar_table("").err(), Some(PolarError::Empty));
    assert_eq!(parse_polar_table("x;5;ten\n0;1;2").err(), Some(PolarError::InvalidNumber));
    assert_eq!(parse_polar_table("x;5;10\n0;1;2\nzero;1;2").err(), Some(PolarError::InvalidNumber));
    assert_eq!(parse_polar_table("x;5;10\n0;1;2,5").err(), Some(PolarError::InvalidNumber));
    assert_eq!(parse_polar_table("x;5;10\n0; 1;2").err(), Some(PolarError::InvalidNumber));
    assert_eq!(parse_polar_table("x;5;10\n0;1;").err(), Some(PolarError::InvalidNumber));
    assert_eq!(parse_polar_table("x;;10").err(), Some(PolarError::InvalidNumber));
    assert_eq!(parse_polar_table("x;1e1").err(), Some(PolarError::InvalidNumber));
    // A line feed alone is one empty line, which is a first line of one cell.
    assert!(parse_polar_table("\n").is_ok());
    // A carriage return that no line feed follows belongs to its cell.
    assert_eq!(parse_polar_table("x;5\r").err(), Some(PolarError::InvalidNumber));
}

#[test]
fn lines_and_cells_are_split() {
    assert_eq!(texts(&split_lines(&chars("a\nb\r\n\nc"))), vec!["a", "b", "", "c"]);
    assert_eq!(texts(&split_lines(&chars("a\n"))), vec!["a"]);
    assert_eq!(texts(&split_lines(&chars("a\r"))), vec!["a\r"]);
    assert_eq!(texts(&split_lines(&chars("\r\n"))), vec![""]);
    assert!(split_lines(&chars("")).is_empty());
    for text in ["a\nb\r\n\nc", "", "\n\n", "x\r\r\n", "\rz\n\r"] {
        let expected: Vec<String> = text.lines().map(|line| line.to_string()).collect();
        assert_eq!(texts(&split_lines(&chars(text))), expected);
    }
    assert_eq!(texts(&split_cells(&chars("a;b;;c"))), vec!["a", "b", "", "c"]);
    assert_eq!(texts(&split_cells(&chars(""))), vec![""]);
    assert_eq!(texts(&split_cells(&chars(";"))), vec!["", ""]);
    assert_eq!(parse_number(&chars("7.1999")), Some(7_199));
    assert_eq!(parse_number(&chars("-0.0009")), Some(0));
    assert_eq!(parse_number(&chars("-7.1999")), Some(-7_199));
    assert_eq!(parse_number(&chars("")), None);
    assert_eq!(thousandth_of(-1_999), -1);
    assert_eq!(thousandth_of(1_999), 1);
}
