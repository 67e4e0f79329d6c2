use uurs24::coordinates::{is_space_char, parse_coordinate_chars, sixtieth_of, CoordinateError};
use uurs24::data::Boei;

fn degrees(micro: i64) -> f64 {
    micro as f64 / 1_000_000.0
}

fn sample() -> Boei {
    Boei {
        name: "TEST".to_string(),
        buoy_type: Some("Test".to_string()),
        description: Some("Test".to_string()),
        lat_min_sec: None,
        long_min_sec: None,
        lat_min: Some("53° 5,020'".to_string()),
        long_min: Some("5° 20,293'".to_string()),
        lat: None,
        long: None,
    }
}

#[test]
fn test_coordinate_parsing() {
    let mut boei = sample();

    // Test coordinate parsing
    let result = boei.parse_coordinates();
    assert!(result.is_ok(), "Failed to parse coordinates: {:?}", result.err());

    // Verify parsed values
    assert!(boei.lat.is_some(), "Latitude should be parsed");
    assert!(boei.long.is_some(), "Longitude should be parsed");

    // Check specific values: 5° 20,293' = 5 + 20.293/60 = 5.33822... (longitude)
    let expected_long = 5.0 + 20.293 / 60.0;
    assert!(
        (degrees(boei.long.unwrap()) - expected_long).abs() < 0.001,
        "Longitude parsing incorrect. Expected: {}, Got: {}",
        expected_long,
        degrees(boei.long.unwrap())
    );

    // Check latitude: 53° 5,020' = 53 + 5.020/60 = 53.08367... (latitude)
    let expected_lat = 53.0 + 5.020 / 60.0;
    assert!(
        (degrees(boei.lat.unwrap()) - expected_lat).abs() < 0.001,
        "Latitude parsing incorrect. Expected: {}, Got: {}",
        expected_lat,
        degrees(boei.lat.unwrap())
    );
}

#[test]
fn test_coordinate_parsing_edge_cases() {
    // Test with different formats
    let test_cases = vec![
        ("53° 5,020'", 53.0 + 5.020 / 60.0),
        ("0° 0,000'", 0.0),
        ("90° 30,500'", 90.0 + 30.5 / 60.0),
    ];

    for (input, expected) in test_cases {
        let result = Boei::parse_coordinate_string(input);
        assert!(result.is_ok(), "Failed to parse '{}': {:?}", input, result.err());
        let parsed = degrees(result.unwrap());
        assert!(
            (parsed - expected).abs() < 0.001,
            "Parsing '{}' failed. Expected: {}, Got: {}",
            input,
            expected,
            parsed
        );
    }
}

#[test]
fn test_coordinate_convenience_methods() {
    let mut boei = sample();

    // Initially no coordinates
    assert!(!boei.has_coordinates());
    assert!(boei.coordinates().is_none());

    // Parse coordinates
    boei.parse_coordinates().unwrap();

    // Now coordinates should be available
    assert!(boei.has_coordinates());
    let coords = boei.coordinates().unwrap();
    // coordinates() returns (latitude, longitude)
    assert!((degrees(coords.0) - (53.0 + 5.020 / 60.0)).abs() < 0.001); // latitude
    assert!((degrees(coords.1) - (5.0 + 20.293 / 60.0)).abs() < 0.001); // longitude
}

#[test]
fn positions_are_read_to_the_millionth_of_a_degree() {
    assert_eq!(Boei::parse_coordinate_string("53° 5,020'"), Ok(53_083_666));
    assert_eq!(Boei::parse_coordinate_string("5° 20,293'"), Ok(5_338_216));
    assert_eq!(Boei::parse_coordinate_string("0° 0,000'"), Ok(0));
    assert_eq!(Boei::parse_coordinate_string("90° 30,500'"), Ok(90_508_333));
    assert_eq!(Boei::parse_coordinate_string("52° 30.0'"), Ok(52_500_000));
    assert_eq!(Boei::parse_coordinate_string("52° 30"), Ok(52_500_000));
    assert_eq!(Boei::parse_coordinate_string("52.25° 0'"), Ok(52_250_000));
    assert_eq!(Boei::parse_coordinate_string("7°.6"), Ok(7_010_000));
    assert_eq!(Boei::parse_coordinate_string("7.°6."), Ok(7_100_000));
    // Digits beyond the sixth after the point are dropped.
    assert_eq!(Boei::parse_coordinate_string("1.9999999° 0"), Ok(1_999_999));
}

#[test]
fn minutes_and_seconds_are_read() {
    // 5 degrees, 20 minutes, 17.64 seconds.
    assert_eq!(Boei::parse_coordinate_string("5° 20' 17.64'"), Ok(5_338_233));
    assert_eq!(Boei::parse_coordinate_string("5° 20' 17.64''"), Ok(5_338_233));
    assert_eq!(Boei::parse_coordinate_string("5° 20 ' 30"), Ok(5_341_666));
    // With seconds, a comma is no decimal point.
    assert_eq!(Boei::parse_coordinate_string("5° 20' 17,64'"), Err(CoordinateError::InvalidNumber));
    assert_eq!(Boei::parse_coordinate_string("5° 20' '"), Err(CoordinateError::InvalidNumber));
    // Without a blank the part is decimal minutes, and the quote inside spoils the number.
    assert_eq!(Boei::parse_coordinate_string("5° 20'17.64'"), Err(CoordinateError::InvalidNumber));
}

#[test]
fn white_space_and_quotes_around_a_position_are_dropped() {
    assert_eq!(Boei::parse_coordinate_string("  \"53° 5,020'\" \t"), Ok(53_083_666));
    assert_eq!(Boei::parse_coordinate_string("\"\"53  °\u{a0}5,020''\""), Ok(53_083_666));
    assert_eq!(Boei::parse_coordinate_string("\u{3000}53°5,020\n"), Ok(53_083_666));
    // Quotes inside white space inside quotes are not dropped.
    assert_eq!(Boei::parse_coordinate_string("\" \"53° 5,020'"), Err(CoordinateError::InvalidNumber));
    assert!(is_space_char(' '));
    assert!(is_space_char('\u{2003}'));
    assert!(!is_space_char('\u{200b}'));
    assert!(!is_space_char('x'));
}

#[test]
fn signs_are_read() {
    assert_eq!(Boei::parse_coordinate_string("-5° 30"), Ok(-4_500_000));
    assert_eq!(Boei::parse_coordinate_string("+5° -30"), Ok(4_500_000));
    assert_eq!(Boei::parse_coordinate_string("-0° 30"), Ok(500_000));
    assert_eq!(Boei::parse_coordinate_string("0° -0,001"), Ok(-16));
    assert_eq!(Boei::parse_coordinate_string("0° 0' -59"), Ok(-16_388));
    assert_eq!(Boei::parse_coordinate_string("0° 0' -60"), Ok(-16_666));
    assert_eq!(sixtieth_of(-59), 0);
    assert_eq!(sixtieth_of(-60), -1);
    assert_eq!(sixtieth_of(119), 1);
}

#[test]
fn a_text_without_exactly_one_degree_sign_is_no_position() {
    for text in ["", "   ", "53 5,020'", "53° 5° 20'", "°°", "\"\""] {
        assert_eq!(Boei::parse_coordinate_string(text), Err(CoordinateError::InvalidFormat), "{:?}", text);
    }
}

#[test]
fn a_text_with_a_bad_number_is_no_position() {
    for text in [
        "°",
        "53°",
        "° 5",
        "x° 5",
        "53° y",
        "53° 5,0,2",
        "53° 5.0.2",
        "5,3° 2",
        "53° .",
        "53° +",
        "--53° 1",
        "5 3° 1",
        "1e2° 1",
        "53° 1,5x",
        "1000000001° 0",
        "0° 1000000001",
    ] {
        assert_eq!(Boei::parse_coordinate_string(text), Err(CoordinateError::InvalidNumber), "{:?}", text);
    }
    assert_eq!(Boei::parse_coordinate_string("1000000000° 1000000000"), Ok(1_016_666_666_666_666));
    let chars: Vec<char> = "12° 30".chars().collect();
    assert_eq!(parse_coordinate_chars(&chars), Ok(12_500_000));
}

#[test]
fn a_failed_longitude_leaves_the_latitude_resolved() {
    let mut boei = sample();
    boei.long_min = Some("five".to_string());
    boei.long = Some(1);
    assert_eq!(boei.parse_coordinates(), Err(CoordinateError::InvalidFormat));
    assert_eq!(boei.lat, Some(53_083_666));
    assert_eq!(boei.long, Some(1));

    let mut boei = sample();
    boei.lat_min = Some("5° x".to_string());
    boei.lat = Some(7);
    assert_eq!(boei.parse_coordinates(), Err(CoordinateError::InvalidNumber));
    assert_eq!(boei.lat, Some(7));
    assert_eq!(boei.long, None);

    let mut boei = sample();
    boei.lat_min = None;
    boei.lat = Some(7);
    assert_eq!(boei.parse_coordinates(), Ok(()));
    assert_eq!(boei.lat, Some(7));
    assert_eq!(boei.long, Some(5_338_216));
}
