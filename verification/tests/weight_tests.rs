use prune_graph::weight::{format_scaled, parse_weight, ParsedWeight};

fn num(s: &str, p: u8) -> i64 {
    match parse_weight(s, p) {
        Some(ParsedWeight::Value(v)) => v,
        other => panic!("expected a numeric weight for {:?}, got {:?}", s, other),
    }
}

#[test]
fn test_round() {
    assert_eq!(num("4.36", 2), 436);
    assert_eq!(num("4.363", 2), 436);
    assert_eq!(num("4.368", 2), 437);
    assert_eq!(num("4.36534", 2), 437);
    assert_eq!(num("0.999670", 4), 9997);
    assert_eq!(num("0.999719", 4), 9997);
    assert_eq!(num("0.999800", 4), 9998);
}

#[test]
fn test_round_half_away_from_zero() {
    assert_eq!(num("0.5", 0), 1);
    assert_eq!(num("-0.5", 0), -1);
    assert_eq!(num("2.5", 0), 3);
    assert_eq!(num("0.25", 1), 3);
    assert_eq!(num("-0.25", 1), -3);
}

#[test]
fn test_parse_signs_and_forms() {
    assert_eq!(num("+4.2", 1), 42);
    assert_eq!(num("-4.2", 1), -42);
    assert_eq!(num("7", 3), 7000);
    assert_eq!(num("7.", 3), 7000);
    assert_eq!(num(".5", 1), 5);
    assert_eq!(num("007", 0), 7);
    assert_eq!(num("0.0001", 4), 1);
}

#[test]
fn test_parse_nan_markers() {
    assert_eq!(parse_weight("nan", 4), Some(ParsedWeight::NotANumber));
    assert_eq!(parse_weight("NaN", 4), Some(ParsedWeight::NotANumber));
    assert_eq!(parse_weight("NAN", 4), Some(ParsedWeight::NotANumber));
    assert_eq!(parse_weight("-NaN", 4), Some(ParsedWeight::NotANumber));
}

#[test]
fn test_parse_rejects_malformed() {
    assert_eq!(parse_weight("", 4), None);
    assert_eq!(parse_weight("abc", 4), None);
    assert_eq!(parse_weight("1.2.3", 4), None);
    assert_eq!(parse_weight(".", 4), None);
    assert_eq!(parse_weight("-", 4), None);
    assert_eq!(parse_weight("4,2", 4), None);
    // Out of representable range at this precision.
    assert_eq!(parse_weight("99999999999999999999", 4), None);
}

#[test]
fn test_format_scaled() {
    assert_eq!(format_scaled(437, 2), "4.37");
    assert_eq!(format_scaled(436, 2), "4.36");
    assert_eq!(format_scaled(9998, 4), "0.9998");
    assert_eq!(format_scaled(-125, 2), "-1.25");
    assert_eq!(format_scaled(5, 0), "5");
    assert_eq!(format_scaled(0, 4), "0.0000");
    assert_eq!(format_scaled(20000, 4), "2.0000");
}

#[test]
fn test_parse_format_round_trip() {
    for (s, p) in [("4.37", 2u8), ("0.9998", 4), ("-1.25", 2), ("123.4567", 4)] {
        let v = num(s, p);
        assert_eq!(format_scaled(v, p), *s);
    }
}
