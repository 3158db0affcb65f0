use mray::text::{parse_primitive, parse_primitives, split_tokens, ParseError, PrimitiveKind};

#[test]
fn tokens_split_on_any_white_space() {
    assert_eq!(split_tokens("  a bc\t d\n"), vec!["a", "bc", "d"]);
    assert_eq!(split_tokens("x\u{3000}y\u{a0}z"), vec!["x", "y", "z"]);
    assert!(split_tokens("").is_empty());
    assert!(split_tokens(" \t ").is_empty());
}

#[test]
fn fill_only_triangle_parses() {
    let p = parse_primitive("p 1 0 0 1 0 0 10 0 10 10").unwrap();
    assert_eq!(p.kind, PrimitiveKind::Fill);
    assert_eq!(p.colors, vec!["1", "0", "0", "1"]);
    assert_eq!(p.coords, vec!["0", "0", "10", "0", "10", "10"]);
}

#[test]
fn bordered_polygon_takes_eight_channels() {
    let p = parse_primitive("P 0 1 0 0.7 0 0 1 0.7 0.2 0.1 0.26 0.2").unwrap();
    assert_eq!(p.kind, PrimitiveKind::Bordered);
    assert_eq!(p.colors, vec!["0", "1", "0", "0.7", "0", "0", "1", "0.7"]);
    assert_eq!(p.coords, vec!["0.2", "0.1", "0.26", "0.2"]);
}

#[test]
fn both_line_tags_parse() {
    let a = parse_primitive("l 1 1 1 1 0 0 5 5").unwrap();
    let b = parse_primitive("L 1 1 1 1 0 0 5 5").unwrap();
    assert_eq!(a.kind, PrimitiveKind::Lines);
    assert_eq!(b.kind, PrimitiveKind::Lines);
    assert_eq!(a.coords, b.coords);
}

#[test]
fn line_without_points_parses_empty() {
    let p = parse_primitive("l 1 1 1 1").unwrap();
    assert!(p.coords.is_empty());
}

#[test]
fn each_error_has_its_input() {
    assert_eq!(parse_primitive("").err(), Some(ParseError::EmptyLine));
    assert_eq!(parse_primitive("   ").err(), Some(ParseError::EmptyLine));
    assert_eq!(parse_primitive("x 1 1 1 1").err(), Some(ParseError::UnknownTag));
    assert_eq!(parse_primitive("pp 1 1 1 1").err(), Some(ParseError::UnknownTag));
    assert_eq!(parse_primitive("P 1 1 1 1 1 1 1").err(), Some(ParseError::MissingColor));
    assert_eq!(parse_primitive("l 1 1").err(), Some(ParseError::MissingColor));
    assert_eq!(parse_primitive("l 1 1 1 1 0 0 5").err(), Some(ParseError::OddCoordinates));
}

#[test]
fn many_lines_parse_in_order_or_fail_on_the_first_error() {
    let ok = parse_primitives(&vec!["l 1 1 1 1 0 0 1 1", "p 1 0 0 1 0 0 1 0 1 1"]).unwrap();
    assert_eq!(ok.len(), 2);
    assert_eq!(ok[0].kind, PrimitiveKind::Lines);
    assert_eq!(ok[1].kind, PrimitiveKind::Fill);
    let bad = parse_primitives(&vec!["l 1 1 1 1", "q", "l 1 1 1 1 0"]);
    assert_eq!(bad.err(), Some(ParseError::UnknownTag));
    assert!(parse_primitives(&vec![]).unwrap().is_empty());
}
