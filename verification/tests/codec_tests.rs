use kilter_core::codec::{parse_frames_lenient, parse_placements_and_roles, serialize_frames, ParseError};

#[test]
fn parse_strict_two_tokens() {
    let r = parse_placements_and_roles("p1234r13p5678r15");
    assert_eq!(r, Ok(vec![(1234, 13), (5678, 15)]));
}

#[test]
fn parse_strict_rejects_trailing_input() {
    let r = parse_placements_and_roles("p12r13x");
    assert_eq!(r, Err(ParseError::Malformed { offset: 6 }));
}

#[test]
fn parse_strict_rejects_empty() {
    let r = parse_placements_and_roles("");
    assert_eq!(r, Err(ParseError::Malformed { offset: 0 }));
}

#[test]
fn parse_lenient_empty_gives_empty() {
    let r = parse_frames_lenient("");
    assert_eq!(r, Vec::<(u32, u32)>::new());
}

#[test]
fn parse_lenient_stops_at_partial_token() {
    assert_eq!(parse_frames_lenient("p12r13x"), vec![(12, 13)]);
    assert_eq!(parse_frames_lenient("p12r13p9"), vec![(12, 13)]);
    assert_eq!(parse_frames_lenient("p12r13p9r"), vec![(12, 13)]);
}

#[test]
fn parse_strict_reports_first_bad_offset() {
    // Missing digits after the `p` marker.
    assert_eq!(
        parse_placements_and_roles("pr13"),
        Err(ParseError::Malformed { offset: 1 })
    );
    // Missing `r` marker after the digits.
    assert_eq!(
        parse_placements_and_roles("p12x13"),
        Err(ParseError::Malformed { offset: 3 })
    );
    // Missing digits after the `r` marker.
    assert_eq!(
        parse_placements_and_roles("p12r"),
        Err(ParseError::Malformed { offset: 4 })
    );
}

#[test]
fn parse_accepts_leading_zeros() {
    assert_eq!(parse_placements_and_roles("p007r013"), Ok(vec![(7, 13)]));
}

#[test]
fn parse_rejects_value_beyond_u32() {
    // 4294967296 == u32::MAX + 1; the digit run fails as a token.
    assert_eq!(
        parse_placements_and_roles("p4294967296r1"),
        Err(ParseError::Malformed { offset: 1 })
    );
    assert_eq!(parse_frames_lenient("p4294967296r1"), Vec::<(u32, u32)>::new());
    assert_eq!(parse_placements_and_roles("p4294967295r1"), Ok(vec![(4294967295, 1)]));
}

#[test]
fn serialize_is_token_concatenation() {
    let s = serialize_frames(&vec![(1, 13), (2, 14)]);
    assert_eq!(s, "p1r13p2r14");
    let s = serialize_frames(&vec![(1234, 13), (5678, 15)]);
    assert_eq!(s, "p1234r13p5678r15");
    let s = serialize_frames(&vec![]);
    assert_eq!(s, "");
}

#[test]
fn round_trip_parse_of_serialize() {
    let cases: Vec<Vec<(u32, u32)>> = vec![
        vec![(0, 0)],
        vec![(1, 13)],
        vec![(1234, 13), (5678, 15), (9, 12)],
        vec![(4294967295, 4294967295)],
        vec![(10, 13), (10, 14), (10, 15)],
    ];
    for pairs in cases {
        let text = serialize_frames(&pairs);
        assert_eq!(parse_placements_and_roles(&text), Ok(pairs.clone()));
        assert_eq!(parse_frames_lenient(&text), pairs);
    }
    // The empty sequence serializes to the empty string, which only the
    // lenient parser takes back.
    let text = serialize_frames(&vec![]);
    assert!(parse_placements_and_roles(&text).is_err());
    assert_eq!(parse_frames_lenient(&text), Vec::<(u32, u32)>::new());
}
