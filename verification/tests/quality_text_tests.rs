use roma::quality_text::parse_quality_text;

#[test]
fn parses_a_complete_quality_text() {
    let q = parse_quality_text("Objectives: [0.1234, 0.5678], Rank: 1, Dist: 0.5000").unwrap();
    assert_eq!(q.objectives, vec!["0.1234".to_string(), "0.5678".to_string()]);
    assert_eq!(q.rank, Ok(Some(1)));
    assert_eq!(q.distance, Ok(Some("0.5000".to_string())));
}

#[test]
fn parses_missing_rank_and_distance() {
    let q = parse_quality_text("Objectives: [], Rank: N/A, Dist: N/A").unwrap();
    assert!(q.objectives.is_empty());
    assert_eq!(q.rank, Ok(None));
    assert_eq!(q.distance, Ok(None));
}

#[test]
fn reports_bracket_errors_first() {
    assert_eq!(
        parse_quality_text("Objectives: 0.1], Rank: 1").err(),
        Some("Missing objectives opening bracket '['".to_string())
    );
    assert_eq!(
        parse_quality_text("Objectives: [0.1, Rank: 1").err(),
        Some("Missing objectives closing bracket ']'".to_string())
    );
}

#[test]
fn reports_part_errors_separately() {
    let q = parse_quality_text("Objectives: [ 1 ], Rank: x, Dist: 2").unwrap();
    assert_eq!(q.objectives, vec!["1".to_string()]);
    assert_eq!(q.rank, Err("Invalid Rank format".to_string()));
    assert_eq!(q.distance, Ok(Some("2".to_string())));

    let q = parse_quality_text("Objectives: [1]").unwrap();
    assert_eq!(q.rank, Err("Missing 'Rank:' identifier".to_string()));
    assert_eq!(q.distance, Err("Missing 'Dist:' identifier".to_string()));
}

#[test]
fn rank_accepts_a_plus_sign_and_rejects_overflow() {
    let q = parse_quality_text("Objectives: [1], Rank: +7, Dist: N/A").unwrap();
    assert_eq!(q.rank, Ok(Some(7)));
    let q = parse_quality_text("Objectives: [1], Rank: 99999999999999999999999, Dist: N/A").unwrap();
    assert_eq!(q.rank, Err("Invalid Rank format".to_string()));
}
