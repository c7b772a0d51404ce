use deepnest::path_data::tokenize;
use deepnest::path_data::parse_path;
use deepnest::path_data::serialize;
use deepnest::path_data::params_count_for;
use deepnest::path_data::TokenType;
use deepnest::path_data::Segment;

#[test]
fn test_tokenize() {
    let input = "M10,20 L30,40";
    let tokens = tokenize(input);
    assert_eq!(tokens.last().unwrap().kind, TokenType::EOD);
}

#[test]
fn test_parse_and_serialize() {
    let path_data = "M10,20 L30,40 50,60";
    let segments = parse_path(path_data).expect("Parsing failed");
    let serialized = serialize(&segments);
    assert!(!serialized.is_empty());
}

fn kinds_and_texts(d: &str) -> Vec<(TokenType, String)> {
    tokenize(d).into_iter().map(|t| (t.kind, t.text)).collect()
}

#[test]
fn tokenize_splits_commands_and_numbers() {
    let t = kinds_and_texts("M10,-20.5e1L.5 3");
    assert_eq!(
        t,
        vec![
            (TokenType::Command, "M".to_string()),
            (TokenType::Number, "10".to_string()),
            (TokenType::Number, "-20.5e1".to_string()),
            (TokenType::Command, "L".to_string()),
            (TokenType::Number, ".5".to_string()),
            (TokenType::Number, "3".to_string()),
            (TokenType::EOD, String::new()),
        ]
    );
}

#[test]
fn tokenize_skips_invalid_numbers_and_unknown_chars() {
    let t = kinds_and_texts("- x 1e z");
    assert_eq!(
        t,
        vec![
            (TokenType::Command, "z".to_string()),
            (TokenType::EOD, String::new()),
        ]
    );
    let u = kinds_and_texts("-.5-.");
    assert_eq!(
        u,
        vec![(TokenType::Number, "-.5".to_string()), (TokenType::EOD, String::new())]
    );
}

#[test]
fn params_count_table() {
    assert_eq!(params_count_for('A'), Some(7));
    assert_eq!(params_count_for('c'), Some(6));
    assert_eq!(params_count_for('h'), Some(1));
    assert_eq!(params_count_for('Q'), Some(4));
    assert_eq!(params_count_for('z'), Some(0));
    assert_eq!(params_count_for('x'), None);
}

fn keys_and_data(v: &[Segment]) -> Vec<(char, Vec<String>)> {
    v.iter().map(|s| (s.key, s.data.clone())).collect()
}

#[test]
fn parse_continues_moves_as_lines() {
    let segs = parse_path("M10,20 30,40 m1 2 3 4 Z").unwrap();
    assert_eq!(
        keys_and_data(&segs),
        vec![
            ('M', vec!["10".to_string(), "20".to_string()]),
            ('L', vec!["30".to_string(), "40".to_string()]),
            ('m', vec!["1".to_string(), "2".to_string()]),
            ('l', vec!["3".to_string(), "4".to_string()]),
            ('Z', vec![]),
        ]
    );
}

#[test]
fn parse_prepends_move_when_missing() {
    let segs = parse_path("L 5 6").unwrap();
    assert_eq!(
        keys_and_data(&segs),
        vec![
            ('M', vec!["0".to_string(), "0".to_string()]),
            ('L', vec!["5".to_string(), "6".to_string()]),
        ]
    );
}

#[test]
fn parse_drops_short_commands_and_fails_on_nothing() {
    let segs = parse_path("M1 2 L3 Z").unwrap();
    assert_eq!(
        keys_and_data(&segs),
        vec![('M', vec!["1".to_string(), "2".to_string()]), ('Z', vec![])]
    );
    assert_eq!(parse_path("").unwrap_err(), "No valid segments found in path");
    assert_eq!(parse_path("M1").unwrap_err(), "No valid segments found in path");
}

#[test]
fn serialize_writes_curve_commas() {
    let segs = parse_path("M0 0 C1 2 3 4 5 6 Q7 8 9 10 H11").unwrap();
    assert_eq!(serialize(&segs), "M 0 0 C 1 2, 3 4, 5 6 Q 7 8, 9 10 H 11");
}

use deepnest::path_data::parse_path_checked;

#[test]
fn checked_parse_reports_endless_data() {
    assert!(parse_path_checked("M0 0 Z 5").is_none());
    assert!(matches!(parse_path_checked("M1 2"), Some(Ok(v)) if v.len() == 1));
    assert!(matches!(parse_path_checked(""), Some(Err(_))));
}
