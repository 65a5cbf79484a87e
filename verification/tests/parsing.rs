use win_odds::parse::{parse_line, ParseError, ParsedRecord};

fn line(s: &str) -> Vec<u8> {
    s.as_bytes().to_vec()
}

fn ok_record(s: &str, stop: usize) -> ParsedRecord {
    match parse_line(&line(s), stop) {
        Ok(Some(rec)) => rec,
        _ => panic!("expected a record"),
    }
}

#[test]
fn parses_name_and_scores() {
    let rec = ok_record("alice, 10, 0, 20", usize::MAX);
    assert_eq!(rec.name, b"alice".to_vec());
    assert_eq!(rec.coin_history, vec![Some(10), None, Some(20)]);
    assert_eq!(rec.playcount, 2);
}

#[test]
fn trims_blanks_around_fields() {
    let rec = ok_record("  bob \t,\t 7 ,  9\r", usize::MAX);
    assert_eq!(rec.name, b"bob".to_vec());
    assert_eq!(rec.coin_history, vec![Some(7), Some(9)]);
}

#[test]
fn non_positive_scores_mark_unplayed_events() {
    let rec = ok_record("carol, -5, 3, 0", usize::MAX);
    assert_eq!(rec.coin_history, vec![None, Some(3), None]);
    assert_eq!(rec.playcount, 1);
}

#[test]
fn competitor_with_no_played_event_is_filtered() {
    assert!(matches!(parse_line(&line("dave, 0, -1, 0"), usize::MAX), Ok(None)));
    assert!(matches!(parse_line(&line("erin"), usize::MAX), Ok(None)));
}

#[test]
fn stop_limits_the_events_taken() {
    let rec = ok_record("fred, 1, 2, 3, 4", 2);
    assert_eq!(rec.coin_history, vec![Some(1), Some(2)]);
    assert!(matches!(parse_line(&line("gina, 0, 0, 5"), 2), Ok(None)));
}

#[test]
fn malformed_score_is_an_error() {
    assert!(matches!(
        parse_line(&line("hank, x"), usize::MAX),
        Err(ParseError::MalformedScore)
    ));
    assert!(matches!(
        parse_line(&line("iris, 10, "), usize::MAX),
        Err(ParseError::MalformedScore)
    ));
    assert!(matches!(
        parse_line(&line("judy, 1.5"), usize::MAX),
        Err(ParseError::MalformedScore)
    ));
}

#[test]
fn integer_bounds_match_i32() {
    let rec = ok_record("kate, 2147483647, -2147483648", usize::MAX);
    assert_eq!(rec.coin_history, vec![Some(2147483647), None]);
    assert!(matches!(
        parse_line(&line("liam, 2147483648"), usize::MAX),
        Err(ParseError::MalformedScore)
    ));
    assert!(matches!(
        parse_line(&line("mona, 99999999999999999999"), usize::MAX),
        Err(ParseError::MalformedScore)
    ));
}

#[test]
fn plus_sign_is_accepted() {
    let rec = ok_record("nora, +12", usize::MAX);
    assert_eq!(rec.coin_history, vec![Some(12)]);
}
