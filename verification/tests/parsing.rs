use bookscan::model::Strategy;
use bookscan::model::TaskState;
use bookscan::parse::ParseError;

const SAMPLE: &[u8] = b"3 2 2\n3 5 2\n2 1 1\n0 1\n1 1 1\n2\n";

#[test]
fn parse_sample() {
    let st = TaskState::parse_in(SAMPLE).unwrap();
    assert_eq!(st.duration, 2);
    assert_eq!(st.book_scores, vec![3, 5, 2]);
    assert_eq!(st.libraries.len(), 2);
    assert_eq!(st.libraries[0].signup_time, 1);
    assert_eq!(st.libraries[0].books_per_day, 1);
    assert_eq!(st.libraries[0].books, vec![true, true, false]);
    assert_eq!(st.libraries[1].books, vec![false, false, true]);
    assert_eq!(st.cur_time, 0);
    assert_eq!(st.cur_libraries, vec![true, true]);
    assert_eq!(st.cur_books, vec![true, true, true]);
    assert!(st.takes.is_empty());
}

#[test]
fn parse_then_run() {
    let mut st = TaskState::parse_in(SAMPLE).unwrap();
    st.run_all(Strategy::Greedy);
    assert_eq!(st.takes.len(), 1);
    assert_eq!(st.takes[0].library, 0);
    assert_eq!(st.takes[0].books, vec![1]);
    assert_eq!(st.score(), 5);
}

#[test]
fn parse_without_trailing_newline() {
    let st = TaskState::parse_in(b"3 2 2\n3 5 2\n2 1 1\n0 1\n1 1 1\n2").unwrap();
    assert_eq!(st.libraries[1].books, vec![false, false, true]);
}

#[test]
fn parse_empty_input() {
    assert!(matches!(TaskState::parse_in(b""), Err(ParseError::MalformedInput)));
}

#[test]
fn parse_score_count_mismatch() {
    // The header declares three books but the score line holds two.
    let r = TaskState::parse_in(b"3 2 2\n3 5\n2 1 1\n0 1\n1 1 1\n2\n");
    assert!(matches!(r, Err(ParseError::MalformedInput)));
}

#[test]
fn parse_score_too_large() {
    let r = TaskState::parse_in(b"1 1 2\n70000\n1 1 1\n0\n");
    assert!(matches!(r, Err(ParseError::MalformedInput)));
}

#[test]
fn parse_book_id_out_of_range() {
    let r = TaskState::parse_in(b"3 1 2\n3 5 2\n1 1 1\n7\n");
    assert!(matches!(r, Err(ParseError::MalformedInput)));
}

#[test]
fn parse_library_count_mismatch() {
    // The library declares two books but lists one.
    let r = TaskState::parse_in(b"3 1 2\n3 5 2\n2 1 1\n0\n");
    assert!(matches!(r, Err(ParseError::MalformedInput)));
}

#[test]
fn parse_missing_library_lines() {
    let r = TaskState::parse_in(b"3 2 2\n3 5 2\n2 1 1\n0 1\n");
    assert!(matches!(r, Err(ParseError::MalformedInput)));
}

#[test]
fn parse_junk_token() {
    let r = TaskState::parse_in(b"3 2 x\n3 5 2\n2 1 1\n0 1\n1 1 1\n2\n");
    assert!(matches!(r, Err(ParseError::MalformedInput)));
}

#[test]
fn parse_doubled_space() {
    // A doubled separator makes an empty token, which is not a number.
    let r = TaskState::parse_in(b"3 2 2\n3  5 2\n2 1 1\n0 1\n1 1 1\n2\n");
    assert!(matches!(r, Err(ParseError::MalformedInput)));
}

#[test]
fn parse_number_overflow() {
    let r = TaskState::parse_in(b"3 2 99999999999\n3 5 2\n2 1 1\n0 1\n1 1 1\n2\n");
    assert!(matches!(r, Err(ParseError::MalformedInput)));
}

#[test]
fn parse_zero_budget_runs_empty() {
    let mut st = TaskState::parse_in(b"3 2 0\n3 5 2\n2 1 1\n0 1\n1 1 1\n2\n").unwrap();
    st.run_all(Strategy::Greedy);
    assert!(st.takes.is_empty());
    assert_eq!(st.score(), 0);
}

#[test]
fn parse_ignores_extra_header_tokens() {
    // Only the first three header numbers count; the rest of the line is
    // ignored, as long as the third token ends cleanly.
    let st = TaskState::parse_in(b"3 2 2 9 9\n3 5 2\n2 1 1\n0 1\n1 1 1\n2\n").unwrap();
    assert_eq!(st.duration, 2);
}

#[test]
fn parse_duplicate_book_reduces_count() {
    // A book listed twice sets one bit, so the declared count of two is
    // not met.
    let r = TaskState::parse_in(b"3 1 2\n3 5 2\n2 1 1\n0 0\n");
    assert!(matches!(r, Err(ParseError::MalformedInput)));
}
