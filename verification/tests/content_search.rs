use fsearch::content::search_lines;
use fsearch::events::MatchEvent;

fn line_match(n: usize, text: &str) -> MatchEvent {
    MatchEvent::LineMatch { line_number: n, text: text.to_string() }
}

fn sample_lines() -> Vec<String> {
    vec!["foo".to_string(), "bar".to_string(), "foobar".to_string()]
}

#[test]
fn content_mode_matches_lines_one_and_three() {
    let results = search_lines(&sample_lines(), "foo", false);
    assert_eq!(results, vec![line_match(1, "foo"), line_match(3, "foobar")]);
}

#[test]
fn content_mode_inverted_matches_line_two_only() {
    let results = search_lines(&sample_lines(), "foo", true);
    assert_eq!(results, vec![line_match(2, "bar")]);
}

#[test]
fn content_mode_empty_file_yields_nothing() {
    let results = search_lines(&Vec::new(), "foo", false);
    assert_eq!(results, vec![]);
}

#[test]
fn content_mode_empty_query_selects_every_line() {
    let results = search_lines(&sample_lines(), "", false);
    assert_eq!(
        results,
        vec![line_match(1, "foo"), line_match(2, "bar"), line_match(3, "foobar")]
    );
}
