use fsearch::request::{Config, SearchMode, parse_usize};

fn args(list: &[&str]) -> Vec<String> {
    list.iter().map(|s| s.to_string()).collect()
}

#[test]
fn build_minimal_file_request() {
    let a = args(&["prog", "file", "q", "dir"]);
    let c = Config::build(&a).unwrap();
    assert_eq!(c.query, "q");
    assert_eq!(c.target, "dir");
    assert_eq!(c.mode, SearchMode::NameSearch);
    assert_eq!(c.depth, Some(0));
    assert_eq!(c.num_threads, 2);
    assert!(!c.invert_match);
}

#[test]
fn build_full_content_request() {
    let a = args(&["prog", "content", "needle", "notes.txt", "3", "5", "--invert"]);
    let c = Config::build(&a).unwrap();
    assert_eq!(c.mode, SearchMode::ContentSearch);
    assert_eq!(c.depth, Some(3));
    assert_eq!(c.num_threads, 5);
    assert!(c.invert_match);
}

#[test]
fn build_rejects_short_argument_list() {
    let a = args(&["prog", "file"]);
    assert_eq!(Config::build(&a).err(), Some("not enough arguments"));
}

#[test]
fn build_rejects_missing_target() {
    let a = args(&["prog", "file", "q"]);
    assert_eq!(Config::build(&a).err(), Some("not enough arguments"));
}

#[test]
fn build_rejects_unknown_mode() {
    let a = args(&["prog", "walk", "q", "dir"]);
    assert_eq!(Config::build(&a).err(), Some("invalid search mode"));
}

#[test]
fn build_judges_mode_before_missing_target() {
    let a = args(&["prog", "walk", "q"]);
    assert_eq!(Config::build(&a).err(), Some("invalid search mode"));
}

#[test]
fn build_rejects_empty_query() {
    let a = args(&["prog", "file", "", "dir"]);
    assert_eq!(Config::build(&a).err(), Some("empty query"));
}

#[test]
fn build_rejects_zero_threads() {
    let a = args(&["prog", "file", "q", "dir", "1", "0"]);
    assert_eq!(Config::build(&a).err(), Some("thread count must be positive"));
}

#[test]
fn build_defaults_unparseable_numbers() {
    let a = args(&["prog", "file", "q", "dir", "deep", "many"]);
    let c = Config::build(&a).unwrap();
    assert_eq!(c.depth, Some(0));
    assert_eq!(c.num_threads, 2);
}

#[test]
fn build_accepts_plus_signed_depth() {
    let a = args(&["prog", "file", "q", "dir", "+7"]);
    let c = Config::build(&a).unwrap();
    assert_eq!(c.depth, Some(7));
}

#[test]
fn build_defaults_oversized_depth() {
    let a = args(&["prog", "file", "q", "dir", "99999999999999999999999999999"]);
    let c = Config::build(&a).unwrap();
    assert_eq!(c.depth, Some(0));
}

#[test]
fn parse_usize_reads_decimal() {
    assert_eq!(parse_usize("123"), Some(123));
    assert_eq!(parse_usize("0"), Some(0));
    assert_eq!(parse_usize("+42"), Some(42));
}

#[test]
fn parse_usize_rejects_bad_numerals() {
    assert_eq!(parse_usize(""), None);
    assert_eq!(parse_usize("+"), None);
    assert_eq!(parse_usize("12a"), None);
    assert_eq!(parse_usize("-3"), None);
    assert_eq!(parse_usize("99999999999999999999999999999"), None);
}
