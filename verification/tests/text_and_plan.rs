use fsearch::events::MatchEvent;
use fsearch::plan::{DirEntryInfo, plan_directory, should_visit};
use fsearch::text::{contains_str, is_selected, str_eq};
use fsearch::tree::child_path;

#[test]
fn child_path_joins_with_separator() {
    assert_eq!(child_path("root", "a"), "root/a");
    assert_eq!(child_path("", "a"), "/a");
}

#[test]
fn contains_str_finds_substrings() {
    assert!(contains_str("foobar", "oba"));
    assert!(contains_str("foobar", "foobar"));
    assert!(contains_str("foobar", ""));
    assert!(!contains_str("foobar", "baz"));
    assert!(!contains_str("ab", "abc"));
}

#[test]
fn is_selected_respects_invert() {
    assert!(is_selected("abc", "b", false));
    assert!(!is_selected("abc", "b", true));
    assert!(!is_selected("xyz", "b", false));
    assert!(is_selected("xyz", "b", true));
}

#[test]
fn str_eq_compares_by_characters() {
    assert!(str_eq("abc", "abc"));
    assert!(!str_eq("abc", "abd"));
    assert!(!str_eq("abc", "ab"));
    assert!(str_eq("", ""));
}

#[test]
fn should_visit_checks_the_bound() {
    assert!(should_visit(0, 0));
    assert!(should_visit(2, 5));
    assert!(!should_visit(1, 0));
}

fn info(path: &str, name: &str, is_dir: bool) -> DirEntryInfo {
    DirEntryInfo { path: path.to_string(), name: name.to_string(), is_dir }
}

#[test]
fn plan_directory_emits_matches_and_tasks() {
    let listing = Ok(vec![
        info("root/a", "a", true),
        info("root/b.txt", "b.txt", false),
        info("root/abc", "abc", true),
    ]);
    let plan = plan_directory("root", listing, "a", false, 0);
    assert_eq!(
        plan.events,
        vec![
            MatchEvent::NameMatch { path: "root/a".to_string() },
            MatchEvent::NameMatch { path: "root/abc".to_string() },
        ]
    );
    assert_eq!(plan.tasks.len(), 2);
    assert_eq!(plan.tasks[0].path, "root/a");
    assert_eq!(plan.tasks[0].depth, 1);
    assert_eq!(plan.tasks[1].path, "root/abc");
    assert_eq!(plan.tasks[1].depth, 1);
}

#[test]
fn plan_directory_reports_listing_failure() {
    let plan = plan_directory("root/bad", Err("permission denied".to_string()), "a", false, 2);
    assert_eq!(
        plan.events,
        vec![MatchEvent::TraversalError {
            path: "root/bad".to_string(),
            cause: "permission denied".to_string(),
        }]
    );
    assert_eq!(plan.tasks.len(), 0);
}
