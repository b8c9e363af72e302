use fsearch::events::MatchEvent;
use fsearch::tree::{Entry, Node, search_tree, search_tree_concurrent};

fn entry(name: &str, node: Node) -> Entry {
    Entry { name: name.to_string(), node }
}

fn name_match(path: &str) -> MatchEvent {
    MatchEvent::NameMatch { path: path.to_string() }
}

fn scenario_tree() -> Node {
    Node::Dir(vec![
        entry("a", Node::Dir(vec![entry("aaa", Node::File)])),
        entry("b.txt", Node::File),
        entry("abc", Node::Dir(vec![])),
    ])
}

#[test]
fn root_scenario_depth_zero() {
    let tree = scenario_tree();
    let results = search_tree("root", &tree, "a", false, 0);
    assert_eq!(results, vec![name_match("root/a"), name_match("root/abc")]);
}

#[test]
fn depth_one_reaches_nested_entry() {
    let tree = scenario_tree();
    let results = search_tree("root", &tree, "a", false, 1);
    assert_eq!(
        results,
        vec![name_match("root/a"), name_match("root/a/aaa"), name_match("root/abc")]
    );
}

#[test]
fn depth_bound_hides_deep_entries() {
    let deep = Node::Dir(vec![entry(
        "sub",
        Node::Dir(vec![entry("needle", Node::File)]),
    )]);
    let shallow = search_tree("top", &deep, "needle", false, 0);
    assert_eq!(shallow, vec![]);
    let full = search_tree("top", &deep, "needle", false, 1);
    assert_eq!(full, vec![name_match("top/sub/needle")]);
}

#[test]
fn inverted_name_search_reports_non_matches() {
    let tree = scenario_tree();
    let results = search_tree("root", &tree, "a", true, 0);
    assert_eq!(results, vec![name_match("root/b.txt")]);
}

#[test]
fn invert_partitions_entries() {
    let tree = scenario_tree();
    let normal = search_tree("root", &tree, "a", false, 0);
    let inverted = search_tree("root", &tree, "a", true, 0);
    assert_eq!(normal.len() + inverted.len(), 3);
    for ev in &normal {
        assert!(!inverted.contains(ev));
    }
}

#[test]
fn concurrency_replicates_results() {
    let tree = scenario_tree();
    let single = search_tree("root", &tree, "a", false, 0);
    let triple = search_tree_concurrent("root", &tree, "a", false, 0, 3);
    assert_eq!(triple.len(), 3 * single.len());
    let names = triple
        .iter()
        .filter(|e| matches!(e, MatchEvent::NameMatch { .. }))
        .count();
    assert_eq!(names, 3 * single.len());
}

#[test]
fn concurrency_zero_emits_nothing() {
    let tree = scenario_tree();
    let none = search_tree_concurrent("root", &tree, "a", false, 0, 0);
    assert_eq!(none, vec![]);
}

#[test]
fn unreadable_directory_is_isolated() {
    let tree = Node::Dir(vec![
        entry("good", Node::Dir(vec![entry("alpha", Node::File)])),
        entry("bad", Node::UnreadableDir),
        entry("also_a", Node::File),
    ]);
    let results = search_tree("root", &tree, "a", false, 1);
    let errors: Vec<&MatchEvent> = results
        .iter()
        .filter(|e| matches!(e, MatchEvent::TraversalError { .. }))
        .collect();
    assert_eq!(errors.len(), 1);
    assert_eq!(
        *errors[0],
        MatchEvent::TraversalError {
            path: "root/bad".to_string(),
            cause: "could not read directory".to_string(),
        }
    );
    assert!(results.contains(&name_match("root/good/alpha")));
    assert!(results.contains(&name_match("root/also_a")));
    assert!(results.contains(&name_match("root/bad")));
}

#[test]
fn nested_unreadable_directory_is_isolated() {
    let damaged = Node::Dir(vec![
        entry(
            "outer",
            Node::Dir(vec![entry("locked", Node::UnreadableDir), entry("alpha", Node::File)]),
        ),
        entry("beta_a", Node::File),
    ]);
    let intact = Node::Dir(vec![
        entry(
            "outer",
            Node::Dir(vec![entry("locked", Node::Dir(vec![])), entry("alpha", Node::File)]),
        ),
        entry("beta_a", Node::File),
    ]);
    let damaged_results = search_tree("root", &damaged, "a", false, 2);
    let intact_results = search_tree("root", &intact, "a", false, 2);
    assert_eq!(
        damaged_results,
        vec![
            MatchEvent::TraversalError {
                path: "root/outer/locked".to_string(),
                cause: "could not read directory".to_string(),
            },
            name_match("root/outer/alpha"),
            name_match("root/beta_a"),
        ]
    );
    let damaged_without_error: Vec<&MatchEvent> = damaged_results
        .iter()
        .filter(|e| matches!(e, MatchEvent::NameMatch { .. }))
        .collect();
    let intact_refs: Vec<&MatchEvent> = intact_results.iter().collect();
    assert_eq!(damaged_without_error, intact_refs);
}

#[test]
fn unreadable_directory_beyond_bound_is_silent() {
    let tree = Node::Dir(vec![entry("bad", Node::UnreadableDir)]);
    let results = search_tree("root", &tree, "zzz", false, 0);
    assert_eq!(results, vec![]);
}

#[test]
fn unreadable_root_reports_one_error() {
    let results = search_tree("root", &Node::UnreadableDir, "a", false, 0);
    assert_eq!(
        results,
        vec![MatchEvent::TraversalError {
            path: "root".to_string(),
            cause: "could not read directory".to_string(),
        }]
    );
}
