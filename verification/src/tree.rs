use vstd::prelude::*;

use crate::events::{EventV, MatchEvent, events_of};
use crate::text::{is_selected, selected};

verus! {

/// One entry of a directory listing in the in-memory model of a
/// filesystem tree.
pub struct Entry {
    pub name: String,
    pub node: Node,
}

/// A node of the model tree: a plain file, a readable directory with its
/// entries, or a directory whose listing fails.
pub enum Node {
    File,
    Dir(Vec<Entry>),
    UnreadableDir,
}

/// The diagnostic attached to a traversal error in the model engine.
pub open spec fn unreadable_cause() -> Seq<char> {
    "could not read directory"@
}

/// The full path of a directory entry: the directory's path, a
/// separator, and the entry's name.
pub open spec fn child_path_spec(dir: Seq<char>, name: Seq<char>) -> Seq<char> {
    dir + "/"@ + name
}

/// Every event the search emits for the subtree rooted at `node`, whose
/// own path is `path` and whose depth below the root is `depth`.
///
/// The depth test comes before the listing: a directory deeper than the
/// bound is not visited at all, so an unreadable directory beyond the
/// bound produces no error either.
pub open spec fn node_events(
    path: Seq<char>,
    node: Node,
    query: Seq<char>,
    invert: bool,
    bound: nat,
    depth: nat,
) -> Seq<EventV>
    decreases node, 0int, 0int,
{
    if depth > bound {
        Seq::empty()
    } else {
        match node {
            Node::File => Seq::empty(),
            Node::UnreadableDir => seq![EventV::Error { path, cause: unreadable_cause() }],
            Node::Dir(entries) => entries_events(path, entries@, query, invert, bound, depth, 0),
        }
    }
}

/// The events for the entries of a directory at `dir`, from index `i`
/// on: for each entry, its name match (if selected) followed by the
/// events of its subtree, in listing order.
pub open spec fn entries_events(
    dir: Seq<char>,
    entries: Seq<Entry>,
    query: Seq<char>,
    invert: bool,
    bound: nat,
    depth: nat,
    i: int,
) -> Seq<EventV>
    decreases entries, 1int, entries.len() - i,
{
    if i < 0 || i >= entries.len() {
        Seq::empty()
    } else {
        let e = entries[i];
        let p = child_path_spec(dir, e.name@);
        let hit: Seq<EventV> = if selected(e.name@, query, invert) {
            seq![EventV::Name { path: p }]
        } else {
            Seq::empty()
        };
        hit + node_events(p, e.node, query, invert, bound, (depth + 1) as nat)
            + entries_events(dir, entries, query, invert, bound, depth, i + 1)
    }
}

/// Build the full path of an entry inside the directory at `dir`.
pub fn child_path(dir: &str, name: &str) -> (r: String)
    ensures
        r@ == child_path_spec(dir@, name@),
{
    let mut s = dir.to_owned();
    s.append("/");
    s.append(name);
    s
}

/// Search the subtree rooted at `node`, appending every emitted event to
/// `out` in depth-first order.
pub fn search_node(
    path: &str,
    node: &Node,
    query: &str,
    invert: bool,
    bound: usize,
    depth: usize,
    out: &mut Vec<MatchEvent>,
)
    ensures
        events_of(final(out)@) == events_of(old(out)@) + node_events(
            path@,
            *node,
            query@,
            invert,
            bound as nat,
            depth as nat,
        ),
    decreases node, 0int, 0int,
{
    if depth > bound {
        assert(events_of(out@) =~= events_of(old(out)@) + Seq::<EventV>::empty());
        return;
    }
    match node {
        Node::File => {
            assert(events_of(out@) =~= events_of(old(out)@) + Seq::<EventV>::empty());
        },
        Node::UnreadableDir => {
            let ev = MatchEvent::TraversalError {
                path: path.to_owned(),
                cause: String::from_str("could not read directory"),
            };
            out.push(ev);
            assert(events_of(out@) =~= events_of(old(out)@) + node_events(
                path@,
                *node,
                query@,
                invert,
                bound as nat,
                depth as nat,
            ));
        },
        Node::Dir(entries) => {
            let ghost entries_seq = entries@;
            let n = entries.len();
            let mut i: usize = 0;
            while i < n
                invariant
                    i <= n,
                    n == entries_seq.len(),
                    entries_seq == entries@,
                    *node == Node::Dir(*entries),
                    depth <= bound,
                    events_of(out@) + entries_events(
                        path@,
                        entries_seq,
                        query@,
                        invert,
                        bound as nat,
                        depth as nat,
                        i as int,
                    ) == events_of(old(out)@) + entries_events(
                        path@,
                        entries_seq,
                        query@,
                        invert,
                        bound as nat,
                        depth as nat,
                        0,
                    ),
                decreases n - i,
            {
                let e = &entries[i];
                let p = child_path(path, e.name.as_str());
                let ghost out_pre = out@;
                if is_selected(e.name.as_str(), query, invert) {
                    out.push(MatchEvent::NameMatch { path: p.clone() });
                    assert(events_of(out@) =~= events_of(out_pre) + seq![
                        EventV::Name { path: p@ },
                    ]);
                } else {
                    assert(events_of(out@) =~= events_of(out_pre) + Seq::<EventV>::empty());
                }
                let ghost out_mid = out@;
                if depth < bound {
                    proof {
                        assert(node->Dir_0 == *entries);
                        assert(decreases_to!(*node => node->Dir_0));
                        assert(decreases_to!(*entries => entries@));
                        assert(decreases_to!(entries@ => entries@[i as int]));
                        assert(decreases_to!(entries@[i as int] => entries@[i as int].node));
                    }
                    search_node(p.as_str(), &e.node, query, invert, bound, depth + 1, out);
                } else {
                    proof {
                        assert(node_events(
                            p@,
                            e.node,
                            query@,
                            invert,
                            bound as nat,
                            (depth + 1) as nat,
                        ) =~= Seq::<EventV>::empty());
                        assert(events_of(out@) =~= events_of(out_mid) + Seq::<EventV>::empty());
                    }
                }
                proof {
                    lemma_events_of_add_assoc(out_pre, out_mid, out@, entries_seq, path@, query@,
                        invert, bound as nat, depth as nat, i as int, p@, e.name@, e.node);
                }
                i += 1;
            }
            assert(entries_events(
                path@,
                entries_seq,
                query@,
                invert,
                bound as nat,
                depth as nat,
                n as int,
            ) =~= Seq::<EventV>::empty());
            assert(events_of(out@) =~= events_of(out@) + Seq::<EventV>::empty());
            assert(node_events(path@, *node, query@, invert, bound as nat, depth as nat)
                == entries_events(path@, entries_seq, query@, invert, bound as nat, depth as nat, 0));
        },
    }
}

/// One loop step of `search_node` preserves the accumulation invariant:
/// the events appended for entry `i` are exactly the hit (if selected)
/// followed by the subtree events, so processing entry `i` turns the
/// suffix starting at `i` into the suffix starting at `i + 1`.
proof fn lemma_events_of_add_assoc(
    out_pre: Seq<MatchEvent>,
    out_mid: Seq<MatchEvent>,
    out_post: Seq<MatchEvent>,
    entries: Seq<Entry>,
    dir: Seq<char>,
    query: Seq<char>,
    invert: bool,
    bound: nat,
    depth: nat,
    i: int,
    p: Seq<char>,
    name: Seq<char>,
    child: Node,
)
    requires
        0 <= i < entries.len(),
        entries[i].name@ == name,
        entries[i].node == child,
        p == child_path_spec(dir, name),
        events_of(out_mid) == events_of(out_pre) + (if selected(name, query, invert) {
            seq![EventV::Name { path: p }]
        } else {
            Seq::<EventV>::empty()
        }),
        events_of(out_post) == events_of(out_mid) + node_events(
            p,
            child,
            query,
            invert,
            bound,
            (depth + 1) as nat,
        ),
    ensures
        events_of(out_post) + entries_events(dir, entries, query, invert, bound, depth, i + 1)
            == events_of(out_pre) + entries_events(dir, entries, query, invert, bound, depth, i),
{
    let hit: Seq<EventV> = if selected(name, query, invert) {
        seq![EventV::Name { path: p }]
    } else {
        Seq::<EventV>::empty()
    };
    let sub = node_events(p, child, query, invert, bound, (depth + 1) as nat);
    let rest = entries_events(dir, entries, query, invert, bound, depth, i + 1);
    assert(entries_events(dir, entries, query, invert, bound, depth, i) == hit + sub + rest);
    assert(events_of(out_post) + rest =~= events_of(out_pre) + (hit + sub + rest));
}

/// `k` back-to-back copies of an event sequence: what `k` independent
/// traversal runs over the same tree produce in all.
pub open spec fn repeat_events(s: Seq<EventV>, k: nat) -> Seq<EventV>
    decreases k,
{
    if k == 0 {
        Seq::empty()
    } else {
        repeat_events(s, (k - 1) as nat) + s
    }
}

/// Search a model tree from `root_path` with `concurrency` independent
/// runs. Each run starts at the same root and depth, so the emitted
/// events are the single run's events replicated `concurrency` times.
pub fn search_tree_concurrent(
    root_path: &str,
    root: &Node,
    query: &str,
    invert: bool,
    bound: usize,
    concurrency: usize,
) -> (r: Vec<MatchEvent>)
    ensures
        events_of(r@) == repeat_events(
            node_events(root_path@, *root, query@, invert, bound as nat, 0),
            concurrency as nat,
        ),
{
    let ghost single = node_events(root_path@, *root, query@, invert, bound as nat, 0);
    let mut out: Vec<MatchEvent> = Vec::new();
    let mut t: usize = 0;
    assert(events_of(out@) =~= repeat_events(single, 0));
    while t < concurrency
        invariant
            t <= concurrency,
            single == node_events(root_path@, *root, query@, invert, bound as nat, 0),
            events_of(out@) == repeat_events(single, t as nat),
        decreases concurrency - t,
    {
        search_node(root_path, root, query, invert, bound, 0, &mut out);
        t += 1;
    }
    out
}

/// Search a model tree from `root_path`, with one sequential traversal.
pub fn search_tree(
    root_path: &str,
    root: &Node,
    query: &str,
    invert: bool,
    bound: usize,
) -> (r: Vec<MatchEvent>)
    ensures
        events_of(r@) == node_events(root_path@, *root, query@, invert, bound as nat, 0),
{
    let mut out: Vec<MatchEvent> = Vec::new();
    search_node(root_path, root, query, invert, bound, 0, &mut out);
    proof {
        assert(events_of(out@) =~= node_events(root_path@, *root, query@, invert, bound as nat, 0));
    }
    out
}

} // verus!
