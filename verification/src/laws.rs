use vstd::prelude::*;

use crate::events::{
    EventV, count_errors, count_names, error_pred, lemma_count_pred_add, lemma_count_pred_single,
    name_pred,
};
use crate::plan::{DirEntryV, TaskV, plan_events, plan_tasks};
use crate::text::selected;
use crate::tree::{
    Entry, Node, child_path_spec, entries_events, node_events, repeat_events,
};

verus! {

/// `idxs` names an entry of the listing `entries`: its first index picks
/// an entry, and the remaining indices descend through subdirectories.
pub open spec fn valid_entry_path(entries: Seq<Entry>, idxs: Seq<int>) -> bool
    decreases entries,
{
    &&& idxs.len() > 0
    &&& 0 <= idxs[0] < entries.len()
    &&& (idxs.len() == 1 || (entries[idxs[0]].node matches Node::Dir(sub) && valid_entry_path(
        sub@,
        idxs.drop_first(),
    )))
}

/// The name of the entry that `idxs` picks out of `entries`.
pub open spec fn entry_name_at(entries: Seq<Entry>, idxs: Seq<int>) -> Seq<char>
    decreases entries,
{
    if idxs.len() == 0 || !(0 <= idxs[0] < entries.len()) {
        Seq::empty()
    } else if idxs.len() == 1 {
        entries[idxs[0]].name@
    } else {
        match entries[idxs[0]].node {
            Node::Dir(sub) => entry_name_at(sub@, idxs.drop_first()),
            _ => entries[idxs[0]].name@,
        }
    }
}

/// The full path of the entry that `idxs` picks, below a directory at
/// `dir`.
pub open spec fn entry_full_path(dir: Seq<char>, entries: Seq<Entry>, idxs: Seq<int>) -> Seq<char>
    decreases entries,
{
    if idxs.len() == 0 || !(0 <= idxs[0] < entries.len()) {
        dir
    } else {
        let p = child_path_spec(dir, entries[idxs[0]].name@);
        if idxs.len() == 1 {
            p
        } else {
            match entries[idxs[0]].node {
                Node::Dir(sub) => entry_full_path(p, sub@, idxs.drop_first()),
                _ => p,
            }
        }
    }
}

/// `idxs` names an entry of the tree rooted at `node`. The entry sits at
/// depth `idxs.len() - 1` below the root: the directory listed to reach
/// it is at depth `idxs.len() - 1`.
pub open spec fn tree_has_entry(node: Node, idxs: Seq<int>) -> bool {
    node matches Node::Dir(es) && valid_entry_path(es@, idxs)
}

/// The name of the entry that `idxs` picks out of the tree.
pub open spec fn tree_entry_name(node: Node, idxs: Seq<int>) -> Seq<char> {
    match node {
        Node::Dir(es) => entry_name_at(es@, idxs),
        _ => Seq::empty(),
    }
}

/// The full path of the entry that `idxs` picks out of the tree rooted
/// at `path`.
pub open spec fn tree_entry_path(path: Seq<char>, node: Node, idxs: Seq<int>) -> Seq<char> {
    match node {
        Node::Dir(es) => entry_full_path(path, es@, idxs),
        _ => path,
    }
}

proof fn lemma_add_contains_left<A>(a: Seq<A>, b: Seq<A>, x: A)
    requires
        a.contains(x),
    ensures
        (a + b).contains(x),
{
    let i = choose|i: int| 0 <= i < a.len() && a[i] == x;
    assert((a + b)[i] == x);
}

proof fn lemma_add_contains_right<A>(a: Seq<A>, b: Seq<A>, x: A)
    requires
        b.contains(x),
    ensures
        (a + b).contains(x),
{
    let i = choose|i: int| 0 <= i < b.len() && b[i] == x;
    assert((a + b)[a.len() + i] == x);
}

/// The events for entries from `start` on hold the hit of entry `j`
/// whenever that entry is selected.
proof fn lemma_events_contain_hit(
    dir: Seq<char>,
    entries: Seq<Entry>,
    query: Seq<char>,
    invert: bool,
    bound: nat,
    depth: nat,
    start: int,
    j: int,
)
    requires
        0 <= start <= j < entries.len(),
        depth <= bound,
        selected(entries[j].name@, query, invert),
    ensures
        entries_events(dir, entries, query, invert, bound, depth, start).contains(
            EventV::Name { path: child_path_spec(dir, entries[j].name@) },
        ),
    decreases j - start,
{
    let ev = EventV::Name { path: child_path_spec(dir, entries[j].name@) };
    let s = entries_events(dir, entries, query, invert, bound, depth, start);
    let hit: Seq<EventV> = if selected(entries[start].name@, query, invert) {
        seq![EventV::Name { path: child_path_spec(dir, entries[start].name@) }]
    } else {
        Seq::empty()
    };
    let sub = node_events(
        child_path_spec(dir, entries[start].name@),
        entries[start].node,
        query,
        invert,
        bound,
        (depth + 1) as nat,
    );
    let rest = entries_events(dir, entries, query, invert, bound, depth, start + 1);
    assert(s == hit + sub + rest);
    if start == j {
        assert(hit[0] == ev);
        lemma_add_contains_left(hit, sub, ev);
        lemma_add_contains_left(hit + sub, rest, ev);
    } else {
        lemma_events_contain_hit(dir, entries, query, invert, bound, depth, start + 1, j);
        lemma_add_contains_right(hit + sub, rest, ev);
    }
}

/// The events for entries from `start` on hold everything the subtree
/// of entry `j` emits.
proof fn lemma_events_contain_subtree(
    dir: Seq<char>,
    entries: Seq<Entry>,
    query: Seq<char>,
    invert: bool,
    bound: nat,
    depth: nat,
    start: int,
    j: int,
    x: EventV,
)
    requires
        0 <= start <= j < entries.len(),
        depth <= bound,
        node_events(
            child_path_spec(dir, entries[j].name@),
            entries[j].node,
            query,
            invert,
            bound,
            (depth + 1) as nat,
        ).contains(x),
    ensures
        entries_events(dir, entries, query, invert, bound, depth, start).contains(x),
    decreases j - start,
{
    let s = entries_events(dir, entries, query, invert, bound, depth, start);
    let hit: Seq<EventV> = if selected(entries[start].name@, query, invert) {
        seq![EventV::Name { path: child_path_spec(dir, entries[start].name@) }]
    } else {
        Seq::empty()
    };
    let sub = node_events(
        child_path_spec(dir, entries[start].name@),
        entries[start].node,
        query,
        invert,
        bound,
        (depth + 1) as nat,
    );
    let rest = entries_events(dir, entries, query, invert, bound, depth, start + 1);
    assert(s == hit + sub + rest);
    if start == j {
        lemma_add_contains_right(hit, sub, x);
        lemma_add_contains_left(hit + sub, rest, x);
    } else {
        lemma_events_contain_subtree(dir, entries, query, invert, bound, depth, start + 1, j, x);
        lemma_add_contains_right(hit + sub, rest, x);
    }
}

/// Completeness law: every entry of the tree whose name is selected is
/// reported at least once, as long as the depth bound covers the
/// directory that lists it. The entry named by `idxs` sits in a
/// directory at depth `depth + idxs.len() - 1` below the traversal
/// start.
pub proof fn lemma_name_search_complete(
    path: Seq<char>,
    node: Node,
    query: Seq<char>,
    invert: bool,
    bound: nat,
    depth: nat,
    idxs: Seq<int>,
)
    requires
        tree_has_entry(node, idxs),
        depth + idxs.len() - 1 <= bound,
        selected(tree_entry_name(node, idxs), query, invert),
    ensures
        node_events(path, node, query, invert, bound, depth).contains(
            EventV::Name { path: tree_entry_path(path, node, idxs) },
        ),
    decreases idxs.len(),
{
    let es = choose|es: Vec<Entry>| node == Node::Dir(es);
    let entries = es@;
    let j = idxs[0];
    assert(node_events(path, node, query, invert, bound, depth) == entries_events(
        path,
        entries,
        query,
        invert,
        bound,
        depth,
        0,
    ));
    if idxs.len() == 1 {
        lemma_events_contain_hit(path, entries, query, invert, bound, depth, 0, j);
    } else {
        let child = entries[j].node;
        let p = child_path_spec(path, entries[j].name@);
        lemma_name_search_complete(
            p,
            child,
            query,
            invert,
            bound,
            (depth + 1) as nat,
            idxs.drop_first(),
        );
        lemma_events_contain_subtree(
            path,
            entries,
            query,
            invert,
            bound,
            depth,
            0,
            j,
            EventV::Name { path: tree_entry_path(p, child, idxs.drop_first()) },
        );
    }
}

/// Invert law: under one query, a given name or line is selected in
/// exactly one of normal mode and inverted mode.
pub proof fn lemma_invert_exclusive(text: Seq<char>, query: Seq<char>)
    ensures
        selected(text, query, false) != selected(text, query, true),
{
}

/// Invert emission law: of normal mode and inverted mode, exactly one
/// selects a given entry's name, and an entry within the depth bound is
/// reported in each mode that selects it.
pub proof fn lemma_invert_emission(
    path: Seq<char>,
    node: Node,
    query: Seq<char>,
    bound: nat,
    depth: nat,
    idxs: Seq<int>,
)
    requires
        tree_has_entry(node, idxs),
        depth + idxs.len() - 1 <= bound,
    ensures
        selected(tree_entry_name(node, idxs), query, false) != selected(
            tree_entry_name(node, idxs),
            query,
            true,
        ),
        forall|invert: bool|
            selected(tree_entry_name(node, idxs), query, invert) ==> node_events(
                path,
                node,
                query,
                invert,
                bound,
                depth,
            ).contains(EventV::Name { path: tree_entry_path(path, node, idxs) }),
{
    lemma_invert_exclusive(tree_entry_name(node, idxs), query);
    assert forall|invert: bool| selected(tree_entry_name(node, idxs), query, invert) implies
        node_events(path, node, query, invert, bound, depth).contains(
            EventV::Name { path: tree_entry_path(path, node, idxs) },
        ) by {
        lemma_name_search_complete(path, node, query, invert, bound, depth, idxs);
    }
}

/// Concurrency replication law: the events of `k` independent runs hold
/// exactly `k` times as many name matches as one run's events.
pub proof fn lemma_concurrency_replication(s: Seq<EventV>, k: nat)
    ensures
        count_names(repeat_events(s, k)) == k * count_names(s),
    decreases k,
{
    if k == 0 {
    } else {
        let km1 = (k - 1) as nat;
        let c = count_names(s);
        lemma_concurrency_replication(s, km1);
        lemma_count_pred_add(repeat_events(s, km1), s, name_pred());
        assert(km1 * c + c == k * c) by (nonlinear_arith)
            requires
                km1 == k - 1,
                k >= 1,
        ;
    }
}

/// A listing reflects a model directory: one listed entry per model
/// entry, carrying the entry's name, its full path below `dir`, and
/// whether the traversal treats it as a directory to descend into.
pub open spec fn listing_of(dir: Seq<char>, entries: Seq<Entry>, l: Seq<DirEntryV>) -> bool {
    &&& l.len() == entries.len()
    &&& forall|i: int|
        0 <= i < l.len() ==> {
            &&& (#[trigger] l[i]).name == entries[i].name@
            &&& l[i].path == child_path_spec(dir, entries[i].name@)
            &&& l[i].is_dir == !(entries[i].node is File)
        }
}

/// The name matches the model emits for the entries from `i` on, their
/// subtrees' events left aside.
pub open spec fn entry_hits(
    dir: Seq<char>,
    entries: Seq<Entry>,
    query: Seq<char>,
    invert: bool,
    i: int,
) -> Seq<EventV>
    decreases entries.len() - i,
{
    if i < 0 || i >= entries.len() {
        Seq::empty()
    } else {
        (if selected(entries[i].name@, query, invert) {
            seq![EventV::Name { path: child_path_spec(dir, entries[i].name@) }]
        } else {
            Seq::empty()
        }) + entry_hits(dir, entries, query, invert, i + 1)
    }
}

/// The directories the model visits next below the entries from `i` on.
pub open spec fn entry_tasks(dir: Seq<char>, entries: Seq<Entry>, depth: nat, i: int) -> Seq<TaskV>
    decreases entries.len() - i,
{
    if i < 0 || i >= entries.len() {
        Seq::empty()
    } else {
        (if !(entries[i].node is File) {
            seq![TaskV { path: child_path_spec(dir, entries[i].name@), depth: depth + 1 }]
        } else {
            Seq::empty()
        }) + entry_tasks(dir, entries, depth, i + 1)
    }
}

/// Shell-step law: on a listing that reflects a model directory, the
/// planner owes exactly the model's name matches for that directory,
/// and one follow-on task per subdirectory, in listing order.
pub proof fn lemma_plan_matches_model(
    dir: Seq<char>,
    entries: Seq<Entry>,
    l: Seq<DirEntryV>,
    query: Seq<char>,
    invert: bool,
    depth: nat,
    i: int,
)
    requires
        listing_of(dir, entries, l),
    ensures
        plan_events(l, query, invert, i) == entry_hits(dir, entries, query, invert, i),
        plan_tasks(l, depth, i) == entry_tasks(dir, entries, depth, i),
    decreases l.len() - i,
{
    if 0 <= i < l.len() {
        lemma_plan_matches_model(dir, entries, l, query, invert, depth, i + 1);
    }
}

/// The node of the entry that `idxs` picks out of `entries`.
pub open spec fn entry_node_at(entries: Seq<Entry>, idxs: Seq<int>) -> Node
    decreases entries,
{
    if idxs.len() == 0 || !(0 <= idxs[0] < entries.len()) {
        Node::File
    } else if idxs.len() == 1 {
        entries[idxs[0]].node
    } else {
        match entries[idxs[0]].node {
            Node::Dir(sub) => entry_node_at(sub@, idxs.drop_first()),
            _ => entries[idxs[0]].node,
        }
    }
}

/// The node of the entry that `idxs` picks out of the tree.
pub open spec fn tree_entry_node(node: Node, idxs: Seq<int>) -> Node {
    match node {
        Node::Dir(es) => entry_node_at(es@, idxs),
        _ => node,
    }
}

/// The two listings agree entry for entry, except that the entry at
/// `idxs` keeps its name but holds an unreadable directory in the
/// second listing, whatever it holds in the first.
pub open spec fn same_except_unreadable(e1: Seq<Entry>, e2: Seq<Entry>, idxs: Seq<int>) -> bool
    decreases e1,
{
    &&& idxs.len() > 0
    &&& e1.len() == e2.len()
    &&& 0 <= idxs[0] < e1.len()
    &&& (forall|i: int| 0 <= i < e1.len() && i != idxs[0] ==> e1[i] == e2[i])
    &&& e1[idxs[0]].name@ == e2[idxs[0]].name@
    &&& if idxs.len() == 1 {
        e2[idxs[0]].node is UnreadableDir
    } else {
        &&& e1[idxs[0]].node matches Node::Dir(s1)
        &&& e2[idxs[0]].node matches Node::Dir(s2)
        &&& same_except_unreadable(s1@, s2@, idxs.drop_first())
    }
}

/// The two trees agree everywhere, except that the directory at the
/// entry `idxs` is unreadable in the second.
pub open spec fn tree_same_except_unreadable(n1: Node, n2: Node, idxs: Seq<int>) -> bool {
    &&& n1 matches Node::Dir(v1)
    &&& n2 matches Node::Dir(v2)
    &&& same_except_unreadable(v1@, v2@, idxs)
}

/// The events of a listing depend only on the entries from `start` on.
proof fn lemma_entries_events_congruence(
    dir: Seq<char>,
    e1: Seq<Entry>,
    e2: Seq<Entry>,
    query: Seq<char>,
    invert: bool,
    bound: nat,
    depth: nat,
    start: int,
)
    requires
        e1.len() == e2.len(),
        forall|i: int| start <= i < e1.len() ==> e1[i] == e2[i],
    ensures
        entries_events(dir, e1, query, invert, bound, depth, start) == entries_events(
            dir,
            e2,
            query,
            invert,
            bound,
            depth,
            start,
        ),
    decreases e1.len() - start,
{
    if 0 <= start < e1.len() {
        lemma_entries_events_congruence(dir, e1, e2, query, invert, bound, depth, start + 1);
    }
}

#[verifier::rlimit(80)]
proof fn lemma_isolation_decompose_entries(
    dir: Seq<char>,
    e1: Seq<Entry>,
    e2: Seq<Entry>,
    query: Seq<char>,
    invert: bool,
    bound: nat,
    depth: nat,
    idxs: Seq<int>,
    start: int,
) -> (r: (Seq<EventV>, Seq<EventV>))
    requires
        same_except_unreadable(e1, e2, idxs),
        depth <= bound,
        0 <= start <= idxs[0],
    ensures
        entries_events(dir, e1, query, invert, bound, depth, start) == r.0 + node_events(
            entry_full_path(dir, e1, idxs),
            entry_node_at(e1, idxs),
            query,
            invert,
            bound,
            (depth + idxs.len()) as nat,
        ) + r.1,
        entries_events(dir, e2, query, invert, bound, depth, start) == r.0 + node_events(
            entry_full_path(dir, e1, idxs),
            Node::UnreadableDir,
            query,
            invert,
            bound,
            (depth + idxs.len()) as nat,
        ) + r.1,
    decreases e1, 1int, e1.len() - start,
{
    let j = idxs[0];
    let pu = entry_full_path(dir, e1, idxs);
    let du = (depth + idxs.len()) as nat;
    let mid1 = node_events(pu, entry_node_at(e1, idxs), query, invert, bound, du);
    let mid2 = node_events(pu, Node::UnreadableDir, query, invert, bound, du);
    let s1 = entries_events(dir, e1, query, invert, bound, depth, start);
    let s2 = entries_events(dir, e2, query, invert, bound, depth, start);
    let hit: Seq<EventV> = if selected(e1[start].name@, query, invert) {
        seq![EventV::Name { path: child_path_spec(dir, e1[start].name@) }]
    } else {
        Seq::empty()
    };
    let p = child_path_spec(dir, e1[start].name@);
    let sub1 = node_events(p, e1[start].node, query, invert, bound, (depth + 1) as nat);
    let sub2 = node_events(p, e2[start].node, query, invert, bound, (depth + 1) as nat);
    let rest1 = entries_events(dir, e1, query, invert, bound, depth, start + 1);
    let rest2 = entries_events(dir, e2, query, invert, bound, depth, start + 1);
    if start < j {
        assert(e1[start] == e2[start]);
        let (a2, b2) = lemma_isolation_decompose_entries(
            dir,
            e1,
            e2,
            query,
            invert,
            bound,
            depth,
            idxs,
            start + 1,
        );
        let a = hit + sub1 + a2;
        assert(s1 =~= a + mid1 + b2);
        assert(s2 =~= a + mid2 + b2);
        (a, b2)
    } else {
        assert(e2[start].name@ == e1[start].name@);
        assert forall|i: int| start + 1 <= i < e1.len() implies e1[i] == e2[i] by {}
        lemma_entries_events_congruence(dir, e1, e2, query, invert, bound, depth, start + 1);
        if idxs.len() == 1 {
            assert(s1 =~= hit + mid1 + rest1);
            assert(s2 =~= hit + mid2 + rest1);
            (hit, rest1)
        } else {
            let s1v = choose|v: Vec<Entry>| e1[j].node == Node::Dir(v);
            let s2v = choose|v: Vec<Entry>| e2[j].node == Node::Dir(v);
            if depth + 1 > bound {
                assert(sub1 =~= Seq::<EventV>::empty());
                assert(sub2 =~= Seq::<EventV>::empty());
                assert(du > bound);
                assert(mid1 =~= Seq::<EventV>::empty());
                assert(mid2 =~= Seq::<EventV>::empty());
                let a = hit + sub1 + rest1;
                assert(s1 =~= a + mid1 + Seq::<EventV>::empty());
                assert(s2 =~= a + mid2 + Seq::<EventV>::empty());
                (a, Seq::empty())
            } else {
                assert(same_except_unreadable(s1v@, s2v@, idxs.drop_first()));
                assert(0 <= idxs.drop_first()[0]);
                let (a2, b2) = lemma_isolation_decompose_entries(
                    p,
                    s1v@,
                    s2v@,
                    query,
                    invert,
                    bound,
                    (depth + 1) as nat,
                    idxs.drop_first(),
                    0,
                );
                assert(entry_full_path(p, s1v@, idxs.drop_first()) == pu);
                assert(entry_node_at(s1v@, idxs.drop_first()) == entry_node_at(e1, idxs));
                let a = hit + a2;
                assert(s1 =~= a + mid1 + (b2 + rest1));
                assert(s2 =~= a + mid2 + (b2 + rest1));
                (a, b2 + rest1)
            }
        }
    }
}

/// Isolation law, in full: damage any tree by making the directory at
/// one entry unreadable, leaving everything else unchanged. The two
/// traversals then agree event for event outside that entry's subtree:
/// one common prefix and one common suffix surround the subtree's
/// events in the intact tree and the lone error event (or nothing,
/// beyond the depth bound) in the damaged one. The returned pair is
/// that common prefix and suffix.
pub proof fn lemma_unreadable_isolation(
    path: Seq<char>,
    n1: Node,
    n2: Node,
    query: Seq<char>,
    invert: bool,
    bound: nat,
    depth: nat,
    idxs: Seq<int>,
) -> (r: (Seq<EventV>, Seq<EventV>))
    requires
        tree_same_except_unreadable(n1, n2, idxs),
    ensures
        node_events(path, n1, query, invert, bound, depth) == r.0 + node_events(
            tree_entry_path(path, n1, idxs),
            tree_entry_node(n1, idxs),
            query,
            invert,
            bound,
            (depth + idxs.len()) as nat,
        ) + r.1,
        node_events(path, n2, query, invert, bound, depth) == r.0 + node_events(
            tree_entry_path(path, n1, idxs),
            Node::UnreadableDir,
            query,
            invert,
            bound,
            (depth + idxs.len()) as nat,
        ) + r.1,
{
    let pu = tree_entry_path(path, n1, idxs);
    let du = (depth + idxs.len()) as nat;
    let mid1 = node_events(pu, tree_entry_node(n1, idxs), query, invert, bound, du);
    let mid2 = node_events(pu, Node::UnreadableDir, query, invert, bound, du);
    if depth > bound {
        assert(du > bound);
        assert(mid1 =~= Seq::<EventV>::empty());
        assert(mid2 =~= Seq::<EventV>::empty());
        let empty = Seq::<EventV>::empty();
        assert(node_events(path, n1, query, invert, bound, depth) =~= empty + mid1 + empty);
        assert(node_events(path, n2, query, invert, bound, depth) =~= empty + mid2 + empty);
        (empty, empty)
    } else {
        let v1 = choose|v: Vec<Entry>| n1 == Node::Dir(v);
        let v2 = choose|v: Vec<Entry>| n2 == Node::Dir(v);
        lemma_isolation_decompose_entries(path, v1@, v2@, query, invert, bound, depth, idxs, 0)
    }
}

/// How many unreadable directories the traversal visits in the subtree
/// rooted at `node`, whose own depth below the root is `depth`.
pub open spec fn unreadable_count(node: Node, bound: nat, depth: nat) -> nat
    decreases node, 0int, 0int,
{
    if depth > bound {
        0
    } else {
        match node {
            Node::File => 0,
            Node::UnreadableDir => 1,
            Node::Dir(es) => unreadable_count_entries(es@, bound, depth, 0),
        }
    }
}

/// The unreadable directories visited below the entries from index `i`
/// on, all children sitting at depth `depth + 1`.
pub open spec fn unreadable_count_entries(
    entries: Seq<Entry>,
    bound: nat,
    depth: nat,
    i: int,
) -> nat
    decreases entries, 1int, entries.len() - i,
{
    if i < 0 || i >= entries.len() {
        0
    } else {
        unreadable_count(entries[i].node, bound, (depth + 1) as nat) + unreadable_count_entries(
            entries,
            bound,
            depth,
            i + 1,
        )
    }
}

/// Isolation law: the traversal reports exactly one error per
/// unreadable directory it visits — a failed listing neither vanishes
/// nor disturbs any sibling branch.
pub proof fn lemma_error_isolation(
    path: Seq<char>,
    node: Node,
    query: Seq<char>,
    invert: bool,
    bound: nat,
    depth: nat,
)
    ensures
        count_errors(node_events(path, node, query, invert, bound, depth)) == unreadable_count(
            node,
            bound,
            depth,
        ),
    decreases node, 0int, 0int,
{
    if depth > bound {
    } else {
        match node {
            Node::File => {},
            Node::UnreadableDir => {
                lemma_count_pred_single(
                    EventV::Error { path, cause: crate::tree::unreadable_cause() },
                    error_pred(),
                );
            },
            Node::Dir(es) => {
                lemma_error_isolation_entries(path, es@, query, invert, bound, depth, 0);
            },
        }
    }
}

proof fn lemma_error_isolation_entries(
    dir: Seq<char>,
    entries: Seq<Entry>,
    query: Seq<char>,
    invert: bool,
    bound: nat,
    depth: nat,
    start: int,
)
    requires
        depth <= bound,
    ensures
        count_errors(entries_events(dir, entries, query, invert, bound, depth, start))
            == unreadable_count_entries(entries, bound, depth, start),
    decreases entries, 1int, entries.len() - start,
{
    if start < 0 || start >= entries.len() {
    } else {
        let e = entries[start];
        let p = child_path_spec(dir, e.name@);
        let hit: Seq<EventV> = if selected(e.name@, query, invert) {
            seq![EventV::Name { path: p }]
        } else {
            Seq::empty()
        };
        let sub = node_events(p, e.node, query, invert, bound, (depth + 1) as nat);
        let rest = entries_events(dir, entries, query, invert, bound, depth, start + 1);
        lemma_count_pred_add(hit + sub, rest, error_pred());
        lemma_count_pred_add(hit, sub, error_pred());
        if selected(e.name@, query, invert) {
            lemma_count_pred_single(EventV::Name { path: p }, error_pred());
        }
        lemma_error_isolation(p, e.node, query, invert, bound, (depth + 1) as nat);
        lemma_error_isolation_entries(dir, entries, query, invert, bound, depth, start + 1);
    }
}

/// Depth law: every reported name match names an entry of the tree, and
/// the directory whose listing produced it lies within the depth bound —
/// nothing deeper is ever reported.
pub proof fn lemma_depth_bound(
    path: Seq<char>,
    node: Node,
    query: Seq<char>,
    invert: bool,
    bound: nat,
    depth: nat,
    k: int,
)
    requires
        0 <= k < node_events(path, node, query, invert, bound, depth).len(),
        node_events(path, node, query, invert, bound, depth)[k] is Name,
    ensures
        exists|idxs: Seq<int>|
            {
                &&& tree_has_entry(node, idxs)
                &&& depth + idxs.len() - 1 <= bound
                &&& node_events(path, node, query, invert, bound, depth)[k] == (EventV::Name {
                    path: tree_entry_path(path, node, idxs),
                })
                &&& selected(tree_entry_name(node, idxs), query, invert)
            },
    decreases node, 0int, 0int,
{
    let s = node_events(path, node, query, invert, bound, depth);
    match node {
        Node::File => {},
        Node::UnreadableDir => {
            assert(s[k] == (EventV::Error { path, cause: crate::tree::unreadable_cause() }));
        },
        Node::Dir(es) => {
            lemma_depth_bound_entries(path, es@, query, invert, bound, depth, 0, k);
            let w = choose|idxs: Seq<int>|
                {
                    &&& valid_entry_path(es@, idxs)
                    &&& 0 <= idxs[0]
                    &&& depth + idxs.len() - 1 <= bound
                    &&& entries_events(path, es@, query, invert, bound, depth, 0)[k]
                        == (EventV::Name { path: entry_full_path(path, es@, idxs) })
                    &&& selected(entry_name_at(es@, idxs), query, invert)
                };
            assert(tree_has_entry(node, w));
        },
    }
}

proof fn lemma_depth_bound_entries(
    dir: Seq<char>,
    entries: Seq<Entry>,
    query: Seq<char>,
    invert: bool,
    bound: nat,
    depth: nat,
    start: int,
    k: int,
)
    requires
        depth <= bound,
        0 <= start,
        0 <= k < entries_events(dir, entries, query, invert, bound, depth, start).len(),
        entries_events(dir, entries, query, invert, bound, depth, start)[k] is Name,
    ensures
        exists|idxs: Seq<int>|
            {
                &&& valid_entry_path(entries, idxs)
                &&& start <= idxs[0]
                &&& depth + idxs.len() - 1 <= bound
                &&& entries_events(dir, entries, query, invert, bound, depth, start)[k]
                    == (EventV::Name { path: entry_full_path(dir, entries, idxs) })
                &&& selected(entry_name_at(entries, idxs), query, invert)
            },
    decreases entries, 1int, entries.len() - start,
{
    let s = entries_events(dir, entries, query, invert, bound, depth, start);
    let e = entries[start];
    let p = child_path_spec(dir, e.name@);
    let hit: Seq<EventV> = if selected(e.name@, query, invert) {
        seq![EventV::Name { path: p }]
    } else {
        Seq::empty()
    };
    let sub = node_events(p, e.node, query, invert, bound, (depth + 1) as nat);
    let rest = entries_events(dir, entries, query, invert, bound, depth, start + 1);
    assert(s == hit + sub + rest);
    if k < hit.len() {
        let w = seq![start];
        assert(w.len() == 1 && w[0] == start);
        assert(valid_entry_path(entries, w));
        assert(s[k] == hit[0]);
        assert(entry_full_path(dir, entries, w) == p);
        assert(entry_name_at(entries, w) == e.name@);
        assert({
            &&& valid_entry_path(entries, w)
            &&& start <= w[0]
            &&& depth + w.len() - 1 <= bound
            &&& s[k] == (EventV::Name { path: entry_full_path(dir, entries, w) })
            &&& selected(entry_name_at(entries, w), query, invert)
        });
    } else if k < hit.len() + sub.len() {
        let k2 = k - hit.len();
        assert(s[k] == sub[k2]);
        assert(depth + 1 <= bound);
        lemma_depth_bound(p, e.node, query, invert, bound, (depth + 1) as nat, k2);
        let w0 = choose|idxs: Seq<int>|
            {
                &&& tree_has_entry(e.node, idxs)
                &&& (depth + 1) + idxs.len() - 1 <= bound
                &&& node_events(p, e.node, query, invert, bound, (depth + 1) as nat)[k2]
                    == (EventV::Name { path: tree_entry_path(p, e.node, idxs) })
                &&& selected(tree_entry_name(e.node, idxs), query, invert)
            };
        let w = seq![start] + w0;
        assert(w.drop_first() =~= w0);
        assert(w[0] == start && w.len() == 1 + w0.len());
        assert(valid_entry_path(entries, w));
        assert(entry_full_path(dir, entries, w) == tree_entry_path(p, e.node, w0));
        assert(entry_name_at(entries, w) == tree_entry_name(e.node, w0));
        assert({
            &&& valid_entry_path(entries, w)
            &&& start <= w[0]
            &&& depth + w.len() - 1 <= bound
            &&& s[k] == (EventV::Name { path: entry_full_path(dir, entries, w) })
            &&& selected(entry_name_at(entries, w), query, invert)
        });
    } else {
        let k2 = k - (hit.len() + sub.len());
        assert(s[k] == rest[k2]);
        lemma_depth_bound_entries(dir, entries, query, invert, bound, depth, start + 1, k2);
        let w = choose|idxs: Seq<int>|
            {
                &&& valid_entry_path(entries, idxs)
                &&& start + 1 <= idxs[0]
                &&& depth + idxs.len() - 1 <= bound
                &&& rest[k2] == (EventV::Name { path: entry_full_path(dir, entries, idxs) })
                &&& selected(entry_name_at(entries, idxs), query, invert)
            };
        assert({
            &&& valid_entry_path(entries, w)
            &&& start <= w[0]
            &&& depth + w.len() - 1 <= bound
            &&& s[k] == (EventV::Name { path: entry_full_path(dir, entries, w) })
            &&& selected(entry_name_at(entries, w), query, invert)
        });
    }
}

} // verus!
