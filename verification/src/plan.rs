use vstd::prelude::*;

use crate::events::{EventV, MatchEvent, events_of};
use crate::text::{is_selected, selected};

verus! {

/// What a shell learns about one entry when it lists a directory.
pub struct DirEntryInfo {
    pub path: String,
    pub name: String,
    pub is_dir: bool,
}

/// The mathematical value of a listed entry.
pub struct DirEntryV {
    pub path: Seq<char>,
    pub name: Seq<char>,
    pub is_dir: bool,
}

impl View for DirEntryInfo {
    type V = DirEntryV;

    open spec fn view(&self) -> DirEntryV {
        DirEntryV { path: self.path@, name: self.name@, is_dir: self.is_dir }
    }
}

/// One unit of traversal work: a directory to list, at its depth below
/// the root.
pub struct TraversalTask {
    pub path: String,
    pub depth: usize,
}

/// The mathematical value of a task.
pub struct TaskV {
    pub path: Seq<char>,
    pub depth: nat,
}

impl View for TraversalTask {
    type V = TaskV;

    open spec fn view(&self) -> TaskV {
        TaskV { path: self.path@, depth: self.depth as nat }
    }
}

/// What one directory contributes to the search: the events to emit and
/// the follow-on tasks to run.
pub struct DirPlan {
    pub events: Vec<MatchEvent>,
    pub tasks: Vec<TraversalTask>,
}

/// The values of a sequence of listed entries.
pub open spec fn entry_views(es: Seq<DirEntryInfo>) -> Seq<DirEntryV> {
    es.map_values(|e: DirEntryInfo| e@)
}

/// The values of a sequence of tasks.
pub open spec fn tasks_of(ts: Seq<TraversalTask>) -> Seq<TaskV> {
    ts.map_values(|t: TraversalTask| t@)
}

/// The events owed for the listed entries from index `i` on: one name
/// match per selected entry, in listing order.
pub open spec fn plan_events(
    entries: Seq<DirEntryV>,
    query: Seq<char>,
    invert: bool,
    i: int,
) -> Seq<EventV>
    decreases entries.len() - i,
{
    if i < 0 || i >= entries.len() {
        Seq::empty()
    } else {
        (if selected(entries[i].name, query, invert) {
            seq![EventV::Name { path: entries[i].path }]
        } else {
            Seq::empty()
        }) + plan_events(entries, query, invert, i + 1)
    }
}

/// The tasks owed for the listed entries from index `i` on: one per
/// subdirectory, at the next depth, in listing order.
pub open spec fn plan_tasks(entries: Seq<DirEntryV>, depth: nat, i: int) -> Seq<TaskV>
    decreases entries.len() - i,
{
    if i < 0 || i >= entries.len() {
        Seq::empty()
    } else {
        (if entries[i].is_dir {
            seq![TaskV { path: entries[i].path, depth: depth + 1 }]
        } else {
            Seq::empty()
        }) + plan_tasks(entries, depth, i + 1)
    }
}

/// Whether a directory at `depth` is visited at all under `bound`: the
/// depth test a traversal branch makes before listing anything.
pub fn should_visit(depth: usize, bound: usize) -> (r: bool)
    ensures
        r == (depth <= bound),
{
    depth <= bound
}

/// Turn one directory's listing into its events and follow-on tasks.
///
/// A failed listing yields exactly one traversal error carrying its
/// cause, and no tasks: the failure stays isolated to this directory. A
/// successful listing yields a name match for every selected entry and
/// a task for every subdirectory; the depth test for those tasks is the
/// callee's, through `should_visit`.
pub fn plan_directory(
    dir_path: &str,
    listing: Result<Vec<DirEntryInfo>, String>,
    query: &str,
    invert: bool,
    depth: usize,
) -> (r: DirPlan)
    requires
        depth < usize::MAX,
    ensures
        listing matches Err(cause) ==> events_of(r.events@) == seq![
            EventV::Error { path: dir_path@, cause: cause@ },
        ] && r.tasks@.len() == 0,
        listing matches Ok(es) ==> events_of(r.events@) == plan_events(
            entry_views(es@),
            query@,
            invert,
            0,
        ) && tasks_of(r.tasks@) == plan_tasks(entry_views(es@), depth as nat, 0),
{
    match listing {
        Err(cause) => {
            let mut events: Vec<MatchEvent> = Vec::new();
            events.push(MatchEvent::TraversalError { path: dir_path.to_owned(), cause });
            assert(events_of(events@) =~= seq![
                EventV::Error { path: dir_path@, cause: events@[0]->TraversalError_cause@ },
            ]);
            DirPlan { events, tasks: Vec::new() }
        },
        Ok(es) => {
            let ghost v = entry_views(es@);
            let mut events: Vec<MatchEvent> = Vec::new();
            let mut tasks: Vec<TraversalTask> = Vec::new();
            let n = es.len();
            let mut i: usize = 0;
            assert(events_of(events@) =~= Seq::<EventV>::empty());
            assert(tasks_of(tasks@) =~= Seq::<TaskV>::empty());
            while i < n
                invariant
                    i <= n,
                    n == es@.len(),
                    v == entry_views(es@),
                    depth < usize::MAX,
                    events_of(events@) + plan_events(v, query@, invert, i as int) == plan_events(
                        v,
                        query@,
                        invert,
                        0,
                    ),
                    tasks_of(tasks@) + plan_tasks(v, depth as nat, i as int) == plan_tasks(
                        v,
                        depth as nat,
                        0,
                    ),
                decreases n - i,
            {
                let e = &es[i];
                let ghost ev_pre = events@;
                let ghost hit: Seq<EventV> = if selected(v[i as int].name, query@, invert) {
                    seq![EventV::Name { path: v[i as int].path }]
                } else {
                    Seq::<EventV>::empty()
                };
                if is_selected(e.name.as_str(), query, invert) {
                    events.push(MatchEvent::NameMatch { path: e.path.clone() });
                    assert(events_of(events@) =~= events_of(ev_pre) + hit);
                } else {
                    assert(events_of(events@) =~= events_of(ev_pre) + hit);
                }
                let ghost ts_pre = tasks@;
                let ghost job: Seq<TaskV> = if v[i as int].is_dir {
                    seq![TaskV { path: v[i as int].path, depth: depth as nat + 1 }]
                } else {
                    Seq::<TaskV>::empty()
                };
                if e.is_dir {
                    tasks.push(TraversalTask { path: e.path.clone(), depth: depth + 1 });
                    assert(tasks_of(tasks@) =~= tasks_of(ts_pre) + job);
                } else {
                    assert(tasks_of(tasks@) =~= tasks_of(ts_pre) + job);
                }
                proof {
                    let rest = plan_events(v, query@, invert, i + 1);
                    assert(plan_events(v, query@, invert, i as int) == hit + rest);
                    assert(events_of(events@) + rest =~= events_of(ev_pre) + (hit + rest));
                    let trest = plan_tasks(v, depth as nat, i + 1);
                    assert(plan_tasks(v, depth as nat, i as int) == job + trest);
                    assert(tasks_of(tasks@) + trest =~= tasks_of(ts_pre) + (job + trest));
                }
                i += 1;
            }
            assert(plan_events(v, query@, invert, n as int) =~= Seq::<EventV>::empty());
            assert(plan_tasks(v, depth as nat, n as int) =~= Seq::<TaskV>::empty());
            assert(events_of(events@) =~= events_of(events@) + Seq::<EventV>::empty());
            assert(tasks_of(tasks@) =~= tasks_of(tasks@) + Seq::<TaskV>::empty());
            DirPlan { events, tasks }
        },
    }
}

} // verus!
