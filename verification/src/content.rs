use vstd::prelude::*;

use crate::events::{EventV, MatchEvent, events_of};
use crate::text::{is_selected, selected};

verus! {

/// The character sequences carried by a sequence of lines.
pub open spec fn lines_view(lines: Seq<String>) -> Seq<Seq<char>> {
    lines.map_values(|l: String| l@)
}

/// The events for the lines from index `i` on: one line match for every
/// selected line, numbered from 1, in file order.
pub open spec fn line_events(
    lines: Seq<Seq<char>>,
    query: Seq<char>,
    invert: bool,
    i: int,
) -> Seq<EventV>
    decreases lines.len() - i,
{
    if i < 0 || i >= lines.len() {
        Seq::empty()
    } else {
        (if selected(lines[i], query, invert) {
            seq![EventV::Line { line_number: (i + 1) as nat, text: lines[i] }]
        } else {
            Seq::empty()
        }) + line_events(lines, query, invert, i + 1)
    }
}

/// Scan the lines of one file in order, emitting a line match for every
/// line whose containment of the query differs from the invert flag.
pub fn search_lines(lines: &Vec<String>, query: &str, invert: bool) -> (r: Vec<MatchEvent>)
    ensures
        events_of(r@) == line_events(lines_view(lines@), query@, invert, 0),
{
    let ghost model = lines_view(lines@);
    let mut out: Vec<MatchEvent> = Vec::new();
    let n = lines.len();
    let mut i: usize = 0;
    assert(events_of(out@) =~= Seq::<EventV>::empty());
    while i < n
        invariant
            i <= n,
            n == lines@.len(),
            model == lines_view(lines@),
            events_of(out@) + line_events(model, query@, invert, i as int) == line_events(
                model,
                query@,
                invert,
                0,
            ),
        decreases n - i,
    {
        let line = &lines[i];
        let ghost pre = out@;
        let ghost hit: Seq<EventV> = if selected(model[i as int], query@, invert) {
            seq![EventV::Line { line_number: (i + 1) as nat, text: model[i as int] }]
        } else {
            Seq::<EventV>::empty()
        };
        if is_selected(line.as_str(), query, invert) {
            out.push(MatchEvent::LineMatch { line_number: i + 1, text: line.clone() });
            assert(events_of(out@) =~= events_of(pre) + hit);
        } else {
            assert(events_of(out@) =~= events_of(pre) + hit);
        }
        proof {
            let rest = line_events(model, query@, invert, i + 1);
            assert(line_events(model, query@, invert, i as int) == hit + rest);
            assert(events_of(out@) + rest =~= events_of(pre) + (hit + rest));
        }
        i += 1;
    }
    assert(line_events(model, query@, invert, n as int) =~= Seq::<EventV>::empty());
    assert(events_of(out@) =~= events_of(out@) + Seq::<EventV>::empty());
    out
}

} // verus!
