use vstd::prelude::*;

verus! {

/// An event produced by an engine and consumed exactly once by the
/// collector: a name match, a content line match, or a diagnostic for a
/// directory whose listing failed.
#[derive(Debug, Clone, PartialEq, Eq)]
pub enum MatchEvent {
    NameMatch { path: String },
    LineMatch { line_number: usize, text: String },
    TraversalError { path: String, cause: String },
}

/// The mathematical value of an event: paths and texts as character
/// sequences, line numbers as unbounded naturals.
pub enum EventV {
    Name { path: Seq<char> },
    Line { line_number: nat, text: Seq<char> },
    Error { path: Seq<char>, cause: Seq<char> },
}

impl View for MatchEvent {
    type V = EventV;

    open spec fn view(&self) -> EventV {
        match self {
            MatchEvent::NameMatch { path } => EventV::Name { path: path@ },
            MatchEvent::LineMatch { line_number, text } => EventV::Line {
                line_number: *line_number as nat,
                text: text@,
            },
            MatchEvent::TraversalError { path, cause } => EventV::Error {
                path: path@,
                cause: cause@,
            },
        }
    }
}

/// The sequence of event values carried by a vector of events.
pub open spec fn events_of(s: Seq<MatchEvent>) -> Seq<EventV> {
    s.map_values(|e: MatchEvent| e@)
}

/// How many events of the sequence satisfy `p`.
pub open spec fn count_pred(s: Seq<EventV>, p: spec_fn(EventV) -> bool) -> nat
    decreases s.len(),
{
    if s.len() == 0 {
        0
    } else {
        count_pred(s.drop_first(), p) + if p(s[0]) {
            1nat
        } else {
            0nat
        }
    }
}

/// Holds of the name-match events.
pub open spec fn name_pred() -> spec_fn(EventV) -> bool {
    |e: EventV| e is Name
}

/// Holds of the traversal-error events.
pub open spec fn error_pred() -> spec_fn(EventV) -> bool {
    |e: EventV| e is Error
}

/// How many of the events are name matches.
pub open spec fn count_names(s: Seq<EventV>) -> nat {
    count_pred(s, name_pred())
}

/// How many of the events are traversal errors.
pub open spec fn count_errors(s: Seq<EventV>) -> nat {
    count_pred(s, error_pred())
}

/// Counting a singleton.
pub proof fn lemma_count_pred_single(x: EventV, p: spec_fn(EventV) -> bool)
    ensures
        count_pred(seq![x], p) == if p(x) {
            1nat
        } else {
            0nat
        },
{
    assert(seq![x].drop_first() =~= Seq::<EventV>::empty());
    assert(count_pred(Seq::<EventV>::empty(), p) == 0);
    assert(seq![x][0] == x);
}

/// Counting distributes over concatenation.
pub proof fn lemma_count_pred_add(a: Seq<EventV>, b: Seq<EventV>, p: spec_fn(EventV) -> bool)
    ensures
        count_pred(a + b, p) == count_pred(a, p) + count_pred(b, p),
    decreases a.len(),
{
    if a.len() == 0 {
        assert(a + b =~= b);
    } else {
        assert((a + b).drop_first() =~= a.drop_first() + b);
        lemma_count_pred_add(a.drop_first(), b, p);
        assert((a + b)[0] == a[0]);
    }
}

} // verus!
