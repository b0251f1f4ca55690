//! What the index of a document holds, stated over the events of the
//! document.
//!
//! The events are read once, front to back. Each event is read in a role,
//! which says at which level of the document the walk stands when it comes
//! to the event. The role and the event decide what is recorded for the
//! event and in which role the next event is read. The index is what has
//! been recorded when the walk ends.

use vstd::prelude::*;

use crate::event::{DocEvent, EventRecord};
use crate::path::Location;
use crate::position::Position;
use crate::table::Entry;

verus! {

/// The level at which the walk stands when it reads an event.
pub enum Role {
    /// Between top-level values, which are indexed under the given place.
    Top(Location),
    /// Inside the sequence at the given place, where the element with the
    /// given number is due.
    Element(Location, nat),
    /// Inside the mapping at the given place, where a key is due.
    Key(Location),
    /// Behind a key, where its value is due. The place is that of the key.
    Value(Location),
}

/// What follows an event.
pub enum Step {
    /// The walk at this level ends with the event.
    Stop,
    /// The next event is read in the given role.
    Next(Role),
    /// The events that follow are walked in the first role until that walk
    /// ends, and the walk goes on from there in the second role.
    Nest(Role, Role),
}

/// What follows the event `event` when it is read in the role `role`.
///
/// Between top-level values, the start of a sequence or of a mapping opens
/// a walk of its inside, after which the next top-level value is due.
/// Anything else ends the walk.
///
/// In a sequence, a scalar is an element, and the next element is due. The
/// start of a mapping is an element too: the mapping is walked at the place
/// of the element, and then the next element is due. Anything else ends the
/// walk of the sequence: its end does, and so does the start of a sequence
/// inside it, which is not indexed.
///
/// In a mapping, a scalar is a key: its value is walked at the place of the
/// key, and then the next key is due. Anything else ends the walk of the
/// mapping, its end among it.
///
/// Behind a key, the start of a mapping or of a sequence opens the walk of
/// its inside at the place of the key. Any other value is passed over.
pub open spec fn step(role: Role, event: DocEvent) -> Step {
    match role {
        Role::Top(at) => match event {
            DocEvent::SequenceStart => Step::Nest(Role::Element(at, 0), Role::Top(at)),
            DocEvent::MappingStart => Step::Nest(Role::Key(at), Role::Top(at)),
            _ => Step::Stop,
        },
        Role::Element(at, index) => match event {
            DocEvent::Scalar(_, _, _) => Step::Next(Role::Element(at, index + 1)),
            DocEvent::MappingStart => Step::Nest(
                Role::Key(Location::Sequence(Box::new(at), index)),
                Role::Element(at, index + 1),
            ),
            _ => Step::Stop,
        },
        Role::Key(at) => match event {
            DocEvent::Scalar(key, _, _) => Step::Nest(
                Role::Value(Location::Mapping(Box::new(at), key@)),
                Role::Key(at),
            ),
            _ => Step::Stop,
        },
        Role::Value(at) => match event {
            DocEvent::MappingStart => Step::Next(Role::Key(at)),
            DocEvent::SequenceStart => Step::Next(Role::Element(at, 0)),
            _ => Step::Stop,
        },
    }
}

/// What is recorded for the event `event` at `at` when it is read in the
/// role `role`.
///
/// A scalar that is an element of a sequence is recorded under the path of
/// the element, with its own position. A scalar that is a key of a mapping
/// is recorded under the path of the key, with the position of the key: the
/// value of the key has no entry of its own. Nothing else is recorded.
pub open spec fn entry(role: Role, event: DocEvent, at: Position) -> Option<Entry> {
    match role {
        Role::Element(parent, index) => match event {
            DocEvent::Scalar(_, _, _) => Some(
                (Location::Sequence(Box::new(parent), index).render(), at),
            ),
            _ => None,
        },
        Role::Key(parent) => match event {
            DocEvent::Scalar(key, _, _) => Some(
                (Location::Mapping(Box::new(parent), key@).render(), at),
            ),
            _ => None,
        },
        _ => None,
    }
}

/// One event read: its index among the events, and the role in which it
/// was read.
pub struct Visit {
    pub event: int,
    pub role: Role,
}

/// The outcome of a walk: the index of the first event that it has not
/// read, and the events that it has read, in the order in which it read
/// them.
pub struct Walk {
    pub cursor: int,
    pub visits: Seq<Visit>,
}

/// The walk that stops at `cursor` and reads nothing.
pub open spec fn halt(cursor: int) -> Walk {
    Walk { cursor, visits: Seq::empty() }
}

/// The walk that reads the event at `cursor` in the role `role`, and
/// nothing more.
pub open spec fn read(cursor: int, role: Role) -> Walk {
    Walk { cursor: cursor + 1, visits: seq![Visit { event: cursor, role }] }
}

/// One walk followed by another.
pub open spec fn chain(first: Walk, second: Walk) -> Walk {
    Walk { cursor: second.cursor, visits: first.visits + second.visits }
}

/// A walk that started on the event at `cursor` has stopped at `next`,
/// further on and not past the end.
///
/// Every walk that starts on an event stops so (`lemma_walk_advances`).
/// The definition of [`walk`] tests it before it goes on from where a
/// nested walk has stopped, which shows that the definition ends.
pub open spec fn advanced(events: Seq<EventRecord>, cursor: int, next: int) -> bool {
    cursor < next <= events.len()
}

/// The walk that starts at `cursor` in the role `role`.
///
/// Where no event is left, nothing is read. Else the event at the cursor is
/// read, and [`step`] says what follows.
pub open spec fn walk(events: Seq<EventRecord>, cursor: int, role: Role) -> Walk
    decreases events.len() - cursor,
{
    if !(0 <= cursor < events.len()) {
        halt(cursor)
    } else {
        let here = read(cursor, role);
        match step(role, events[cursor].0) {
            Step::Stop => here,
            Step::Next(next) => chain(here, walk(events, cursor + 1, next)),
            Step::Nest(inner, after) => {
                let nested = chain(here, walk(events, cursor + 1, inner));
                if advanced(events, cursor, nested.cursor) {
                    chain(nested, walk(events, nested.cursor, after))
                } else {
                    nested
                }
            },
        }
    }
}

/// What a visit records, if anything.
pub open spec fn entry_of(events: Seq<EventRecord>, visit: Visit) -> Option<Entry> {
    entry(visit.role, events[visit.event].0, events[visit.event].1)
}

/// The visit records something under the path `path`.
pub open spec fn records(events: Seq<EventRecord>, visit: Visit, path: Seq<char>) -> bool {
    entry_of(events, visit) matches Some(found) && found.0 == path
}

/// The table after a visit: what the visit records takes the place of what
/// the table held for the same path.
pub open spec fn record(
    events: Seq<EventRecord>,
    table: Map<Seq<char>, Position>,
    visit: Visit,
) -> Map<Seq<char>, Position> {
    match entry_of(events, visit) {
        Some(found) => table.insert(found.0, found.1),
        None => table,
    }
}

/// The table after a run of visits, each recorded in its turn.
pub open spec fn record_all(
    events: Seq<EventRecord>,
    table: Map<Seq<char>, Position>,
    visits: Seq<Visit>,
) -> Map<Seq<char>, Position>
    decreases visits.len(),
{
    if visits.len() == 0 {
        table
    } else {
        record_all(events, record(events, table, visits[0]), visits.drop_first())
    }
}

/// The visits of a whole document: its events walked from the first, from
/// the root.
pub open spec fn visits_of(events: Seq<EventRecord>) -> Seq<Visit> {
    walk(events, 0, Role::Top(Location::Root)).visits
}

/// The index of a document with the events `events`.
pub open spec fn index_of(events: Seq<EventRecord>) -> Map<Seq<char>, Position> {
    record_all(events, Map::empty(), visits_of(events))
}

/// A walk that starts where no event is left reads nothing.
pub proof fn lemma_walk_at_end(events: Seq<EventRecord>, cursor: int, role: Role)
    requires
        !(0 <= cursor < events.len()),
    ensures
        walk(events, cursor, role) == halt(cursor),
{
}

/// A walk that starts on an event stops further on, and not past the end.
pub proof fn lemma_walk_advances(events: Seq<EventRecord>, cursor: int, role: Role)
    requires
        0 <= cursor < events.len(),
    ensures
        advanced(events, cursor, walk(events, cursor, role).cursor),
    decreases events.len() - cursor,
{
    match step(role, events[cursor].0) {
        Step::Stop => {},
        Step::Next(next) => {
            if cursor + 1 < events.len() {
                lemma_walk_advances(events, cursor + 1, next);
            } else {
                lemma_walk_at_end(events, cursor + 1, next);
            }
        },
        Step::Nest(inner, after) => {
            if cursor + 1 < events.len() {
                lemma_walk_advances(events, cursor + 1, inner);
            } else {
                lemma_walk_at_end(events, cursor + 1, inner);
            }
            let opened = walk(events, cursor + 1, inner);
            if opened.cursor < events.len() {
                lemma_walk_advances(events, opened.cursor, after);
            } else {
                lemma_walk_at_end(events, opened.cursor, after);
            }
        },
    }
}

/// The events are read in a single pass: a walk reads the event at which
/// it starts first, in the role in which it starts, and then only events
/// further on, each once, up to where it stops.
pub proof fn lemma_walk_reads_forward(events: Seq<EventRecord>, cursor: int, role: Role)
    requires
        0 <= cursor < events.len(),
    ensures
        ({
            let done = walk(events, cursor, role);
            &&& done.visits.len() > 0
            &&& done.visits[0] == Visit { event: cursor, role }
            &&& forall|i: int|
                0 <= i < done.visits.len() ==> cursor <= (#[trigger] done.visits[i]).event
                    < done.cursor
            &&& forall|i: int, j: int|
                0 <= i < j < done.visits.len() ==> (#[trigger] done.visits[i]).event < (
                #[trigger] done.visits[j]).event
        }),
    decreases events.len() - cursor,
{
    let here = read(cursor, role);
    match step(role, events[cursor].0) {
        Step::Stop => {},
        Step::Next(next) => {
            let rest = walk(events, cursor + 1, next);
            if cursor + 1 < events.len() {
                lemma_walk_reads_forward(events, cursor + 1, next);
            } else {
                lemma_walk_at_end(events, cursor + 1, next);
            }
            lemma_joined_forward(here, rest, cursor, cursor + 1);
        },
        Step::Nest(inner, after) => {
            let first = walk(events, cursor + 1, inner);
            if cursor + 1 < events.len() {
                lemma_walk_reads_forward(events, cursor + 1, inner);
            } else {
                lemma_walk_at_end(events, cursor + 1, inner);
            }
            lemma_joined_forward(here, first, cursor, cursor + 1);
            let nested = chain(here, first);
            let rest = walk(events, nested.cursor, after);
            if 0 <= nested.cursor < events.len() {
                lemma_walk_reads_forward(events, nested.cursor, after);
            } else {
                lemma_walk_at_end(events, nested.cursor, after);
            }
            lemma_joined_forward(nested, rest, cursor, nested.cursor);
        },
    }
}

/// The walk reads forward from `low`: the events that it has read lie in
/// ascending order between `low` and where it has stopped.
spec fn forward(walk: Walk, low: int) -> bool {
    &&& forall|i: int| 0 <= i < walk.visits.len() ==> low <= (#[trigger] walk.visits[i]).event
        < walk.cursor
    &&& forall|i: int, j: int|
        0 <= i < j < walk.visits.len() ==> (#[trigger] walk.visits[i]).event < (
        #[trigger] walk.visits[j]).event
}

/// Two walks in a row that each read forward read forward together.
proof fn lemma_joined_forward(first: Walk, second: Walk, low: int, middle: int)
    requires
        forward(first, low),
        low <= middle,
        first.cursor == middle,
        second.visits.len() > 0 ==> forward(second, middle),
        second.visits.len() == 0 ==> second.cursor == middle,
    ensures
        forward(chain(first, second), low),
{
    let joined = chain(first, second);
    let n = first.visits.len();
    if second.visits.len() > 0 {
        assert(middle <= second.visits[0].event < second.cursor);
    }
    assert forall|i: int| 0 <= i < joined.visits.len() implies low <= (
    #[trigger] joined.visits[i]).event < joined.cursor by {
        if i < n {
            assert(joined.visits[i] == first.visits[i]);
        } else {
            assert(joined.visits[i] == second.visits[i - n]);
        }
    }
    assert forall|i: int, j: int| 0 <= i < j < joined.visits.len() implies (
    #[trigger] joined.visits[i]).event < (#[trigger] joined.visits[j]).event by {
        if j < n {
            assert(joined.visits[i] == first.visits[i]);
            assert(joined.visits[j] == first.visits[j]);
        } else if i < n {
            assert(joined.visits[i] == first.visits[i]);
            assert(joined.visits[j] == second.visits[j - n]);
        } else {
            assert(joined.visits[i] == second.visits[i - n]);
            assert(joined.visits[j] == second.visits[j - n]);
        }
    }
}

/// Recording keeps every path that the table held, and keeps its position
/// unless one of the visits records the same path.
pub proof fn lemma_record_all_keeps(
    events: Seq<EventRecord>,
    table: Map<Seq<char>, Position>,
    visits: Seq<Visit>,
    path: Seq<char>,
)
    requires
        table.contains_key(path),
    ensures
        record_all(events, table, visits).contains_key(path),
        (forall|j: int| 0 <= j < visits.len() ==> !records(events, #[trigger] visits[j], path))
            ==> record_all(events, table, visits)[path] == table[path],
    decreases visits.len(),
{
    if visits.len() > 0 {
        let rest = visits.drop_first();
        lemma_record_all_keeps(events, record(events, table, visits[0]), rest, path);
        if forall|j: int| 0 <= j < visits.len() ==> !records(events, #[trigger] visits[j], path) {
            assert(!records(events, visits[0], path));
            assert forall|j: int| 0 <= j < rest.len() implies !records(
                events,
                #[trigger] rest[j],
                path,
            ) by {
                assert(rest[j] == visits[j + 1]);
            }
        }
    }
}

/// What a visit records is in the table afterwards: the path is there, and
/// with the position that the visit recorded unless a later visit records
/// the same path.
pub proof fn lemma_visit_recorded(
    events: Seq<EventRecord>,
    table: Map<Seq<char>, Position>,
    visits: Seq<Visit>,
    i: int,
)
    requires
        0 <= i < visits.len(),
        entry_of(events, visits[i]) is Some,
    ensures
        ({
            let found = entry_of(events, visits[i])->Some_0;
            let after = record_all(events, table, visits);
            &&& after.contains_key(found.0)
            &&& (forall|j: int|
                i < j < visits.len() ==> !records(events, #[trigger] visits[j], found.0))
                ==> after[found.0] == found.1
        }),
    decreases visits.len(),
{
    let found = entry_of(events, visits[i])->Some_0;
    let rest = visits.drop_first();
    let next = record(events, table, visits[0]);
    if i == 0 {
        lemma_record_all_keeps(events, next, rest, found.0);
        if forall|j: int| i < j < visits.len() ==> !records(events, #[trigger] visits[j], found.0) {
            assert forall|j: int| 0 <= j < rest.len() implies !records(
                events,
                #[trigger] rest[j],
                found.0,
            ) by {
                assert(rest[j] == visits[j + 1]);
            }
        }
    } else {
        assert(rest[i - 1] == visits[i]);
        lemma_visit_recorded(events, next, rest, i - 1);
        if forall|j: int| i < j < visits.len() ==> !records(events, #[trigger] visits[j], found.0) {
            assert forall|j: int| i - 1 < j < rest.len() implies !records(
                events,
                #[trigger] rest[j],
                found.0,
            ) by {
                assert(rest[j] == visits[j + 1]);
            }
        }
    }
}

/// The table holds after recording only paths that it held before or that
/// one of the visits recorded.
pub proof fn lemma_recorded_by_visit(
    events: Seq<EventRecord>,
    table: Map<Seq<char>, Position>,
    visits: Seq<Visit>,
    path: Seq<char>,
)
    requires
        record_all(events, table, visits).contains_key(path),
    ensures
        table.contains_key(path) || exists|i: int|
            0 <= i < visits.len() && records(events, #[trigger] visits[i], path),
    decreases visits.len(),
{
    if visits.len() > 0 {
        let rest = visits.drop_first();
        lemma_recorded_by_visit(events, record(events, table, visits[0]), rest, path);
        if !table.contains_key(path) && !records(events, visits[0], path) {
            let i = choose|i: int| 0 <= i < rest.len() && records(events, #[trigger] rest[i], path);
            assert(visits[i + 1] == rest[i]);
        }
    }
}

/// Every scalar that is read as an element of a sequence is in the index
/// under the path of the element, and with its own position unless the
/// same path is recorded again later in the walk.
pub proof fn lemma_element_indexed(events: Seq<EventRecord>, i: int, at: Location, index: nat)
    requires
        0 <= i < visits_of(events).len(),
        visits_of(events)[i].role == Role::Element(at, index),
        events[visits_of(events)[i].event].0 is Scalar,
    ensures
        ({
            let visits = visits_of(events);
            let path = Location::Sequence(Box::new(at), index).render();
            &&& index_of(events).contains_key(path)
            &&& (forall|j: int| i < j < visits.len() ==> !records(events, #[trigger] visits[j], path))
                ==> index_of(events)[path] == events[visits[i].event].1
        }),
{
    lemma_visit_recorded(events, Map::empty(), visits_of(events), i);
}

/// Every scalar that is read as a key of a mapping is in the index under
/// the path of the key, and with the position of the key unless the same
/// path is recorded again later in the walk. The value of the key has no
/// part in it.
pub proof fn lemma_key_indexed(events: Seq<EventRecord>, i: int, at: Location)
    requires
        0 <= i < visits_of(events).len(),
        visits_of(events)[i].role == Role::Key(at),
        events[visits_of(events)[i].event].0 is Scalar,
    ensures
        ({
            let visits = visits_of(events);
            let key = events[visits[i].event].0->Scalar_0;
            let path = Location::Mapping(Box::new(at), key@).render();
            &&& index_of(events).contains_key(path)
            &&& (forall|j: int| i < j < visits.len() ==> !records(events, #[trigger] visits[j], path))
                ==> index_of(events)[path] == events[visits[i].event].1
        }),
{
    lemma_visit_recorded(events, Map::empty(), visits_of(events), i);
}

/// Every path of the index was recorded for a scalar that was read as an
/// element of a sequence or as a key of a mapping.
pub proof fn lemma_index_from_scalars(events: Seq<EventRecord>, path: Seq<char>)
    requires
        index_of(events).contains_key(path),
    ensures
        exists|i: int|
            0 <= i < visits_of(events).len() && records(events, #[trigger] visits_of(events)[i], path),
{
    lemma_recorded_by_visit(events, Map::empty(), visits_of(events), path);
}

} // verus!
