//! The table of positions of one document, and the walk that fills it.

use vstd::prelude::*;
use vstd::string::*;

use crate::event::{normalized, normalized_all, DocEvent, EventRecord, RawEvent};
use crate::path::{push_decimal, Location, Path};
use crate::position::Position;
use crate::table::{
    as_map, ascending, lemma_ascending_distinct, lemma_entries_determined, Entry, Table,
};
use crate::walk::{
    chain, halt, index_of, lemma_walk_advances, lemma_walk_at_end, read, record, record_all,
    step, walk, Role, Step, Visit, Walk,
};

verus! {

/// A table of [`Position`] information for one document.
///
/// It holds the events of the document, a cursor into them, and the index
/// from path strings to positions. Its view is the index.
pub struct Positions {
    pos: usize,
    events: Vec<EventRecord>,
    index: Table,
}

impl View for Positions {
    type V = Map<Seq<char>, Position>;

    closed spec fn view(&self) -> Map<Seq<char>, Position> {
        self.index@
    }
}

impl Default for Positions {
    /// A table with no events and an empty index.
    fn default() -> (p: Self)
        ensures
            p.wf(),
            p.events() == Seq::<EventRecord>::empty(),
            p.cursor() == 0,
            p@ == Map::<Seq<char>, Position>::empty(),
            p.entries() == Seq::<Entry>::empty(),
    {
        let index = Table::new();
        proof {
            use_type_invariant(&index);
        }
        Positions { pos: 0, events: Vec::new(), index }
    }
}

impl Positions {
    /// The events that were kept, in the order in which they came.
    pub closed spec fn events(&self) -> Seq<EventRecord> {
        self.events@
    }

    /// The index of the first event that the walk has not read.
    pub closed spec fn cursor(&self) -> int {
        self.pos as int
    }

    /// The entries of the index in the order in which they are listed.
    pub closed spec fn entries(&self) -> Seq<Entry> {
        self.index.entries()
    }

    /// The index is the map of its entries, and these are in strictly
    /// ascending order of their paths.
    pub closed spec fn wf(&self) -> bool {
        self.index.wf()
    }

    /// This table is what indexing the parser events `raw` gives: the kept
    /// events, all of them read from the root, and the index of what was
    /// found.
    pub open spec fn built_from(&self, raw: Seq<(RawEvent, Position)>) -> bool {
        &&& self.wf()
        &&& self.events() == normalized_all(raw)
        &&& self.cursor() == walk(self.events(), 0, Role::Top(Location::Root)).cursor
        &&& self@ == index_of(self.events())
    }

    /// Gets the position recorded for a path, given as the path's string.
    ///
    /// The string is compared as it is: the position is returned where the
    /// index holds exactly this string, and nothing where it does not.
    pub fn get(&self, ptr: &str) -> (r: Option<&Position>)
        ensures
            match r {
                Some(at) => self@.contains_key(ptr@) && *at == self@[ptr@],
                None => !self@.contains_key(ptr@),
            },
    {
        self.index.get(ptr)
    }

    /// The entries of the index, each path once, in ascending order of the
    /// path strings.
    pub fn iter(&self) -> (r: &Vec<(String, Position)>)
        ensures
            r@.len() == self.entries().len(),
            forall|i: int|
                0 <= i < r@.len() ==> (#[trigger] r@[i]).0@ == self.entries()[i].0 && r@[i].1
                    == self.entries()[i].1,
            ascending(self.entries()),
            forall|i: int, j: int|
                0 <= i < j < r@.len() ==> (#[trigger] r@[i]).0@ != (#[trigger] r@[j]).0@,
            self@ == as_map(self.entries()),
            self.wf(),
    {
        let r = self.index.as_vec();
        proof {
            assert forall|i: int, j: int| 0 <= i < j < r@.len() implies (#[trigger] r@[i]).0@ != (
            #[trigger] r@[j]).0@ by {
                if r@[i].0@ == r@[j].0@ {
                    lemma_ascending_distinct(self.entries(), i, j);
                }
            }
        }
        r
    }

    /// Takes one event of the parser with its position: keeps what shapes
    /// the document, at the end of the events, and drops the rest.
    pub fn on_event(&mut self, event: RawEvent, marker: Position)
        ensures
            final(self).events() == match normalized(event) {
                Some(kept) => old(self).events().push((kept, marker)),
                None => old(self).events(),
            },
            final(self).cursor() == old(self).cursor(),
            final(self)@ == old(self)@,
            final(self).entries() == old(self).entries(),
            final(self).wf(),
    {
        proof {
            use_type_invariant(&self.index);
        }
        let event = match event {
            RawEvent::Nothing
            | RawEvent::StreamStart
            | RawEvent::StreamEnd
            | RawEvent::DocumentStart
            | RawEvent::DocumentEnd
            | RawEvent::Alias(_) => {
                return ;
            },
            RawEvent::Scalar(value, style, _, tag) => DocEvent::Scalar(value, style, tag),
            RawEvent::SequenceStart(_) => DocEvent::SequenceStart,
            RawEvent::SequenceEnd => DocEvent::SequenceEnd,
            RawEvent::MappingStart(_) => DocEvent::MappingStart,
            RawEvent::MappingEnd => DocEvent::MappingEnd,
        };
        self.events.push((event, marker));
    }

    /// Reads the next event, if one is left: moves the cursor past it and
    /// returns its index.
    fn next(&mut self) -> (r: Option<usize>)
        ensures
            final(self).events() == old(self).events(),
            final(self)@ == old(self)@,
            final(self).entries() == old(self).entries(),
            match r {
                Some(i) => {
                    &&& i == old(self).cursor()
                    &&& i < old(self).events().len()
                    &&& final(self).cursor() == i + 1
                },
                None => {
                    &&& old(self).cursor() >= old(self).events().len()
                    &&& final(self).cursor() == old(self).cursor()
                },
            },
    {
        let i: usize = self.pos;
        if i < self.events.len() {
            self.pos = i + 1;
            Some(i)
        } else {
            None
        }
    }

    /// Walks the events between top-level values from the cursor on, and
    /// records under `path` what is found.
    ///
    /// The start of a sequence or of a mapping is read, its inside is
    /// walked, and the walk goes on with what follows. Anything else is read
    /// and ends the walk, and so does the end of the events.
    ///
    /// The levels that the walk has entered and not left are kept on a
    /// stack of its own, so that a document may be nested as deeply as
    /// memory allows.
    pub fn collect(&mut self, path: &Path)
        ensures
            final(self).wf(),
            final(self).events() == old(self).events(),
            final(self).cursor() >= old(self).cursor(),
            final(self).cursor() == walk(
                old(self).events(),
                old(self).cursor(),
                Role::Top(path@),
            ).cursor,
            final(self)@ == record_all(
                old(self).events(),
                old(self)@,
                walk(old(self).events(), old(self).cursor(), Role::Top(path@)).visits,
            ),
    {
        let ghost events = self.events();
        let ghost goal = walk(events, self.cursor(), Role::Top(path@));
        let ghost table = self@;
        let mut pending: Vec<Frame> = Vec::new();
        let mut frame = Frame::top(path);
        proof {
            assert(roles(pending@) =~= Seq::<Role>::empty());
        }
        loop
            invariant
                events == old(self).events(),
                table == old(self)@,
                goal == walk(events, old(self).cursor(), Role::Top(path@)),
                self.events() == events,
                self.cursor() >= old(self).cursor(),
                frame.valid(self.cursor()),
                forall|k: int|
                    0 <= k < pending@.len() ==> (#[trigger] pending@[k]).valid(self.cursor()),
                rest(events, self.cursor(), frame.role(), roles(pending@)).cursor == goal.cursor,
                record_all(
                    events,
                    self@,
                    rest(events, self.cursor(), frame.role(), roles(pending@)).visits,
                ) == record_all(events, table, goal.visits),
            decreases events.len() - self.cursor(),
        {
            let ghost cursor = self.cursor();
            let ghost due = roles(pending@);
            let i: usize = match self.next() {
                Some(i) => i,
                None => {
                    proof {
                        lemma_rest_at_end(events, cursor, frame.role(), due);
                        use_type_invariant(&self.index);
                    }
                    return ;
                },
            };
            proof {
                lemma_rest_step(events, self@, cursor, frame.role(), due);
            }
            let moved = match frame.level {
                Level::Top => self.collect_top(i, frame),
                Level::Element => self.collect_seq(i, frame),
                Level::Key | Level::Value => self.collect_map(i, frame),
            };
            match moved {
                Move::Stop => match pending.pop() {
                    Some(outer) => {
                        proof {
                            assert(roles(pending@) =~= due.drop_last());
                        }
                        frame = outer;
                    },
                    None => {
                        proof {
                            use_type_invariant(&self.index);
                        }
                        return ;
                    },
                },
                Move::Next(next) => {
                    frame = next;
                },
                Move::Nest(inner, after) => {
                    proof {
                        assert(roles(pending@.push(after)) =~= due.push(after.role()));
                    }
                    pending.push(after);
                    frame = inner;
                },
            }
        }
    }

    /// Reads the event at `i` between top-level values.
    ///
    /// The start of a sequence or of a mapping opens a walk of its inside
    /// at the same place, after which the next top-level value is due.
    /// Anything else ends the walk.
    fn collect_top(&self, i: usize, frame: Frame) -> (moved: Move)
        requires
            i < self.events().len(),
            frame.level is Top,
            frame.valid(i as int),
        ensures
            moved.valid(i + 1),
            moved.step() == step(frame.role(), self.events()[i as int].0),
    {
        match &self.events[i].0 {
            DocEvent::SequenceStart => {
                let inner = Frame {
                    level: Level::Element,
                    index: 0,
                    prefix: frame.prefix.clone(),
                    root: frame.root,
                    at: frame.at,
                };
                Move::Nest(inner, frame)
            },
            DocEvent::MappingStart => {
                let inner = Frame {
                    level: Level::Key,
                    index: 0,
                    prefix: frame.prefix.clone(),
                    root: frame.root,
                    at: frame.at,
                };
                Move::Nest(inner, frame)
            },
            _ => Move::Stop,
        }
    }

    /// Reads the event at `i` inside a sequence, where `frame` says which
    /// sequence it is and which element is due.
    ///
    /// A scalar is recorded under the path of its element, with its own
    /// position, and the next element is due. The start of a mapping opens a
    /// walk of the mapping under the path of its element, after which the
    /// next element is due. Anything else ends the walk of the sequence: its
    /// end, and the start of a sequence inside it.
    fn collect_seq(&mut self, i: usize, frame: Frame) -> (moved: Move)
        requires
            i < old(self).events().len(),
            frame.level is Element,
            frame.valid(i as int),
        ensures
            final(self).events() == old(self).events(),
            final(self).cursor() == old(self).cursor(),
            final(self)@ == record(
                old(self).events(),
                old(self)@,
                Visit { event: i as int, role: frame.role() },
            ),
            moved.valid(i + 1),
            moved.step() == step(frame.role(), old(self).events()[i as int].0),
    {
        assert(frame.index < self.events.len());
        let at: Position = self.events[i].1;
        match &self.events[i].0 {
            DocEvent::Scalar(_, _, _) => {
                self.index.insert(frame.element_path(), at);
                Move::Next(
                    Frame {
                        level: Level::Element,
                        index: frame.index + 1,
                        prefix: frame.prefix,
                        root: frame.root,
                        at: frame.at,
                    },
                )
            },
            DocEvent::MappingStart => {
                let inner = Frame {
                    level: Level::Key,
                    index: 0,
                    prefix: frame.element_path(),
                    root: false,
                    at: Ghost(Location::Sequence(Box::new(frame.at@), frame.index as nat)),
                };
                let after = Frame {
                    level: Level::Element,
                    index: frame.index + 1,
                    prefix: frame.prefix,
                    root: frame.root,
                    at: frame.at,
                };
                Move::Nest(inner, after)
            },
            _ => Move::Stop,
        }
    }

    /// Reads the event at `i` inside a mapping, where `frame` says which
    /// mapping it is and whether a key is due or the value of a key.
    ///
    /// Where a key is due, a scalar is the key: it is recorded under the
    /// path of the key, with the position of the key, and its value is due,
    /// after which the next key is. Anything else ends the walk of the
    /// mapping, its end among it.
    ///
    /// Where a value is due, the start of a mapping or of a sequence opens
    /// the walk of its inside under the path of the key. Any other value is
    /// passed over: nothing is recorded for it.
    fn collect_map(&mut self, i: usize, frame: Frame) -> (moved: Move)
        requires
            i < old(self).events().len(),
            frame.level is Key || frame.level is Value,
            frame.valid(i as int),
        ensures
            final(self).events() == old(self).events(),
            final(self).cursor() == old(self).cursor(),
            final(self)@ == record(
                old(self).events(),
                old(self)@,
                Visit { event: i as int, role: frame.role() },
            ),
            moved.valid(i + 1),
            moved.step() == step(frame.role(), old(self).events()[i as int].0),
    {
        let at: Position = self.events[i].1;
        match frame.level {
            Level::Key => match &self.events[i].0 {
                DocEvent::Scalar(key, _, _) => {
                    let path = frame.key_path(key.as_str());
                    let value = Frame {
                        level: Level::Value,
                        index: 0,
                        prefix: path.clone(),
                        root: false,
                        at: Ghost(Location::Mapping(Box::new(frame.at@), key@)),
                    };
                    self.index.insert(path, at);
                    Move::Nest(value, frame)
                },
                _ => Move::Stop,
            },
            _ => match &self.events[i].0 {
                DocEvent::MappingStart => Move::Next(
                    Frame {
                        level: Level::Key,
                        index: 0,
                        prefix: frame.prefix,
                        root: frame.root,
                        at: frame.at,
                    },
                ),
                DocEvent::SequenceStart => Move::Next(
                    Frame {
                        level: Level::Element,
                        index: 0,
                        prefix: frame.prefix,
                        root: frame.root,
                        at: frame.at,
                    },
                ),
                _ => Move::Stop,
            },
        }
    }

    /// Indexes a document from the events of its parse: keeps what shapes
    /// the document, walks it from the root and records what is found.
    pub fn from_events(raw: Vec<(RawEvent, Position)>) -> (p: Positions)
        ensures
            p.built_from(raw@),
    {
        let mut positions = Positions::default();
        let ghost all = raw@;
        for record in it: raw
            invariant
                it.seq() == all,
                positions.events() == normalized_all(all.take(it.index() as int)),
                positions.cursor() == 0,
                positions@ == Map::<Seq<char>, Position>::empty(),
        {
            proof {
                assert(all.take(it.index() + 1).drop_last() =~= all.take(it.index() as int));
            }
            let (event, marker) = record;
            positions.on_event(event, marker);
        }
        proof {
            assert(all.take(all.len() as int) =~= all);
        }
        positions.collect(&Path::Root);
        positions
    }

    /// A valid table lists each path once, in ascending order, and its
    /// index is the map of what it lists.
    pub proof fn lemma_listing(self)
        requires
            self.wf(),
        ensures
            ascending(self.entries()),
            self@ == as_map(self.entries()),
            forall|i: int, j: int|
                0 <= i < j < self.entries().len() ==> (#[trigger] self.entries()[i]).0 != (
                #[trigger] self.entries()[j]).0,
    {
        assert forall|i: int, j: int| 0 <= i < j < self.entries().len() implies (
        #[trigger] self.entries()[i]).0 != (#[trigger] self.entries()[j]).0 by {
            if self.entries()[i].0 == self.entries()[j].0 {
                lemma_ascending_distinct(self.entries(), i, j);
            }
        }
    }

    /// Two valid tables with the same index list the same entries in the
    /// same order.
    pub proof fn lemma_same_index_same_listing(self, other: Positions)
        requires
            self.wf(),
            other.wf(),
            self@ == other@,
        ensures
            self.entries() == other.entries(),
    {
        lemma_entries_determined(self.entries(), other.entries());
    }
}

/// The level at which the walk stands: between top-level values, in a
/// sequence, in a mapping where a key is due, or behind a key.
enum Level {
    Top,
    Element,
    Key,
    Value,
}

/// One level of the walk: the level, the place that it is at, and in a
/// sequence the number of the element that is due.
///
/// The place is kept as the string of its path, and as whether it is the
/// root.
struct Frame {
    level: Level,
    index: usize,
    prefix: String,
    root: bool,
    at: Ghost<Location>,
}

/// What follows an event: the walk at this level ends, or goes on at the
/// level of the frame, or enters the level of the first frame and goes on
/// at that of the second when that walk has ended.
enum Move {
    Stop,
    Next(Frame),
    Nest(Frame, Frame),
}

impl Frame {
    /// The role in which the next event is read.
    spec fn role(&self) -> Role {
        match self.level {
            Level::Top => Role::Top(self.at@),
            Level::Element => Role::Element(self.at@, self.index as nat),
            Level::Key => Role::Key(self.at@),
            Level::Value => Role::Value(self.at@),
        }
    }

    /// The frame holds the path of its place, and the element that is due
    /// has no higher number than the event at `cursor`.
    spec fn valid(&self, cursor: int) -> bool {
        &&& self.prefix@ == self.at@.render()
        &&& self.root == (self.at@ is Root)
        &&& self.index <= cursor
    }

    /// The level between top-level values at the place of `path`.
    fn top(path: &Path) -> (frame: Frame)
        ensures
            frame.level is Top,
            frame.role() == Role::Top(path@),
            frame.valid(0),
    {
        let root = match path {
            Path::Root => true,
            _ => false,
        };
        Frame { level: Level::Top, index: 0, prefix: path.to_string(), root, at: Ghost(path@) }
    }

    /// The path of the element that is due in the sequence of this frame.
    fn element_path(&self) -> (path: String)
        requires
            self.prefix@ == self.at@.render(),
        ensures
            path@ == Location::Sequence(Box::new(self.at@), self.index as nat).render(),
    {
        proof {
            reveal_strlit("/");
        }
        let mut path = self.prefix.clone();
        path.append("/");
        push_decimal(&mut path, self.index);
        path
    }

    /// The path of a key in the mapping of this frame.
    fn key_path(&self, key: &str) -> (path: String)
        requires
            self.prefix@ == self.at@.render(),
            self.root == (self.at@ is Root),
        ensures
            path@ == Location::Mapping(Box::new(self.at@), key@).render(),
    {
        proof {
            reveal_strlit("/");
        }
        if self.root {
            let mut path = String::from_str("/");
            path.append(key);
            assert(path@ =~= seq!['/'] + key@);
            path
        } else {
            let mut path = self.prefix.clone();
            path.append("/");
            path.append(key);
            assert(path@ =~= self.at@.render() + seq!['/'] + key@);
            path
        }
    }
}

impl Move {
    /// What follows, over roles.
    spec fn step(&self) -> Step {
        match self {
            Move::Stop => Step::Stop,
            Move::Next(next) => Step::Next(next.role()),
            Move::Nest(inner, after) => Step::Nest(inner.role(), after.role()),
        }
    }

    /// The frames are valid.
    spec fn valid(&self, cursor: int) -> bool {
        match self {
            Move::Stop => true,
            Move::Next(next) => next.valid(cursor),
            Move::Nest(inner, after) => inner.valid(cursor) && after.valid(cursor),
        }
    }
}

/// The roles of a stack of frames.
spec fn roles(frames: Seq<Frame>) -> Seq<Role> {
    frames.map_values(|frame: Frame| frame.role())
}

/// What is left of the walk when it stands at `cursor` in the role `role`
/// and the roles `pending` are due after it, the innermost last: the walk
/// in the role, and then the walks in the roles that are due, each from
/// where the one before it has stopped.
spec fn rest(events: Seq<EventRecord>, cursor: int, role: Role, pending: Seq<Role>) -> Walk
    decreases pending.len(),
{
    let now = walk(events, cursor, role);
    if pending.len() == 0 {
        now
    } else {
        chain(now, rest(events, now.cursor, pending.last(), pending.drop_last()))
    }
}

/// Where no event is left, nothing is left of the walk.
proof fn lemma_rest_at_end(events: Seq<EventRecord>, cursor: int, role: Role, pending: Seq<Role>)
    requires
        !(0 <= cursor < events.len()),
    ensures
        rest(events, cursor, role, pending) == halt(cursor),
    decreases pending.len(),
{
    lemma_walk_at_end(events, cursor, role);
    if pending.len() > 0 {
        lemma_rest_at_end(events, cursor, pending.last(), pending.drop_last());
        assert(Seq::<Visit>::empty() + Seq::<Visit>::empty() =~= Seq::<Visit>::empty());
    }
}

/// What is left of the walk on an event is the event, and then what is
/// left behind it: in the role that is due where the event ends its level,
/// else in the role that follows the event, with the role that is due
/// after a nested walk added to those that were due.
proof fn lemma_rest_step(
    events: Seq<EventRecord>,
    table: Map<Seq<char>, Position>,
    cursor: int,
    role: Role,
    pending: Seq<Role>,
)
    requires
        0 <= cursor < events.len(),
    ensures
        ({
            let whole = rest(events, cursor, role, pending);
            let left = match step(role, events[cursor].0) {
                Step::Stop => if pending.len() == 0 {
                    halt(cursor + 1)
                } else {
                    rest(events, cursor + 1, pending.last(), pending.drop_last())
                },
                Step::Next(next) => rest(events, cursor + 1, next, pending),
                Step::Nest(inner, after) => rest(events, cursor + 1, inner, pending.push(after)),
            };
            &&& whole.cursor == left.cursor
            &&& record_all(events, table, whole.visits) == record_all(
                events,
                record(events, table, Visit { event: cursor, role }),
                left.visits,
            )
        }),
{
    let here = read(cursor, role);
    let now = walk(events, cursor, role);
    let whole = rest(events, cursor, role, pending);
    let left = match step(role, events[cursor].0) {
        Step::Stop => if pending.len() == 0 {
            halt(cursor + 1)
        } else {
            rest(events, cursor + 1, pending.last(), pending.drop_last())
        },
        Step::Next(next) => rest(events, cursor + 1, next, pending),
        Step::Nest(inner, after) => rest(events, cursor + 1, inner, pending.push(after)),
    };
    match step(role, events[cursor].0) {
        Step::Stop => {},
        Step::Next(next) => {
            let follow = walk(events, cursor + 1, next);
            if pending.len() > 0 {
                let tail = rest(events, follow.cursor, pending.last(), pending.drop_last());
                assert((here.visits + follow.visits) + tail.visits =~= here.visits + (
                follow.visits + tail.visits));
            }
        },
        Step::Nest(inner, after) => {
            let opened = walk(events, cursor + 1, inner);
            if cursor + 1 < events.len() {
                lemma_walk_advances(events, cursor + 1, inner);
            } else {
                lemma_walk_at_end(events, cursor + 1, inner);
            }
            let outer = walk(events, opened.cursor, after);
            let due = pending.push(after);
            assert(due.last() == after);
            assert(due.drop_last() =~= pending);
            assert(now == chain(chain(here, opened), outer));
            let behind = rest(events, opened.cursor, after, pending);
            assert(left == chain(opened, behind));
            if pending.len() == 0 {
                assert((here.visits + opened.visits) + outer.visits =~= here.visits + (
                opened.visits + outer.visits));
            } else {
                let tail = rest(events, outer.cursor, pending.last(), pending.drop_last());
                assert(((here.visits + opened.visits) + outer.visits) + tail.visits
                    =~= here.visits + (opened.visits + (outer.visits + tail.visits)));
            }
        },
    }
    assert(whole.visits =~= here.visits + left.visits);
    assert(whole.visits.drop_first() =~= left.visits);
}

} // verus!
