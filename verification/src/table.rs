//! The lookup table: path strings with their positions, kept in ascending
//! path order with no path twice.

use vstd::prelude::*;
use vstd::string::*;

use crate::order::{compare, lemma_path_lt_irreflexive, lemma_path_lt_transitive, path_lt, Rank};
use crate::position::Position;

verus! {

/// One entry of the table as a mathematical value: a path string and the
/// position recorded for it.
pub type Entry = (Seq<char>, Position);

/// The paths of `s` are in strictly ascending order.
pub open spec fn ascending(s: Seq<Entry>) -> bool {
    forall|i: int, j: int| 0 <= i < j < s.len() ==> path_lt(#[trigger] s[i].0, #[trigger] s[j].0)
}

/// Some entry of `s` has the path `key`.
pub open spec fn has_key(s: Seq<Entry>, key: Seq<char>) -> bool {
    exists|i: int| 0 <= i < s.len() && (#[trigger] s[i]).0 == key
}

/// The map that a sequence of entries with distinct paths stands for.
pub open spec fn as_map(s: Seq<Entry>) -> Map<Seq<char>, Position> {
    Map::new(
        |key: Seq<char>| has_key(s, key),
        |key: Seq<char>| s[choose|i: int| 0 <= i < s.len() && (#[trigger] s[i]).0 == key].1,
    )
}

/// Entries in ascending order have distinct paths.
pub proof fn lemma_ascending_distinct(s: Seq<Entry>, i: int, j: int)
    requires
        ascending(s),
        0 <= i < s.len(),
        0 <= j < s.len(),
        s[i].0 == s[j].0,
    ensures
        i == j,
{
    lemma_path_lt_irreflexive(s[i].0);
    if i < j {
        assert(path_lt(s[i].0, s[j].0));
    } else if j < i {
        assert(path_lt(s[j].0, s[i].0));
    }
}

/// In ascending entries, the map holds for each entry's path that entry's
/// position.
pub proof fn lemma_as_map_at(s: Seq<Entry>, i: int)
    requires
        ascending(s),
        0 <= i < s.len(),
    ensures
        as_map(s).contains_key(s[i].0),
        as_map(s)[s[i].0] == s[i].1,
{
    let key = s[i].0;
    assert(has_key(s, key));
    let c = choose|c: int| 0 <= c < s.len() && (#[trigger] s[c]).0 == key;
    lemma_ascending_distinct(s, c, i);
}

/// A table from path strings to positions.
pub struct Table {
    entries: Vec<(String, Position)>,
}

impl Table {
    /// The entries as mathematical values, in the order in which they are
    /// kept and listed.
    pub closed spec fn entries(&self) -> Seq<Entry> {
        self.entries@.map_values(|e: (String, Position)| (e.0@, e.1))
    }

    /// The entries are in strictly ascending path order, so that no path
    /// occurs twice.
    #[verifier::type_invariant]
    pub open spec fn wf(&self) -> bool {
        ascending(self.entries())
    }

    /// An empty table.
    pub fn new() -> (t: Table)
        ensures
            t.entries() == Seq::<Entry>::empty(),
            t@ == Map::<Seq<char>, Position>::empty(),
    {
        let t = Table { entries: Vec::new() };
        assert(t.entries() =~= Seq::<Entry>::empty());
        assert(t@ =~= Map::<Seq<char>, Position>::empty());
        t
    }

    /// Finds `key` by binary search: its index where it is present, else
    /// the index at which it would have to be inserted.
    fn locate(&self, key: &str) -> (r: Result<usize, usize>)
        ensures
            match r {
                Ok(i) => i < self.entries().len() && self.entries()[i as int].0 == key@,
                Err(i) => {
                    &&& i <= self.entries().len()
                    &&& forall|j: int| 0 <= j < i ==> path_lt(#[trigger] self.entries()[j].0, key@)
                    &&& forall|j: int|
                        i <= j < self.entries().len() ==> path_lt(
                            key@,
                            #[trigger] self.entries()[j].0,
                        )
                },
            },
    {
        proof {
            use_type_invariant(self);
        }
        let ghost s = self.entries();
        let mut lo: usize = 0;
        let mut hi: usize = self.entries.len();
        while lo < hi
            invariant
                s == self.entries(),
                ascending(s),
                0 <= lo <= hi <= s.len(),
                s.len() == self.entries@.len(),
                forall|j: int| 0 <= j < lo ==> path_lt(#[trigger] s[j].0, key@),
                forall|j: int| hi <= j < s.len() ==> path_lt(key@, #[trigger] s[j].0),
            decreases hi - lo,
        {
            let mid: usize = lo + (hi - lo) / 2;
            assert(s[mid as int].0 == self.entries@[mid as int].0@);
            match compare(self.entries[mid].0.as_str(), key) {
                Rank::Before => {
                    assert forall|j: int| 0 <= j < mid + 1 implies path_lt(
                        #[trigger] s[j].0,
                        key@,
                    ) by {
                        if j < mid {
                            assert(path_lt(s[j].0, s[mid as int].0));
                            lemma_path_lt_transitive(s[j].0, s[mid as int].0, key@);
                        }
                    }
                    lo = mid + 1;
                },
                Rank::Same => {
                    return Ok(mid);
                },
                Rank::After => {
                    assert forall|j: int| mid <= j < s.len() implies path_lt(
                        key@,
                        #[trigger] s[j].0,
                    ) by {
                        if mid < j {
                            assert(path_lt(s[mid as int].0, s[j].0));
                            lemma_path_lt_transitive(key@, s[mid as int].0, s[j].0);
                        }
                    }
                    hi = mid;
                },
            }
        }
        Err(lo)
    }

    /// Looks a path up: its position where the table holds the path, and
    /// nothing where it does not.
    pub fn get(&self, key: &str) -> (r: Option<&Position>)
        ensures
            match r {
                Some(at) => self@.contains_key(key@) && *at == self@[key@],
                None => !self@.contains_key(key@),
            },
    {
        proof {
            use_type_invariant(self);
        }
        match self.locate(key) {
            Ok(i) => {
                proof {
                    lemma_as_map_at(self.entries(), i as int);
                }
                Some(&self.entries[i].1)
            },
            Err(i) => {
                proof {
                    let s = self.entries();
                    lemma_path_lt_irreflexive(key@);
                    if has_key(s, key@) {
                        let c = choose|c: int| 0 <= c < s.len() && (#[trigger] s[c]).0 == key@;
                        if c < i {
                            assert(path_lt(s[c].0, key@));
                        } else {
                            assert(path_lt(key@, s[c].0));
                        }
                    }
                }
                None
            },
        }
    }

    /// Records `at` for the path `key`, in place of what was recorded for
    /// that path before.
    pub fn insert(&mut self, key: String, at: Position)
        ensures
            final(self)@ == old(self)@.insert(key@, at),
    {
        proof {
            use_type_invariant(&*self);
        }
        let ghost s = self.entries();
        let found = self.locate(key.as_str());
        let mut entries: Vec<(String, Position)> = Vec::new();
        core::mem::swap(&mut entries, &mut self.entries);
        match found {
            Ok(i) => {
                proof {
                    lemma_replace(s, i as int, key@, at);
                    assert(entries@.update(i as int, (key, at)).map_values(
                        |e: (String, Position)| (e.0@, e.1),
                    ) =~= s.update(i as int, (key@, at)));
                }
                entries[i] = (key, at);
            },
            Err(i) => {
                proof {
                    lemma_insert(s, i as int, key@, at);
                    assert(entries@.insert(i as int, (key, at)).map_values(
                        |e: (String, Position)| (e.0@, e.1),
                    ) =~= s.insert(i as int, (key@, at)));
                }
                entries.insert(i, (key, at));
            },
        }
        self.entries = entries;
    }

    /// The entries in ascending path order, each path once.
    pub fn as_vec(&self) -> (r: &Vec<(String, Position)>)
        ensures
            r@.len() == self.entries().len(),
            forall|i: int|
                0 <= i < r@.len() ==> (#[trigger] r@[i]).0@ == self.entries()[i].0 && r@[i].1
                    == self.entries()[i].1,
            self.wf(),
    {
        proof {
            use_type_invariant(self);
        }
        &self.entries
    }
}

impl View for Table {
    type V = Map<Seq<char>, Position>;

    open spec fn view(&self) -> Map<Seq<char>, Position> {
        as_map(self.entries())
    }
}

/// Replacing the position of an entry keeps the order and updates the map.
proof fn lemma_replace(s: Seq<Entry>, i: int, key: Seq<char>, at: Position)
    requires
        ascending(s),
        0 <= i < s.len(),
        s[i].0 == key,
    ensures
        ascending(s.update(i, (key, at))),
        as_map(s.update(i, (key, at))) == as_map(s).insert(key, at),
{
    let t = s.update(i, (key, at));
    assert(ascending(t)) by {
        assert forall|a: int, b: int| 0 <= a < b < t.len() implies path_lt(
            #[trigger] t[a].0,
            #[trigger] t[b].0,
        ) by {
            assert(path_lt(s[a].0, s[b].0));
        }
    }
    assert forall|q: Seq<char>| has_key(t, q) <==> (q == key || has_key(s, q)) by {
        if has_key(t, q) {
            let c = choose|c: int| 0 <= c < t.len() && (#[trigger] t[c]).0 == q;
            assert(s[c].0 == q);
        }
        if has_key(s, q) {
            let c = choose|c: int| 0 <= c < s.len() && (#[trigger] s[c]).0 == q;
            assert(t[c].0 == q);
        }
        if q == key {
            assert(t[i].0 == q);
        }
    }
    assert forall|q: Seq<char>| has_key(t, q) implies as_map(t)[q] == as_map(s).insert(key, at)[q] by {
        let c = choose|c: int| 0 <= c < t.len() && (#[trigger] t[c]).0 == q;
        lemma_as_map_at(t, c);
        if c != i {
            assert(s[c].0 == q);
            lemma_as_map_at(s, c);
            if q == key {
                lemma_ascending_distinct(s, c, i);
            }
        }
    }
    assert(as_map(t) =~= as_map(s).insert(key, at));
}

/// Inserting a new path at its place keeps the order and extends the map.
proof fn lemma_insert(s: Seq<Entry>, i: int, key: Seq<char>, at: Position)
    requires
        ascending(s),
        0 <= i <= s.len(),
        forall|j: int| 0 <= j < i ==> path_lt(#[trigger] s[j].0, key),
        forall|j: int| i <= j < s.len() ==> path_lt(key, #[trigger] s[j].0),
    ensures
        ascending(s.insert(i, (key, at))),
        as_map(s.insert(i, (key, at))) == as_map(s).insert(key, at),
{
    let t = s.insert(i, (key, at));
    assert(ascending(t)) by {
        assert forall|a: int, b: int| 0 <= a < b < t.len() implies path_lt(
            #[trigger] t[a].0,
            #[trigger] t[b].0,
        ) by {
            let a0 = if a < i { a } else { a - 1 };
            let b0 = if b < i { b } else { b - 1 };
            if a == i {
                assert(t[b] == s[b0]);
            } else if b == i {
                assert(t[a] == s[a0]);
            } else {
                assert(t[a] == s[a0]);
                assert(t[b] == s[b0]);
                assert(path_lt(s[a0].0, s[b0].0));
            }
        }
    }
    assert forall|q: Seq<char>| has_key(t, q) <==> (q == key || has_key(s, q)) by {
        if has_key(t, q) && q != key {
            let c = choose|c: int| 0 <= c < t.len() && (#[trigger] t[c]).0 == q;
            let c0 = if c < i { c } else { c - 1 };
            assert(t[c] == s[c0]);
        }
        if has_key(s, q) {
            let c = choose|c: int| 0 <= c < s.len() && (#[trigger] s[c]).0 == q;
            let c1 = if c < i { c } else { c + 1 };
            assert(t[c1] == s[c]);
        }
        if q == key {
            assert(t[i].0 == q);
        }
    }
    assert forall|q: Seq<char>| has_key(t, q) implies as_map(t)[q] == as_map(s).insert(key, at)[q] by {
        let c = choose|c: int| 0 <= c < t.len() && (#[trigger] t[c]).0 == q;
        lemma_as_map_at(t, c);
        if c != i {
            let c0 = if c < i { c } else { c - 1 };
            assert(t[c] == s[c0]);
            lemma_as_map_at(s, c0);
            lemma_path_lt_irreflexive(key);
        }
    }
    assert(as_map(t) =~= as_map(s).insert(key, at));
}

/// Without their last entry, ascending entries are still ascending, and
/// stand for the map without the last path.
proof fn lemma_drop_last(s: Seq<Entry>)
    requires
        ascending(s),
        s.len() > 0,
    ensures
        ascending(s.drop_last()),
        as_map(s.drop_last()) == as_map(s).remove(s.last().0),
{
    let t = s.drop_last();
    let last = s.len() - 1;
    assert(ascending(t)) by {
        assert forall|a: int, b: int| 0 <= a < b < t.len() implies path_lt(
            #[trigger] t[a].0,
            #[trigger] t[b].0,
        ) by {
            assert(path_lt(s[a].0, s[b].0));
        }
    }
    assert forall|q: Seq<char>| has_key(t, q) <==> (q != s.last().0 && has_key(s, q)) by {
        if has_key(t, q) {
            let c = choose|c: int| 0 <= c < t.len() && (#[trigger] t[c]).0 == q;
            assert(s[c].0 == q);
            if q == s.last().0 {
                lemma_ascending_distinct(s, c, last);
            }
        }
        if q != s.last().0 && has_key(s, q) {
            let c = choose|c: int| 0 <= c < s.len() && (#[trigger] s[c]).0 == q;
            assert(t[c].0 == q);
        }
    }
    assert forall|q: Seq<char>| has_key(t, q) implies as_map(t)[q] == as_map(s)[q] by {
        let c = choose|c: int| 0 <= c < t.len() && (#[trigger] t[c]).0 == q;
        lemma_as_map_at(t, c);
        assert(s[c] == t[c]);
        lemma_as_map_at(s, c);
    }
    assert(as_map(t) =~= as_map(s).remove(s.last().0));
}

/// The last of ascending entries has the greatest path of the map.
proof fn lemma_last_is_greatest(s: Seq<Entry>, key: Seq<char>)
    requires
        ascending(s),
        s.len() > 0,
        as_map(s).contains_key(key),
    ensures
        key == s.last().0 || path_lt(key, s.last().0),
{
    let c = choose|c: int| 0 <= c < s.len() && (#[trigger] s[c]).0 == key;
    if c < s.len() - 1 {
        assert(path_lt(s[c].0, s[s.len() - 1].0));
    }
}

/// Ascending entries are determined by the map that they stand for: a map
/// is listed in one way only.
pub proof fn lemma_entries_determined(s: Seq<Entry>, t: Seq<Entry>)
    requires
        ascending(s),
        ascending(t),
        as_map(s) == as_map(t),
    ensures
        s == t,
    decreases s.len(),
{
    if s.len() == 0 {
        if t.len() > 0 {
            lemma_as_map_at(t, 0);
            assert(has_key(s, t[0].0));
        }
        assert(s =~= t);
    } else if t.len() == 0 {
        lemma_as_map_at(s, 0);
        assert(has_key(t, s[0].0));
    } else {
        let a = s.last().0;
        let b = t.last().0;
        lemma_as_map_at(s, s.len() - 1);
        lemma_as_map_at(t, t.len() - 1);
        lemma_last_is_greatest(s, b);
        lemma_last_is_greatest(t, a);
        if a != b {
            lemma_path_lt_transitive(a, b, a);
            lemma_path_lt_irreflexive(a);
        }
        assert(s.last() == t.last());
        lemma_drop_last(s);
        lemma_drop_last(t);
        lemma_entries_determined(s.drop_last(), t.drop_last());
        assert(s =~= s.drop_last().push(s.last()));
        assert(t =~= t.drop_last().push(t.last()));
    }
}

} // verus!
