//! A map from strings to strings that remembers the order in which its names
//! were first inserted.

use vstd::prelude::*;
use vstd::string::*;

verus! {

/// The map that a list of `(name, value)` pairs stands for: a later pair
/// overrides an earlier one with the same name.
pub open spec fn entries_map(entries: Seq<(Seq<char>, Seq<char>)>) -> Map<Seq<char>, Seq<char>>
    decreases entries.len(),
{
    if entries.len() == 0 {
        Map::empty()
    } else {
        entries_map(entries.drop_last()).insert(entries.last().0, entries.last().1)
    }
}

/// Whether no name occurs twice in `entries`.
pub open spec fn distinct_names(entries: Seq<(Seq<char>, Seq<char>)>) -> bool {
    forall|i: int, j: int|
        0 <= i < j < entries.len() ==> (#[trigger] entries[i]).0 != (#[trigger] entries[j]).0
}

/// The position of `name` in `entries`, if it occurs there.
pub open spec fn position_of(entries: Seq<(Seq<char>, Seq<char>)>, name: Seq<char>) -> Option<int> {
    if exists|i: int| 0 <= i < entries.len() && (#[trigger] entries[i]).0 == name {
        Some(choose|i: int| 0 <= i < entries.len() && (#[trigger] entries[i]).0 == name)
    } else {
        None
    }
}

/// `entries` after `name` is set to `value`: the pair replaces the one with that
/// name where it stands, or goes to the end.
pub open spec fn with_entry(
    entries: Seq<(Seq<char>, Seq<char>)>,
    name: Seq<char>,
    value: Seq<char>,
) -> Seq<(Seq<char>, Seq<char>)> {
    match position_of(entries, name) {
        Some(i) => entries.update(i, (name, value)),
        None => entries.push((name, value)),
    }
}

/// The names of `entries_map(entries)` are exactly the names in `entries`.
pub proof fn lemma_entries_map_names(entries: Seq<(Seq<char>, Seq<char>)>, name: Seq<char>)
    ensures
        entries_map(entries).contains_key(name) <==> position_of(entries, name) is Some,
    decreases entries.len(),
{
    if entries.len() > 0 {
        let front = entries.drop_last();
        lemma_entries_map_names(front, name);
        if entries.last().0 == name {
            assert(entries[entries.len() - 1].0 == name);
        } else if position_of(front, name) is Some {
            let i = position_of(front, name)->0;
            assert(entries[i].0 == name);
        } else if position_of(entries, name) is Some {
            let i = position_of(entries, name)->0;
            assert(front[i].0 == name);
        }
    }
}

/// Every name of the map stands, with its value, somewhere in the list.
pub proof fn lemma_entries_map_source(entries: Seq<(Seq<char>, Seq<char>)>, name: Seq<char>)
    requires
        entries_map(entries).contains_key(name),
    ensures
        exists|i: int|
            0 <= i < entries.len() && #[trigger] entries[i] == (name, entries_map(entries)[name]),
    decreases entries.len(),
{
    if entries.len() > 0 {
        if entries.last().0 == name {
            assert(entries[entries.len() - 1] == (name, entries_map(entries)[name]));
        } else {
            let front = entries.drop_last();
            lemma_entries_map_source(front, name);
            let i = choose|i: int|
                0 <= i < front.len() && #[trigger] front[i] == (name, entries_map(front)[name]);
            assert(entries[i] == (name, entries_map(entries)[name]));
        }
    }
}

/// Where names are distinct, each pair's value is the one the map holds.
pub proof fn lemma_entries_map_value(entries: Seq<(Seq<char>, Seq<char>)>, i: int)
    requires
        distinct_names(entries),
        0 <= i < entries.len(),
    ensures
        entries_map(entries).contains_key(entries[i].0),
        entries_map(entries)[entries[i].0] == entries[i].1,
    decreases entries.len(),
{
    let front = entries.drop_last();
    if i < entries.len() - 1 {
        assert(distinct_names(front)) by {
            assert forall|a: int, b: int| 0 <= a < b < front.len() implies (#[trigger] front[a]).0
                != (#[trigger] front[b]).0 by {
                assert(entries[a].0 != entries[b].0);
            }
        }
        lemma_entries_map_value(front, i);
        assert(front[i] == entries[i]);
        assert(entries[i].0 != entries[entries.len() - 1].0);
    }
}

/// Where names are distinct, the map has as many names as there are pairs.
pub proof fn lemma_entries_map_len(entries: Seq<(Seq<char>, Seq<char>)>)
    requires
        distinct_names(entries),
    ensures
        entries_map(entries).dom().finite(),
        entries_map(entries).dom().len() == entries.len(),
    decreases entries.len(),
{
    if entries.len() > 0 {
        let front = entries.drop_last();
        assert(distinct_names(front)) by {
            assert forall|a: int, b: int| 0 <= a < b < front.len() implies (#[trigger] front[a]).0
                != (#[trigger] front[b]).0 by {
                assert(entries[a].0 != entries[b].0);
            }
        }
        lemma_entries_map_len(front);
        lemma_entries_map_names(front, entries.last().0);
        if position_of(front, entries.last().0) is Some {
            let i = position_of(front, entries.last().0)->0;
            assert(entries[i].0 != entries[entries.len() - 1].0);
        }
    }
}

/// Setting a name in the list sets it in the map, and keeps names distinct.
pub proof fn lemma_with_entry(
    entries: Seq<(Seq<char>, Seq<char>)>,
    name: Seq<char>,
    value: Seq<char>,
)
    requires
        distinct_names(entries),
    ensures
        distinct_names(with_entry(entries, name, value)),
        entries_map(with_entry(entries, name, value)) == entries_map(entries).insert(name, value),
    decreases entries.len(),
{
    let out = with_entry(entries, name, value);
    match position_of(entries, name) {
        Some(i) => {
            assert forall|a: int, b: int| 0 <= a < b < out.len() implies (#[trigger] out[a]).0 != (
            #[trigger] out[b]).0 by {
                assert(entries[a].0 != entries[b].0);
            }
            let front = entries.drop_last();
            assert(distinct_names(front)) by {
                assert forall|a: int, b: int| 0 <= a < b < front.len() implies (
                #[trigger] front[a]).0 != (#[trigger] front[b]).0 by {
                    assert(entries[a].0 != entries[b].0);
                }
            }
            if i == entries.len() - 1 {
                assert(out.drop_last() == front);
                assert(entries_map(out) == entries_map(entries).insert(name, value));
            } else {
                assert(front[i].0 == name);
                assert(position_of(front, name) is Some);
                let k = position_of(front, name)->0;
                if k != i {
                    if k < i {
                        assert(entries[k].0 != entries[i].0);
                    } else {
                        assert(entries[i].0 != entries[k].0);
                    }
                }
                lemma_with_entry(front, name, value);
                assert(out.drop_last() == with_entry(front, name, value));
                assert(out.last() == entries.last());
                assert(entries[i].0 != entries[entries.len() - 1].0);
                assert(entries_map(out) == entries_map(entries).insert(name, value));
            }
        },
        None => {
            assert(out.drop_last() == entries);
            assert forall|a: int, b: int| 0 <= a < b < out.len() implies (#[trigger] out[a]).0 != (
            #[trigger] out[b]).0 by {
                if b < entries.len() {
                    assert(entries[a].0 != entries[b].0);
                } else {
                    assert(entries[a].0 != name);
                }
            }
        },
    }
}

/// The views of a list of pairs of strings.
spec fn pairs_of(items: Seq<(String, String)>) -> Seq<(Seq<char>, Seq<char>)> {
    Seq::new(items.len(), |i: int| (items[i].0@, items[i].1@))
}

/// An insertion-ordered map from strings to strings.
///
/// Its view is the mathematical map; `entries` gives the pairs in the order in
/// which their names were first inserted. No name occurs twice.
#[derive(Debug)]
pub struct StringMap {
    items: Vec<(String, String)>,
}

impl View for StringMap {
    type V = Map<Seq<char>, Seq<char>>;

    open spec fn view(&self) -> Map<Seq<char>, Seq<char>> {
        entries_map(self.entries())
    }
}

impl StringMap {
    /// The pairs of the map, in the order in which their names were first
    /// inserted.
    pub closed spec fn entries(&self) -> Seq<(Seq<char>, Seq<char>)> {
        pairs_of(self.items@)
    }

    #[verifier::type_invariant]
    spec fn names_are_distinct(&self) -> bool {
        distinct_names(self.entries())
    }

    /// An empty map.
    pub fn new() -> (m: Self)
        ensures
            m.entries() == Seq::<(Seq<char>, Seq<char>)>::empty(),
            m@ == Map::<Seq<char>, Seq<char>>::empty(),
    {
        let m = StringMap { items: Vec::new() };
        assert(m.entries() == Seq::<(Seq<char>, Seq<char>)>::empty());
        m
    }

    /// The number of pairs.
    pub fn len(&self) -> (n: usize)
        ensures
            n == self.entries().len(),
            n == self@.dom().len(),
            distinct_names(self.entries()),
    {
        proof {
            use_type_invariant(self);
            lemma_entries_map_len(self.entries());
        }
        self.items.len()
    }

    /// The name of the pair at position `i`.
    pub fn name_at(&self, i: usize) -> (name: &str)
        requires
            i < self.entries().len(),
        ensures
            name@ == self.entries()[i as int].0,
    {
        self.items[i].0.as_str()
    }

    /// The value of the pair at position `i`.
    pub fn value_at(&self, i: usize) -> (value: &str)
        requires
            i < self.entries().len(),
        ensures
            value@ == self.entries()[i as int].1,
    {
        self.items[i].1.as_str()
    }

    fn find(&self, name: &String) -> (r: Option<usize>)
        ensures
            match r {
                Some(i) => i < self.entries().len() && self.entries()[i as int].0 == name@,
                None => position_of(self.entries(), name@) is None,
            },
    {
        let mut i: usize = 0;
        while i < self.items.len()
            invariant
                i <= self.items.len(),
                forall|j: int| 0 <= j < i ==> (#[trigger] self.entries()[j]).0 != name@,
            decreases self.items.len() - i,
        {
            if self.items[i].0 == *name {
                return Some(i);
            }
            i += 1;
        }
        None
    }

    /// The value stored under `name`, if there is one.
    pub fn get(&self, name: &str) -> (r: Option<&str>)
        ensures
            match r {
                Some(value) => self@.contains_key(name@) && value@ == self@[name@],
                None => !self@.contains_key(name@),
            },
    {
        let key = name.to_owned();
        proof {
            use_type_invariant(self);
            lemma_entries_map_names(self.entries(), name@);
        }
        match self.find(&key) {
            Some(i) => {
                proof {
                    lemma_entries_map_value(self.entries(), i as int);
                }
                Some(self.items[i].1.as_str())
            },
            None => None,
        }
    }

    /// Whether a value is stored under `name`.
    pub fn contains_key(&self, name: &str) -> (b: bool)
        ensures
            b == self@.contains_key(name@),
    {
        self.get(name).is_some()
    }

    /// Stores `value` under `name`. A value already stored under that name is
    /// replaced and keeps its position; a new name goes to the end.
    pub fn insert(&mut self, name: String, value: String)
        ensures
            final(self)@ == old(self)@.insert(name@, value@),
            final(self).entries() == with_entry(old(self).entries(), name@, value@),
    {
        proof {
            use_type_invariant(&*self);
            lemma_with_entry(self.entries(), name@, value@);
        }
        let ghost before = self.entries();
        let found = self.find(&name);
        let mut taken = StringMap::new();
        core::mem::swap(self, &mut taken);
        let mut items = taken.items;
        match found {
            Some(i) => {
                items.set(i, (name, value));
                proof {
                    let k = position_of(before, name@)->0;
                    if k != i {
                        if k < i {
                            assert(before[k].0 != before[i as int].0);
                        } else {
                            assert(before[i as int].0 != before[k].0);
                        }
                    }
                }
            },
            None => {
                items.push((name, value));
            },
        }
        assert(pairs_of(items@) == with_entry(before, name@, value@));
        *self = StringMap { items };
    }
}

} // verus!
