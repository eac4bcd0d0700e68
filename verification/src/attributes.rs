//! The attributes of an element: a map from names to values in which a later
//! value for a name replaces the earlier one.
//!
//! The map is kept as a vector of (name, value) pairs in which no name occurs
//! twice, viewed as a `Map`. It stands in for a `HashMap` keyed by strings:
//! vstd's specification of `HashMap` proves nothing of a map whose keys are
//! `String`s (it needs the key type to obey its key model), so the lookups
//! and updates that the reader and the matcher rely on could not be proved
//! over it.

use vstd::prelude::*;

use crate::chars::chars_eq;

verus! {

/// The attribute map of an element. Names occur at most once.
pub struct Attributes {
    entries: Vec<(Vec<char>, Vec<char>)>,
}

impl Attributes {
    #[verifier::type_invariant]
    spec fn names_distinct(self) -> bool {
        forall|i: int, j: int|
            0 <= i < j < self.entries@.len() ==> #[trigger] self.entries@[i].0@ != #[trigger] self.entries@[j].0@
    }

    /// The name stored at position `i`.
    spec fn name_at(self, i: int) -> Seq<char> {
        self.entries@[i].0@
    }

    /// `i` is the position of `name`.
    spec fn holds_at(self, name: Seq<char>, i: int) -> bool {
        0 <= i < self.entries@.len() && self.name_at(i) == name
    }

    proof fn lemma_position_unique(self, name: Seq<char>, i: int, j: int)
        requires
            self.names_distinct(),
            self.holds_at(name, i),
            self.holds_at(name, j),
        ensures
            i == j,
    {
        if i < j {
            assert(self.entries@[i].0@ != self.entries@[j].0@);
        } else if j < i {
            assert(self.entries@[j].0@ != self.entries@[i].0@);
        }
    }

    /// The value of `name` as a map would give it, where `name` is present.
    proof fn lemma_value_at(self, name: Seq<char>, i: int)
        requires
            self.names_distinct(),
            self.holds_at(name, i),
        ensures
            self@.contains_key(name),
            self@[name] == self.entries@[i].1@,
    {
        assert(self@.dom().contains(name));
        let k = choose|k: int| self.holds_at(name, k);
        self.lemma_position_unique(name, i, k);
    }

    /// An empty attribute map.
    pub fn new() -> (r: Attributes)
        ensures
            r@ == Map::<Seq<char>, Seq<char>>::empty(),
    {
        let r = Attributes { entries: Vec::new() };
        assert(r@ =~= Map::<Seq<char>, Seq<char>>::empty());
        r
    }

    /// The position of `name`, if it is present.
    fn position(&self, name: &[char]) -> (r: Option<usize>)
        ensures
            r matches Some(i) ==> self.holds_at(name@, i as int),
            r is None ==> !self@.contains_key(name@),
    {
        let mut i: usize = 0;
        while i < self.entries.len()
            invariant
                i <= self.entries@.len(),
                forall|j: int| 0 <= j < i ==> self.name_at(j) != name@,
            decreases self.entries@.len() - i,
        {
            if chars_eq(self.entries[i].0.as_slice(), name) {
                return Some(i);
            }
            i += 1;
        }
        None
    }

    /// Sets `name` to `value`, replacing an earlier value of `name`.
    pub fn insert(&mut self, name: Vec<char>, value: Vec<char>)
        ensures
            final(self)@ == old(self)@.insert(name@, value@),
    {
        proof {
            use_type_invariant(&*self);
        }
        let pos = self.position(name.as_slice());
        let ghost before = *self;
        let mut entries: Vec<(Vec<char>, Vec<char>)> = Vec::new();
        std::mem::swap(&mut entries, &mut self.entries);
        let ghost name_v = name@;
        let ghost value_v = value@;
        match pos {
            Some(i) => {
                entries.set(i, (name, value));
            },
            None => {
                entries.push((name, value));
            },
        }
        let ghost after = Attributes { entries };
        proof {
            assert forall|a: int, b: int|
                0 <= a < b < after.entries@.len() implies #[trigger] after.entries@[a].0@
                != #[trigger] after.entries@[b].0@ by {
                if pos is None {
                    if b == before.entries@.len() {
                        if before.name_at(a) == name_v {
                            assert(before.holds_at(name_v, a));
                            assert(before@.contains_key(name_v));
                        }
                    } else {
                        assert(before.entries@[a].0@ != before.entries@[b].0@);
                    }
                } else {
                    let i = pos->0 as int;
                    if a == i {
                        assert(before.entries@[i].0@ != before.entries@[b].0@);
                    } else if b == i {
                        assert(before.entries@[a].0@ != before.entries@[i].0@);
                    } else {
                        assert(before.entries@[a].0@ != before.entries@[b].0@);
                    }
                }
            }
            assert(after.names_distinct());
            let slot: int = match pos {
                Some(i) => i as int,
                None => before.entries@.len() as int,
            };
            assert(after.holds_at(name_v, slot));
            assert(after.entries@[slot].1@ == value_v);
            let target = before@.insert(name_v, value_v);
            assert forall|k: Seq<char>| #[trigger] after@.contains_key(k) <==> target.contains_key(k) by {
                if after@.contains_key(k) {
                    let j = choose|j: int| after.holds_at(k, j);
                    if k != name_v {
                        assert(before.holds_at(k, j));
                    }
                }
                if target.contains_key(k) {
                    if k == name_v {
                        let j: int = match pos {
                            Some(i) => i as int,
                            None => before.entries@.len() as int,
                        };
                        assert(after.holds_at(k, j));
                    } else {
                        let j = choose|j: int| before.holds_at(k, j);
                        assert(after.holds_at(k, j));
                    }
                }
            }
            assert forall|k: Seq<char>| #[trigger] after@.contains_key(k) implies after@[k] == target[k] by {
                let j = choose|j: int| after.holds_at(k, j);
                after.lemma_value_at(k, j);
                if k == name_v {
                    after.lemma_position_unique(k, j, slot);
                } else {
                    assert(before.holds_at(k, j));
                    before.lemma_value_at(k, j);
                }
            }
            assert(after@ =~= target);
        }
        self.entries = entries;
    }

    /// The value of `name`, if it is present.
    pub fn get(&self, name: &[char]) -> (r: Option<&Vec<char>>)
        ensures
            r matches Some(v) ==> self@.contains_key(name@) && self@[name@] == v@,
            r is None ==> !self@.contains_key(name@),
    {
        proof {
            use_type_invariant(self);
        }
        match self.position(name) {
            Some(i) => {
                proof {
                    self.lemma_value_at(name@, i as int);
                }
                Some(&self.entries[i].1)
            },
            None => None,
        }
    }

    /// The stored (name, value) pairs: each name once, with its value.
    pub fn entries(&self) -> (r: &Vec<(Vec<char>, Vec<char>)>)
        ensures
            forall|i: int, j: int| 0 <= i < j < r@.len() ==> #[trigger] r@[i].0@ != #[trigger] r@[j].0@,
            forall|i: int| 0 <= i < r@.len() ==> self@.contains_key(#[trigger] r@[i].0@) && self@[r@[i].0@] == r@[i].1@,
            forall|k: Seq<char>| #[trigger] self@.contains_key(k) ==> exists|i: int| 0 <= i < r@.len() && r@[i].0@ == k,
    {
        proof {
            use_type_invariant(self);
            assert forall|i: int| 0 <= i < self.entries@.len() implies self@.contains_key(#[trigger] self.entries@[i].0@)
                && self@[self.entries@[i].0@] == self.entries@[i].1@ by {
                self.lemma_value_at(self.entries@[i].0@, i);
            }
        }
        &self.entries
    }

    /// A copy of this attribute map.
    pub fn duplicate(&self) -> (r: Attributes)
        ensures
            r@ == self@,
    {
        proof {
            use_type_invariant(self);
        }
        let mut copy: Vec<(Vec<char>, Vec<char>)> = Vec::new();
        let mut i: usize = 0;
        while i < self.entries.len()
            invariant
                i <= self.entries@.len(),
                copy@.len() == i,
                forall|j: int| 0 <= j < i ==> (#[trigger] copy@[j]).0@ == self.entries@[j].0@ && copy@[j].1@ == self.entries@[j].1@,
            decreases self.entries@.len() - i,
        {
            let name = self.entries[i].0.clone();
            let value = self.entries[i].1.clone();
            assert(name@ =~= self.entries@[i as int].0@);
            assert(value@ =~= self.entries@[i as int].1@);
            copy.push((name, value));
            i += 1;
        }
        let r = Attributes { entries: copy };
        proof {
            assert forall|k: Seq<char>, j: int| r.holds_at(k, j) <==> self.holds_at(k, j) by {}
            assert forall|k: Seq<char>| #[trigger] r@.contains_key(k) implies r@[k] == self@[k] by {
                let j = choose|j: int| r.holds_at(k, j);
                r.lemma_value_at(k, j);
                self.lemma_value_at(k, j);
            }
            assert(r@ =~= self@);
        }
        r
    }
}

impl View for Attributes {
    type V = Map<Seq<char>, Seq<char>>;

    closed spec fn view(&self) -> Map<Seq<char>, Seq<char>> {
        Map::new(
            |k: Seq<char>| exists|i: int| self.holds_at(k, i),
            |k: Seq<char>| self.entries@[choose|i: int| self.holds_at(k, i)].1@,
        )
    }
}

} // verus!
