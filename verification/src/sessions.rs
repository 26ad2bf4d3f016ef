//! Per-session state, found by session name.

use vstd::hash_map::StringHashMap;
use vstd::prelude::*;

verus! {

/// A table from session names to their state. Sessions are only ever added.
pub struct SessionTable<V> {
    index: StringHashMap<usize>,
    slots: Vec<V>,
}

impl<V> View for SessionTable<V> {
    type V = Map<Seq<char>, V>;

    closed spec fn view(&self) -> Map<Seq<char>, V> {
        Map::new(
            |k: Seq<char>| self.index@.contains_key(k),
            |k: Seq<char>| self.slots@[self.index@[k] as int],
        )
    }
}

impl<V> SessionTable<V> {
    /// Every name has a slot of its own.
    pub closed spec fn wf(self) -> bool {
        &&& forall|k: Seq<char>| #[trigger]
            self.index@.contains_key(k) ==> self.index@[k] < self.slots@.len()
        &&& forall|a: Seq<char>, b: Seq<char>|
            self.index@.contains_key(a) && self.index@.contains_key(b) && #[trigger] self.index@[a]
                == #[trigger] self.index@[b] ==> a == b
    }

    pub fn new() -> (table: SessionTable<V>)
        ensures
            table.wf(),
            table@ == Map::<Seq<char>, V>::empty(),
    {
        let table: SessionTable<V> = SessionTable { index: StringHashMap::new(), slots: Vec::new() };
        assert(table@ =~= Map::<Seq<char>, V>::empty());
        table
    }

    pub fn contains(&self, name: &str) -> (r: bool)
        ensures
            r == self@.contains_key(name@),
    {
        self.index.contains_key(name)
    }

    pub fn get(&self, name: &str) -> (r: Option<&V>)
        requires
            self.wf(),
        ensures
            match r {
                Some(v) => self@.contains_key(name@) && *v == self@[name@],
                None => !self@.contains_key(name@),
            },
    {
        match self.index.get(name) {
            Some(i) => Some(&self.slots[*i]),
            None => None,
        }
    }

    pub fn get_mut(&mut self, name: &str) -> (r: Option<&mut V>)
        requires
            old(self).wf(),
        ensures
            match r {
                Some(v) => {
                    &&& old(self)@.contains_key(name@)
                    &&& *v == old(self)@[name@]
                    &&& final(self)@ == old(self)@.insert(name@, *final(v))
                    &&& final(self).wf()
                },
                None => {
                    &&& !old(self)@.contains_key(name@)
                    &&& *final(self) == *old(self)
                },
            },
    {
        match self.index.get(name) {
            Some(i) => {
                let i: usize = *i;
                let v = &mut self.slots[i];
                Some(v)
            },
            None => None,
        }
    }

    /// Gives the session `name` the state `v`, whether or not it had one.
    pub fn insert(&mut self, name: &str, v: V)
        requires
            old(self).wf(),
        ensures
            final(self).wf(),
            final(self)@ == old(self)@.insert(name@, v),
    {
        let ghost before = *self;
        match self.index.get(name) {
            Some(i) => {
                let i: usize = *i;
                self.slots.set(i, v);
            },
            None => {
                let i: usize = self.slots.len();
                self.slots.push(v);
                self.index.insert(name.to_owned(), i);
            },
        }
        assert(self@ =~= before@.insert(name@, v));
    }
}

} // verus!
