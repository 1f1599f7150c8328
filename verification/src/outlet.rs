//! Names for the tensors that flow through a graph, and tables keyed by them.
use vstd::prelude::*;

verus! {

/// One tensor produced by a node: the node's id and the output slot.
#[derive(Clone, Copy, Debug, PartialEq, Eq, Hash, Structural)]
pub struct OutletId {
    pub node: usize,
    pub slot: usize,
}

/// One tensor consumed by a node: the node's id and the input slot.
#[derive(Clone, Copy, Debug, PartialEq, Eq, Hash, Structural)]
pub struct InletId {
    pub node: usize,
    pub slot: usize,
}

impl OutletId {
    pub fn new(node: usize, slot: usize) -> (r: OutletId)
        ensures
            r == (OutletId { node, slot }),
    {
        OutletId { node, slot }
    }
}

impl InletId {
    pub fn new(node: usize, slot: usize) -> (r: InletId)
        ensures
            r == (InletId { node, slot }),
    {
        InletId { node, slot }
    }
}

/// The map that a list of entries stands for: a later entry for a key
/// replaces an earlier one.
pub open spec fn entries_map<V>(entries: Seq<(OutletId, V)>) -> Map<OutletId, V>
    decreases entries.len(),
{
    if entries.len() == 0 {
        Map::empty()
    } else {
        entries_map(entries.drop_last()).insert(entries.last().0, entries.last().1)
    }
}

/// A key has a value in the map of a list of entries exactly where one of the
/// entries is for that key.
pub proof fn lemma_entries_keys<V>(entries: Seq<(OutletId, V)>, key: OutletId)
    ensures
        entries_map(entries).contains_key(key) <==> exists|i: int|
            0 <= i < entries.len() && (#[trigger] entries[i]).0 == key,
    decreases entries.len(),
{
    if entries.len() > 0 {
        let front = entries.drop_last();
        lemma_entries_keys(front, key);
        if entries_map(entries).contains_key(key) {
            if entries.last().0 == key {
                assert(entries[entries.len() - 1].0 == key);
            } else {
                let i = choose|i: int| 0 <= i < front.len() && (#[trigger] front[i]).0 == key;
                assert(entries[i].0 == key);
            }
        }
        if exists|i: int| 0 <= i < entries.len() && (#[trigger] entries[i]).0 == key {
            let i = choose|i: int| 0 <= i < entries.len() && (#[trigger] entries[i]).0 == key;
            if i < front.len() {
                assert(front[i].0 == key);
            }
        }
    }
}

/// A table from outlets to values.
#[derive(Debug)]
pub struct OutletMap<V> {
    pub entries: Vec<(OutletId, V)>,
}

impl<V> View for OutletMap<V> {
    type V = Map<OutletId, V>;

    open spec fn view(&self) -> Map<OutletId, V> {
        entries_map(self.entries@)
    }
}

impl<V> OutletMap<V> {
    /// The empty table.
    pub fn new() -> (m: OutletMap<V>)
        ensures
            m@ == Map::<OutletId, V>::empty(),
    {
        OutletMap { entries: Vec::new() }
    }

    /// Sets the value of `key`, replacing the one it had.
    pub fn insert(&mut self, key: OutletId, value: V)
        ensures
            final(self)@ == old(self)@.insert(key, value),
    {
        self.entries.push((key, value));
        assert(self.entries@.drop_last() =~= old(self).entries@);
    }

    /// The place of the entry that holds the value of `key`.
    fn find(&self, key: OutletId) -> (r: Option<usize>)
        ensures
            r is Some <==> self@.contains_key(key),
            r matches Some(i) ==> i < self.entries@.len() && self.entries@[i as int].0 == key
                && self.entries@[i as int].1 == self@[key],
    {
        let mut i: usize = self.entries.len();
        assert(self.entries@.take(i as int) =~= self.entries@);
        while i > 0
            invariant
                i <= self.entries@.len(),
                self@.contains_key(key) <==> entries_map(self.entries@.take(i as int)).contains_key(
                    key,
                ),
                self@.contains_key(key) ==> self@[key] == entries_map(
                    self.entries@.take(i as int),
                )[key],
            decreases i,
        {
            i -= 1;
            assert(self.entries@.take(i + 1).drop_last() =~= self.entries@.take(i as int));
            if self.entries[i].0 == key {
                return Some(i);
            }
        }
        None
    }

    pub fn contains_key(&self, key: OutletId) -> (r: bool)
        ensures
            r == self@.contains_key(key),
    {
        self.find(key).is_some()
    }

    /// The value of `key`, if it has one.
    pub fn get(&self, key: OutletId) -> (r: Option<&V>)
        ensures
            r is Some <==> self@.contains_key(key),
            r matches Some(v) ==> *v == self@[key],
    {
        match self.find(key) {
            Some(i) => Some(&self.entries[i].1),
            None => None,
        }
    }
}

impl OutletMap<OutletId> {
    /// The outlet that `key` is mapped to, if it is mapped.
    pub fn lookup(&self, key: OutletId) -> (r: Option<OutletId>)
        ensures
            r is Some <==> self@.contains_key(key),
            r matches Some(v) ==> v == self@[key],
    {
        match self.get(key) {
            Some(v) => Some(*v),
            None => None,
        }
    }
}

} // verus!
