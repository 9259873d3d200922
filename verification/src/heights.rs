//! The orphans of each height, each with its inverse height.
use crate::hash::H256;
use crate::index::{level_entries, level_get, level_insert, level_new, LevelIndex};
use crate::ordered_map::{Entries, OrderedMap};
use vstd::prelude::*;

verus! {

/// The orphans recorded at `height`; none where the height has no level.
pub open spec fn level_or_empty(levels: Map<u64, Entries<u64>>, height: u64) -> Entries<u64> {
    if levels.contains_key(height) {
        levels[height]
    } else {
        Entries::empty()
    }
}

/// The inverse height recorded for `hash` at `height`.
pub open spec fn inverse_at(levels: Map<u64, Entries<u64>>, height: u64, hash: H256) -> Option<
    u64,
> {
    if levels.contains_key(height) {
        levels[height].map.get(hash)
    } else {
        None
    }
}

/// `levels` after `hash` was recorded at `height` with `inverse`.
pub open spec fn levels_put(
    levels: Map<u64, Entries<u64>>,
    height: u64,
    hash: H256,
    inverse: u64,
) -> Map<u64, Entries<u64>> {
    levels.insert(height, level_or_empty(levels, height).insert(hash, inverse))
}

/// `levels` after `hash` was taken out at `height`. The level stays, even
/// where it is left empty.
pub open spec fn levels_remove(levels: Map<u64, Entries<u64>>, height: u64, hash: H256) -> Map<
    u64,
    Entries<u64>,
> {
    if levels.contains_key(height) {
        levels.insert(height, levels[height].remove(hash))
    } else {
        levels
    }
}

/// The orphans of `level` in insertion order, each with its inverse height.
pub open spec fn level_seq(level: Entries<u64>) -> Seq<(H256, u64)> {
    Seq::new(level.order.len(), |i: int| (level.order[i], level.map[level.order[i]]))
}

/// A level for each height at which an orphan was ever recorded: the
/// orphans of that height, each mapped to its inverse height.
pub struct HeightIndex {
    levels: Vec<(u64, OrderedMap<u64>)>,
    index: LevelIndex,
}

impl View for HeightIndex {
    type V = Map<u64, Entries<u64>>;

    closed spec fn view(&self) -> Map<u64, Entries<u64>> {
        Map::new(
            |h: u64| level_entries(self.index).contains_key(h),
            |h: u64| self.levels@[level_entries(self.index)[h] as int].1@,
        )
    }
}

impl HeightIndex {
    /// The hash table knows exactly the levels, each with its place, and every
    /// level is a sound map.
    pub closed spec fn wf(&self) -> bool {
        &&& forall|i: int|
            0 <= i < self.levels@.len() ==> {
                &&& level_entries(self.index).contains_key(#[trigger] self.levels@[i].0)
                &&& level_entries(self.index)[self.levels@[i].0] == i
                &&& self.levels@[i].1.wf()
            }
        &&& forall|h: u64| #[trigger]
            level_entries(self.index).contains_key(h) ==> {
                &&& level_entries(self.index)[h] < self.levels@.len()
                &&& self.levels@[level_entries(self.index)[h] as int].0 == h
            }
    }

    /// Every level is a well-formed map.
    pub open spec fn levels_wf(levels: Map<u64, Entries<u64>>) -> bool {
        forall|h: u64| #[trigger] levels.contains_key(h) ==> levels[h].wf()
    }

    /// No levels.
    pub fn new() -> (heights: HeightIndex)
        ensures
            heights.wf(),
            heights@ == Map::<u64, Entries<u64>>::empty(),
    {
        let heights = HeightIndex { levels: Vec::new(), index: level_new() };
        assert(heights@ =~= Map::empty());
        heights
    }

    /// Whether there is a level for `height`.
    pub fn has_level(&self, height: u64) -> (present: bool)
        ensures
            present == self@.contains_key(height),
    {
        level_get(&self.index, height).is_some()
    }

    /// The number of orphans recorded at `height`.
    pub fn level_len(&self, height: u64) -> (n: Option<usize>)
        requires
            self.wf(),
        ensures
            match n {
                Some(n) => self@.contains_key(height) && n == self@[height].order.len(),
                None => !self@.contains_key(height),
            },
    {
        match level_get(&self.index, height) {
            Some(i) => Some(self.levels[i].1.len()),
            None => None,
        }
    }

    /// The orphan at place `i` of the level of `height`, with its inverse
    /// height.
    pub fn entry_at(&self, height: u64, i: usize) -> (entry: (H256, u64))
        requires
            self.wf(),
            self@.contains_key(height),
            i < self@[height].order.len(),
        ensures
            entry.0 == self@[height].order[i as int],
            self@[height].map.contains_key(entry.0),
            entry.1 == self@[height].map[entry.0],
    {
        match level_get(&self.index, height) {
            Some(at) => {
                let level = &self.levels[at].1;
                (level.key_at(i), *level.value_at(i))
            },
            None => {
                proof {
                    assert(false);
                }
                (H256::zero(), 0)
            },
        }
    }

    /// The orphans recorded at `height` in insertion order, each with its
    /// inverse height.
    pub fn level(&self, height: u64) -> (entries: Option<Vec<(H256, u64)>>)
        requires
            self.wf(),
        ensures
            match entries {
                Some(e) => self@.contains_key(height) && e@ == level_seq(self@[height]),
                None => !self@.contains_key(height),
            },
    {
        let n = match self.level_len(height) {
            Some(n) => n,
            None => {
                return None;
            },
        };
        let mut entries: Vec<(H256, u64)> = Vec::with_capacity(n);
        let mut i: usize = 0;
        while i < n
            invariant
                self.wf(),
                self@.contains_key(height),
                n == self@[height].order.len(),
                i <= n,
                entries@ == level_seq(self@[height]).take(i as int),
            decreases n - i,
        {
            let entry = self.entry_at(height, i);
            entries.push(entry);
            assert(entries@ =~= level_seq(self@[height]).take(i + 1));
            i += 1;
        }
        assert(entries@ =~= level_seq(self@[height]));
        Some(entries)
    }

    /// The inverse height recorded for `hash` at `height`.
    pub fn inverse(&self, height: u64, hash: &H256) -> (inverse: Option<u64>)
        requires
            self.wf(),
        ensures
            inverse == inverse_at(self@, height, *hash),
    {
        match level_get(&self.index, height) {
            Some(at) => {
                match self.levels[at].1.get(hash) {
                    Some(v) => Some(*v),
                    None => None,
                }
            },
            None => None,
        }
    }

    /// Records `hash` at `height` with `inverse`, in place of what was
    /// recorded for it there.
    pub fn put(&mut self, height: u64, hash: H256, inverse: u64)
        requires
            old(self).wf(),
        ensures
            final(self).wf(),
            final(self)@ == levels_put(old(self)@, height, hash, inverse),
    {
        let ghost before = *self;
        match level_get(&self.index, height) {
            Some(at) => {
                let mut slot = (height, OrderedMap::new());
                std::mem::swap(&mut self.levels[at], &mut slot);
                let (_, mut level) = slot;
                level.insert(hash, inverse);
                self.levels.set(at, (height, level));
                proof {
                    assert(self@ =~= levels_put(before@, height, hash, inverse));
                }
            },
            None => {
                let n = self.levels.len();
                let mut level: OrderedMap<u64> = OrderedMap::new();
                level.insert(hash, inverse);
                self.levels.push((height, level));
                level_insert(&mut self.index, height, n);
                proof {
                    assert(self@ =~= levels_put(before@, height, hash, inverse));
                }
            },
        }
    }

    /// Takes `hash` out of the level of `height`. The level itself stays.
    pub fn remove(&mut self, height: u64, hash: &H256)
        requires
            old(self).wf(),
        ensures
            final(self).wf(),
            final(self)@ == levels_remove(old(self)@, height, *hash),
    {
        let ghost before = *self;
        match level_get(&self.index, height) {
            Some(at) => {
                let mut slot = (height, OrderedMap::new());
                std::mem::swap(&mut self.levels[at], &mut slot);
                let (_, mut level) = slot;
                level.remove(hash);
                self.levels.set(at, (height, level));
                proof {
                    assert(self@ =~= levels_remove(before@, height, *hash));
                }
            },
            None => {},
        }
    }
}

} // verus!
