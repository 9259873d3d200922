//! The tips of each disconnected sub-tree, by the sub-tree's head.
use crate::hash::H256;
use crate::ordered_map::{Entries, OrderedMap, OrderedSet};
use vstd::prelude::*;

verus! {

/// `tips` with `tip` added at the end, unless it is there already.
pub open spec fn with_tip(tips: Seq<H256>, tip: H256) -> Seq<H256> {
    if tips.contains(tip) {
        tips
    } else {
        tips.push(tip)
    }
}

/// `tips` without `tip`; the tips behind it move up by one place.
pub open spec fn without_tip(tips: Seq<H256>, tip: H256) -> Seq<H256> {
    if tips.contains(tip) {
        tips.remove(tips.index_of(tip))
    } else {
        tips
    }
}

/// `sets` after `tip` was added to the tips of `head`; unchanged where
/// `head` is no head.
pub open spec fn sets_add_tip(sets: Entries<Seq<H256>>, head: H256, tip: H256) -> Entries<
    Seq<H256>,
> {
    if sets.map.contains_key(head) {
        sets.insert(head, with_tip(sets.map[head], tip))
    } else {
        sets
    }
}

/// `sets` after `tip` was taken out of the tips of `head`; unchanged where
/// `head` is no head.
pub open spec fn sets_remove_tip(sets: Entries<Seq<H256>>, head: H256, tip: H256) -> Entries<
    Seq<H256>,
> {
    if sets.map.contains_key(head) {
        sets.insert(head, without_tip(sets.map[head], tip))
    } else {
        sets
    }
}

/// Adding a tip keeps a list of tips free of duplicates and adds nothing but
/// the tip.
pub proof fn lemma_with_tip(tips: Seq<H256>, tip: H256)
    requires
        tips.no_duplicates(),
    ensures
        with_tip(tips, tip).no_duplicates(),
        forall|t: H256| with_tip(tips, tip).contains(t) <==> (t == tip || tips.contains(t)),
{
    let after = with_tip(tips, tip);
    if !tips.contains(tip) {
        assert forall|i: int, j: int|
            0 <= i < after.len() && 0 <= j < after.len() && i != j implies after[i] != after[j] by {
            if i < tips.len() {
                assert(tips.contains(after[i])) by {
                    assert(tips[i] == after[i]);
                }
            }
            if j < tips.len() {
                assert(tips.contains(after[j])) by {
                    assert(tips[j] == after[j]);
                }
            }
        }
        assert forall|t: H256| after.contains(t) <==> (t == tip || tips.contains(t)) by {
            if after.contains(t) {
                let i = choose|i: int| 0 <= i < after.len() && after[i] == t;
                if i < tips.len() {
                    assert(tips[i] == t);
                }
            }
            if t == tip {
                assert(after[tips.len() as int] == t);
            }
            if tips.contains(t) {
                let i = choose|i: int| 0 <= i < tips.len() && tips[i] == t;
                assert(after[i] == t);
            }
        }
    }
}

/// Taking a tip out keeps a list of tips free of duplicates and takes out
/// nothing but the tip.
pub proof fn lemma_without_tip(tips: Seq<H256>, tip: H256)
    requires
        tips.no_duplicates(),
    ensures
        without_tip(tips, tip).no_duplicates(),
        forall|t: H256| without_tip(tips, tip).contains(t) <==> (t != tip && tips.contains(t)),
{
    let after = without_tip(tips, tip);
    if tips.contains(tip) {
        let at = tips.index_of(tip);
        assert(0 <= at < tips.len() && tips[at] == tip);
        assert forall|i: int, j: int|
            0 <= i < after.len() && 0 <= j < after.len() && i != j implies after[i] != after[j] by {
            let oi = if i < at { i } else { i + 1 };
            let oj = if j < at { j } else { j + 1 };
            assert(after[i] == tips[oi]);
            assert(after[j] == tips[oj]);
        }
        assert forall|t: H256| after.contains(t) <==> (t != tip && tips.contains(t)) by {
            if after.contains(t) {
                let i = choose|i: int| 0 <= i < after.len() && after[i] == t;
                let oi = if i < at { i } else { i + 1 };
                assert(tips[oi] == t);
            }
            if t != tip && tips.contains(t) {
                let oi = choose|i: int| 0 <= i < tips.len() && tips[i] == t;
                let i = if oi < at { oi } else { oi - 1 };
                assert(after[i] == t);
            }
        }
    }
}

/// The members of `set`, in the order in which they came.
pub fn members(set: &OrderedSet) -> (list: Vec<H256>)
    requires
        set.wf(),
    ensures
        list@ == set@.order,
        list@.no_duplicates(),
{
    proof {
        set.lemma_wf();
    }
    let mut list: Vec<H256> = Vec::with_capacity(set.len());
    let mut i: usize = 0;
    while i < set.len()
        invariant
            set.wf(),
            i <= set@.order.len(),
            list@ == set@.order.take(i as int),
        decreases set@.order.len() - i,
    {
        list.push(set.key_at(i));
        i += 1;
    }
    assert(set@.order.take(set@.order.len() as int) == set@.order);
    list
}

/// The set of `tips`, which hold no hash twice, in their order.
pub fn set_of(tips: &Vec<H256>) -> (set: OrderedSet)
    requires
        tips@.no_duplicates(),
    ensures
        set.wf(),
        set@.order == tips@,
{
    let mut set: OrderedSet = OrderedMap::new();
    let mut i: usize = 0;
    assert(tips@.take(0) =~= Seq::empty());
    while i < tips.len()
        invariant
            tips@.no_duplicates(),
            set.wf(),
            i <= tips@.len(),
            set@.order == tips@.take(i as int),
        decreases tips@.len() - i,
    {
        proof {
            set.lemma_wf();
            if set@.map.contains_key(tips@[i as int]) {
                assert(set@.order.contains(tips@[i as int]));
                let j = choose|j: int|
                    0 <= j < set@.order.len() && set@.order[j] == tips@[i as int];
                assert(tips@.take(i as int)[j] == tips@[j]);
                assert(tips@[j] == tips@[i as int]);
            }
            assert(tips@.take(i + 1) =~= tips@.take(i as int).push(tips@[i as int]));
        }
        set.insert(tips[i], ());
        i += 1;
    }
    assert(tips@.take(tips@.len() as int) == tips@);
    set
}

/// For each head of a disconnected sub-tree, the tips of that sub-tree.
pub struct TipSets {
    sets: OrderedMap<OrderedSet>,
}

impl View for TipSets {
    type V = Entries<Seq<H256>>;

    closed spec fn view(&self) -> Entries<Seq<H256>> {
        Entries {
            map: Map::new(
                |h: H256| self.sets@.map.contains_key(h),
                |h: H256| self.sets@.map[h]@.order,
            ),
            order: self.sets@.order,
        }
    }
}

impl TipSets {
    /// The map behind the tip sets is sound, and so is the set of each
    /// head.
    pub closed spec fn wf(&self) -> bool {
        &&& self.sets.wf()
        &&& forall|h: H256| #[trigger] self.sets@.map.contains_key(h) ==> self.sets@.map[h].wf()
    }

    /// No heads.
    pub fn new() -> (sets: TipSets)
        ensures
            sets.wf(),
            sets@ == Entries::<Seq<H256>>::empty(),
    {
        let sets = TipSets { sets: OrderedMap::new() };
        assert(sets@.map =~= Map::empty());
        sets
    }

    /// The number of heads.
    pub fn len(&self) -> (n: usize)
        ensures
            n == self@.order.len(),
    {
        self.sets.len()
    }

    /// The head at place `i` of the insertion order.
    pub fn head_at(&self, i: usize) -> (head: H256)
        requires
            self.wf(),
            i < self@.order.len(),
        ensures
            head == self@.order[i as int],
            self@.map.contains_key(head),
    {
        self.sets.key_at(i)
    }

    /// Whether `head` is a head.
    pub fn contains_head(&self, head: &H256) -> (present: bool)
        ensures
            present == self@.map.contains_key(*head),
    {
        self.sets.contains_key(head)
    }

    /// The tips of `head`, in insertion order.
    pub fn tips(&self, head: &H256) -> (tips: Option<Vec<H256>>)
        requires
            self.wf(),
        ensures
            match tips {
                Some(t) => self@.map.contains_key(*head) && t@ == self@.map[*head]
                    && t@.no_duplicates(),
                None => !self@.map.contains_key(*head),
            },
    {
        match self.sets.get(head) {
            Some(set) => {
                assert(self.sets@.map.contains_key(*head));
                Some(members(set))
            },
            None => None,
        }
    }

    /// Gives `head` the tips `tips`, in place of any that it had.
    pub fn insert_head(&mut self, head: H256, tips: Vec<H256>)
        requires
            old(self).wf(),
            tips@.no_duplicates(),
        ensures
            final(self).wf(),
            final(self)@ == old(self)@.insert(head, tips@),
    {
        let ghost before = *self;
        let set = set_of(&tips);
        self.sets.insert(head, set);
        proof {
            assert(self@.map =~= before@.map.insert(head, tips@));
            assert forall|h: H256| #[trigger] self.sets@.map.contains_key(h)
                implies self.sets@.map[h].wf() by {
                if h != head {
                    assert(before.sets@.map.contains_key(h));
                }
            }
        }
    }

    /// Takes `head` out together with its tips.
    pub fn remove_head(&mut self, head: &H256) -> (tips: Option<Vec<H256>>)
        requires
            old(self).wf(),
        ensures
            final(self).wf(),
            final(self)@ == old(self)@.remove(*head),
            match tips {
                Some(t) => old(self)@.map.contains_key(*head) && t@ == old(self)@.map[*head]
                    && t@.no_duplicates(),
                None => !old(self)@.map.contains_key(*head),
            },
    {
        let ghost before = *self;
        let taken = self.sets.remove(head);
        proof {
            assert(self@.map =~= before@.map.remove(*head));
            assert forall|h: H256| #[trigger] self.sets@.map.contains_key(h)
                implies self.sets@.map[h].wf() by {
                assert(before.sets@.map.contains_key(h));
            }
            if taken.is_some() {
                assert(before.sets@.map.contains_key(*head));
            }
        }
        match taken {
            Some(set) => Some(members(&set)),
            None => None,
        }
    }

    /// Adds `tip` to the tips of `head`. Does nothing where `head` is not
    /// a head.
    pub fn add_tip(&mut self, head: &H256, tip: H256)
        requires
            old(self).wf(),
        ensures
            final(self).wf(),
            final(self)@ == sets_add_tip(old(self)@, *head, tip),
    {
        let ghost before = *self;
        match self.sets.position(head) {
            None => {},
            Some(i) => {
                let mut set = self.sets.replace_at(i, OrderedMap::new());
                let ghost prior = set@;
                proof {
                    assert(before.sets@.map.contains_key(*head));
                    set.lemma_wf();
                }
                set.insert(tip, ());
                assert(set@.order == with_tip(prior.order, tip));
                let ghost mid = self.sets@;
                assert(mid.order[i as int] == *head);
                self.sets.replace_at(i, set);
                proof {
                    assert(self.sets@.order =~= before.sets@.order);
                    assert(self@.map =~= before@.map.insert(*head, with_tip(prior.order, tip)));
                    assert forall|h: H256| #[trigger] self.sets@.map.contains_key(h)
                        implies self.sets@.map[h].wf() by {
                        if h != *head {
                            assert(before.sets@.map.contains_key(h));
                        }
                    }
                }
            },
        }
    }

    /// Takes `tip` out of the tips of `head`. Does nothing where `head` is
    /// not a head.
    pub fn remove_tip(&mut self, head: &H256, tip: &H256)
        requires
            old(self).wf(),
        ensures
            final(self).wf(),
            final(self)@ == sets_remove_tip(old(self)@, *head, *tip),
    {
        let ghost before = *self;
        match self.sets.position(head) {
            None => {},
            Some(i) => {
                let mut set = self.sets.replace_at(i, OrderedMap::new());
                let ghost prior = set@;
                proof {
                    assert(before.sets@.map.contains_key(*head));
                    set.lemma_wf();
                }
                set.remove(tip);
                assert(set@.order == without_tip(prior.order, *tip));
                let ghost mid = self.sets@;
                assert(mid.order[i as int] == *head);
                self.sets.replace_at(i, set);
                proof {
                    assert(self.sets@.order =~= before.sets@.order);
                    assert(self@.map =~= before@.map.insert(
                        *head,
                        without_tip(prior.order, *tip),
                    ));
                    assert forall|h: H256| #[trigger] self.sets@.map.contains_key(h)
                        implies self.sets@.map[h].wf() by {
                        if h != *head {
                            assert(before.sets@.map.contains_key(h));
                        }
                    }
                }
            },
        }
    }
}

} // verus!
