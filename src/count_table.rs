//! Occurrence counts of strings, kept in the order each was first seen.

use vstd::prelude::*;
use crate::keys::{key_index, Keys};
use crate::rank::{is_ranking, rank_by_count};

verus! {

/// The keys of a sequence of keyed entries.
pub open spec fn keys_of<V>(s: Seq<(Seq<char>, V)>) -> Seq<Seq<char>> {
    s.map_values(|e: (Seq<char>, V)| e.0)
}

/// The counts of a sequence of counted entries.
pub open spec fn counts_of(s: Seq<(Seq<char>, usize)>) -> Seq<usize> {
    s.map_values(|e: (Seq<char>, usize)| e.1)
}

/// One more, saturating at `usize::MAX`.
pub open spec fn bumped(c: usize) -> usize {
    if c < usize::MAX {
        (c + 1) as usize
    } else {
        c
    }
}

/// Counts of distinct strings, in first-seen order.
pub struct CountTable {
    keys: Keys,
    counts: Vec<usize>,
}

impl View for CountTable {
    type V = Seq<(Seq<char>, usize)>;

    closed spec fn view(&self) -> Seq<(Seq<char>, usize)> {
        Seq::new(self.keys@.len(), |i: int| (self.keys@[i], self.counts@[i]))
    }
}

impl CountTable {
    /// Keys and counts line up, and no key occurs twice.
    pub closed spec fn wf(&self) -> bool {
        &&& self.keys.wf()
        &&& self.keys@.len() == self.counts@.len()
    }

    /// The table after counting `k` once more: a new key goes last.
    pub open spec fn spec_add(s: Seq<(Seq<char>, usize)>, k: Seq<char>) -> Seq<(Seq<char>, usize)> {
        let i = key_index(keys_of(s), k);
        if 0 <= i < s.len() {
            s.update(i, (k, bumped(s[i].1)))
        } else {
            s.push((k, 1usize))
        }
    }

    pub fn new() -> (r: CountTable)
        ensures
            r.wf(),
            r@ == Seq::<(Seq<char>, usize)>::empty(),
    {
        let r = CountTable { keys: Keys::new(), counts: Vec::new() };
        assert(r@ =~= Seq::<(Seq<char>, usize)>::empty());
        r
    }

    pub fn len(&self) -> (r: usize)
        requires
            self.wf(),
        ensures
            r == self@.len(),
    {
        self.keys.len()
    }

    /// Entry `i`: a key and its count.
    pub fn entry(&self, i: usize) -> (r: (&String, usize))
        requires
            self.wf(),
            i < self@.len(),
        ensures
            (r.0@, r.1) == self@[i as int],
    {
        (self.keys.get(i), self.counts[i])
    }

    /// Counts `key` once more.
    pub fn add(&mut self, key: String)
        requires
            old(self).wf(),
        ensures
            final(self).wf(),
            final(self)@ == CountTable::spec_add(old(self)@, key@),
    {
        assert(keys_of(self@) =~= self.keys@);
        match self.keys.find(key.as_str()) {
            Some(i) => {
                let c = self.counts[i];
                let c2 = if c < usize::MAX {
                    c + 1
                } else {
                    c
                };
                self.counts.set(i, c2);
                assert(self@ =~= old(self)@.update(i as int, (key@, c2)));
            },
            None => {
                self.keys.push(key);
                self.counts.push(1);
                assert(self@ =~= old(self)@.push((key@, 1usize)));
            },
        }
    }

    /// The positions of the entries, highest count first, ties in first-seen order.
    pub fn ranked(&self) -> (r: Vec<usize>)
        requires
            self.wf(),
        ensures
            is_ranking(counts_of(self@), r@),
    {
        assert(self.counts@ =~= counts_of(self@));
        rank_by_count(&self.counts)
    }
}

/// The entries of a count table, highest count first, ties in first-seen order.
pub fn count_hashmap_to_vect(map: &CountTable) -> (r: Vec<(String, usize)>)
    requires
        map.wf(),
    ensures
        exists|order: Seq<usize>|
            {
                &&& #[trigger] is_ranking(counts_of(map@), order)
                &&& r@.len() == order.len()
                &&& forall|k: int|
                    0 <= k < r@.len() ==> (#[trigger] r@[k].0@, r@[k].1) == map@[order[k] as int]
            },
{
    let order = map.ranked();
    let mut r: Vec<(String, usize)> = Vec::new();
    let mut k: usize = 0;
    while k < order.len()
        invariant
            map.wf(),
            is_ranking(counts_of(map@), order@),
            k <= order.len(),
            r@.len() == k,
            forall|j: int| 0 <= j < k ==> (#[trigger] r@[j].0@, r@[j].1) == map@[order@[j] as int],
        decreases order.len() - k,
    {
        let (key, count) = map.entry(order[k]);
        r.push((key.clone(), count));
        k = k + 1;
    }
    r
}

} // verus!
