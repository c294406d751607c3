//! Lookup by key in a sequence of distinct string keys.

use vstd::prelude::*;
use crate::text::views;
use vstd::hash_map::StringHashMap;

verus! {

/// No key occurs twice.
pub open spec fn distinct(keys: Seq<Seq<char>>) -> bool {
    forall|i: int, j: int| 0 <= i < keys.len() && 0 <= j < keys.len() && i != j ==> keys[i] != keys[j]
}

/// Position of `k` among `keys`, or -1 where it is absent.
pub open spec fn key_index(keys: Seq<Seq<char>>, k: Seq<char>) -> int {
    if exists|i: int| 0 <= i < keys.len() && keys[i] == k {
        choose|i: int| 0 <= i < keys.len() && keys[i] == k
    } else {
        -1
    }
}

/// Among distinct keys, the one position that holds `k` is its index.
pub proof fn lemma_key_index(keys: Seq<Seq<char>>, k: Seq<char>, i: int)
    requires
        distinct(keys),
        0 <= i < keys.len(),
        keys[i] == k,
    ensures
        key_index(keys, k) == i,
{
    let j = choose|j: int| 0 <= j < keys.len() && keys[j] == k;
    assert(0 <= j < keys.len() && keys[j] == k);
}

/// Appending a new key keeps the keys distinct and leaves the other indices as they were.
pub proof fn lemma_push_key(keys: Seq<Seq<char>>, k: Seq<char>)
    requires
        distinct(keys),
        key_index(keys, k) == -1,
    ensures
        distinct(keys.push(k)),
        key_index(keys.push(k), k) == keys.len(),
        forall|k2: Seq<char>| k2 != k ==> key_index(keys.push(k), k2) == key_index(keys, k2),
{
    let nk = keys.push(k);
    assert forall|i: int| 0 <= i < keys.len() implies keys[i] != k by {
        if keys[i] == k {
            assert(exists|i: int| 0 <= i < keys.len() && keys[i] == k);
        }
    }
    assert(nk[keys.len() as int] == k);
    lemma_key_index(nk, k, keys.len() as int);
    assert forall|k2: Seq<char>| k2 != k implies key_index(nk, k2) == key_index(keys, k2) by {
        if exists|i: int| 0 <= i < keys.len() && keys[i] == k2 {
            let i = choose|i: int| 0 <= i < keys.len() && keys[i] == k2;
            lemma_key_index(keys, k2, i);
            lemma_key_index(nk, k2, i);
        } else {
            assert forall|i: int| 0 <= i < nk.len() implies nk[i] != k2 by {
                if i < keys.len() {
                    assert(nk[i] == keys[i]);
                }
            }
        }
    }
}

/// Distinct string keys in order, with a hash index from key to position.
pub struct Keys {
    list: Vec<String>,
    index: StringHashMap<usize>,
}

impl View for Keys {
    type V = Seq<Seq<char>>;

    closed spec fn view(&self) -> Seq<Seq<char>> {
        views(self.list@)
    }
}

impl Keys {
    /// The index maps each key to its position, and holds nothing else.
    pub closed spec fn wf(&self) -> bool {
        &&& forall|i: int|
            0 <= i < self.list@.len() ==> #[trigger] self.index@.contains_key(self.list@[i]@)
                && self.index@[self.list@[i]@] == i
        &&& forall|k: Seq<char>|
            #[trigger] self.index@.contains_key(k) ==> self.index@[k] < self.list@.len()
                && self.list@[self.index@[k] as int]@ == k
    }

    pub proof fn lemma_distinct(&self)
        requires
            self.wf(),
        ensures
            distinct(self@),
    {
        assert forall|i: int, j: int|
            0 <= i < self@.len() && 0 <= j < self@.len() && i != j implies self@[i] != self@[j] by {
            assert(self.index@.contains_key(self.list@[i]@));
            assert(self.index@.contains_key(self.list@[j]@));
        }
    }

    pub fn new() -> (r: Keys)
        ensures
            r.wf(),
            r@ == Seq::<Seq<char>>::empty(),
    {
        let r = Keys { list: Vec::new(), index: StringHashMap::new() };
        assert(r@ =~= Seq::<Seq<char>>::empty());
        r
    }

    pub fn len(&self) -> (r: usize)
        ensures
            r == self@.len(),
    {
        self.list.len()
    }

    pub fn get(&self, i: usize) -> (r: &String)
        requires
            i < self@.len(),
        ensures
            r@ == self@[i as int],
    {
        &self.list[i]
    }

    /// Position of `key`.
    pub fn find(&self, key: &str) -> (r: Option<usize>)
        requires
            self.wf(),
        ensures
            match r {
                Some(i) => i < self@.len() && self@[i as int] == key@ && key_index(self@, key@) == i,
                None => key_index(self@, key@) == -1,
            },
    {
        proof {
            self.lemma_distinct();
        }
        match self.index.get(key) {
            Some(i) => {
                proof {
                    lemma_key_index(self@, key@, *i as int);
                }
                Some(*i)
            },
            None => {
                assert forall|i: int| 0 <= i < self@.len() implies self@[i] != key@ by {
                    assert(self.index@.contains_key(self.list@[i]@));
                }
                None
            },
        }
    }

    /// Appends a key that is not there yet.
    pub fn push(&mut self, key: String)
        requires
            old(self).wf(),
            key_index(old(self)@, key@) == -1,
        ensures
            final(self).wf(),
            final(self)@ == old(self)@.push(key@),
    {
        proof {
            self.lemma_distinct();
            lemma_push_key(self@, key@);
        }
        let i = self.list.len();
        self.index.insert(key.clone(), i);
        self.list.push(key);
        assert(self@ =~= old(self)@.push(key@));
        assert forall|j: int| 0 <= j < self.list@.len() implies #[trigger] self.index@.contains_key(
            self.list@[j]@,
        ) && self.index@[self.list@[j]@] == j by {
            if j < i {
                assert(old(self).index@.contains_key(old(self).list@[j]@));
                assert(old(self)@[j] != key@);
            }
        }
    }

    /// Removes the key at position `i`; the later keys move up one.
    pub fn remove_at(&mut self, i: usize)
        requires
            old(self).wf(),
            i < old(self)@.len(),
        ensures
            final(self).wf(),
            final(self)@ == old(self)@.remove(i as int),
    {
        proof {
            self.lemma_distinct();
        }
        let ghost ks = self@;
        self.list.remove(i);
        assert(self@ =~= ks.remove(i as int));
        let mut index: StringHashMap<usize> = StringHashMap::new();
        let mut j: usize = 0;
        while j < self.list.len()
            invariant
                j <= self.list@.len(),
                i < ks.len(),
                self@ == ks.remove(i as int),
                distinct(ks),
                forall|q: int|
                    0 <= q < j ==> #[trigger] index@.contains_key(self.list@[q]@) && index@[self.list@[q]@]
                        == q,
                forall|k: Seq<char>|
                    #[trigger] index@.contains_key(k) ==> index@[k] < j && self.list@[index@[k] as int]@
                        == k,
            decreases self.list@.len() - j,
        {
            let ghost before = index@;
            index.insert(self.list[j].clone(), j);
            assert forall|q: int| 0 <= q < j implies self.list@[q]@ != self.list@[j as int]@ by {
                let a = if q < i { q } else { q + 1 };
                let b = if (j as int) < i { j as int } else { j + 1 };
                assert(self@.len() == ks.len() - 1);
                assert(self@[q] == self.list@[q]@);
                assert(self@[j as int] == self.list@[j as int]@);
                assert(ks.remove(i as int)[q] == ks[a]);
                assert(ks.remove(i as int)[j as int] == ks[b]);
            }
            assert forall|q: int| 0 <= q < j + 1 implies #[trigger] index@.contains_key(self.list@[q]@)
                && index@[self.list@[q]@] == q by {
                if q < j {
                    assert(before.contains_key(self.list@[q]@));
                }
            }
            j = j + 1;
        }
        self.index = index;
    }
}

} // verus!
