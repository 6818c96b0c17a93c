//! The in-memory index: a map from key to the location of the key's live
//! record, `(segment id, character offset)`, together with a vector of the
//! present keys so that callers can walk all entries.

use vstd::prelude::*;
use vstd::hash_map::StringHashMap;

verus! {

/// The key → (segment, offset) index of a store.
pub struct Index {
    map: StringHashMap<(u64, u64)>,
    keys: Vec<String>,
}

impl View for Index {
    type V = Map<Seq<char>, (u64, u64)>;

    closed spec fn view(&self) -> Map<Seq<char>, (u64, u64)> {
        self.map@
    }
}

/// Some slot of `keys` holds the key `k`.
pub open spec fn has_slot(keys: Seq<String>, k: Seq<char>) -> bool {
    exists|i: int| 0 <= i < keys.len() && (#[trigger] keys[i])@ == k
}

/// A key stays findable when another key is pushed behind it.
proof fn lemma_has_slot_push(keys: Seq<String>, x: String, k: Seq<char>)
    requires
        has_slot(keys, k),
    ensures
        has_slot(keys.push(x), k),
{
    let j = choose|j: int| 0 <= j < keys.len() && (#[trigger] keys[j])@ == k;
    assert(keys.push(x)[j] == keys[j]);
}

/// A key other than the removed one stays findable across a swap-removal.
proof fn lemma_has_slot_swap_remove(keys: Seq<String>, i: int, k: Seq<char>)
    requires
        0 <= i < keys.len(),
        has_slot(keys, k),
        keys[i]@ != k,
    ensures
        has_slot(keys.update(i, keys.last()).drop_last(), k),
{
    let newkeys = keys.update(i, keys.last()).drop_last();
    let j = choose|j: int| 0 <= j < keys.len() && (#[trigger] keys[j])@ == k;
    if j == keys.len() - 1 {
        assert(i < keys.len() - 1);
        assert(newkeys[i] == keys[j]);
    } else {
        assert(newkeys[j] == keys[j]);
    }
}

impl Index {
    /// The keys vector holds each present key exactly once.
    pub closed spec fn wf(self) -> bool {
        &&& forall|i: int, j: int|
            0 <= i < j < self.keys@.len() ==> (#[trigger] self.keys@[i])@ != (
            #[trigger] self.keys@[j])@
        &&& forall|i: int|
            0 <= i < self.keys@.len() ==> self.map@.contains_key((#[trigger] self.keys@[i])@)
        &&& forall|k: Seq<char>| self.map@.contains_key(k) ==> has_slot(self.keys@, k)
    }

    /// An empty index.
    pub fn new() -> (r: Index)
        ensures
            r@ == Map::<Seq<char>, (u64, u64)>::empty(),
            r.wf(),
    {
        Index { map: StringHashMap::new(), keys: Vec::new() }
    }

    /// How many keys are present.
    pub fn len(&self) -> (n: usize)
        requires
            self.wf(),
        ensures
            n == self@.len(),
    {
        self.map.len()
    }

    /// The location of `k`'s live record, if `k` is present.
    pub fn get(&self, k: &str) -> (r: Option<(u64, u64)>)
        ensures
            match r {
                Some(e) => self@.contains_key(k@) && self@[k@] == e,
                None => !self@.contains_key(k@),
            },
    {
        match self.map.get(k) {
            Some(e) => Some(*e),
            None => None,
        }
    }

    /// Whether `k` is present.
    pub fn contains(&self, k: &str) -> (b: bool)
        ensures
            b == self@.contains_key(k@),
    {
        self.map.contains_key(k)
    }

    /// Points `k` at `e`, replacing any earlier entry.
    pub fn insert(&mut self, k: String, e: (u64, u64))
        requires
            old(self).wf(),
        ensures
            final(self).wf(),
            final(self)@ == old(self)@.insert(k@, e),
    {
        let ghost oldkeys = self.keys@;
        if !self.map.contains_key(k.as_str()) {
            self.keys.push(k.clone());
        }
        self.map.insert(k, e);
        proof {
            assert forall|k2: Seq<char>| self.map@.contains_key(k2) implies has_slot(
                self.keys@,
                k2,
            ) by {
                if k2 == k@ {
                    if old(self).map@.contains_key(k@) {
                        assert(has_slot(oldkeys, k2));
                    } else {
                        assert(self.keys@[self.keys@.len() - 1]@ == k2);
                    }
                } else {
                    assert(old(self).map@.contains_key(k2));
                    assert(has_slot(oldkeys, k2));
                    if self.keys@ != oldkeys {
                        lemma_has_slot_push(oldkeys, self.keys@.last(), k2);
                    }
                }
            }
        }
    }

    /// Drops `k`'s entry if there is one.
    pub fn remove(&mut self, k: &String)
        requires
            old(self).wf(),
        ensures
            final(self).wf(),
            final(self)@ == old(self)@.remove(k@),
    {
        let ghost pre = *self;
        let mut i: usize = 0;
        let n: usize = self.keys.len();
        while i < n
            invariant
                pre == *old(self),
                pre.wf(),
                n == self.keys@.len(),
                i <= n,
                forall|j: int| 0 <= j < i ==> (#[trigger] self.keys@[j])@ != k@,
                *self == pre,
            decreases n - i,
        {
            if self.keys[i] == *k {
                self.keys.swap_remove(i);
                self.map.remove(k.as_str());
                proof {
                    let newkeys = self.keys@;
                    assert(pre.keys@[i as int]@ == k@);
                    assert(newkeys == pre.keys@.update(
                        i as int,
                        pre.keys@.last(),
                    ).drop_last());
                    assert(forall|m: int|
                        0 <= m < newkeys.len() ==> #[trigger] newkeys[m] == (if m == i {
                            pre.keys@[pre.keys@.len() - 1]
                        } else {
                            pre.keys@[m]
                        }));
                    assert forall|m: int| 0 <= m < newkeys.len() implies self.map@.contains_key(
                        (#[trigger] newkeys[m])@,
                    ) by {
                        let o = if m == i { pre.keys@.len() - 1 } else { m };
                        assert(newkeys[m] == pre.keys@[o]);
                        assert(pre.map@.contains_key(pre.keys@[o]@));
                        if pre.keys@[o]@ == k@ {
                            assert((pre.keys@[o])@ == (pre.keys@[i as int])@);
                            if o != i {
                                assert(false);
                            }
                            assert(false);
                        }
                    }
                    assert forall|k2: Seq<char>| self.map@.contains_key(k2) implies has_slot(
                        newkeys,
                        k2,
                    ) by {
                        assert(pre.map@.contains_key(k2) && k2 != k@);
                        assert(has_slot(pre.keys@, k2));
                        lemma_has_slot_swap_remove(pre.keys@, i as int, k2);
                    }
                }
                return ;
            }
            i = i + 1;
        }
        proof {
            if self.map@.contains_key(k@) {
                assert(has_slot(self.keys@, k@));
                let j = choose|j: int|
                    0 <= j < self.keys@.len() && (#[trigger] self.keys@[j])@ == k@;
                assert(false);
            }
            assert(self.map@.remove(k@) =~= self.map@);
        }
    }

    /// How many key slots there are to walk; equals the number of keys.
    pub fn num_slots(&self) -> (n: usize)
        ensures
            n == self.key_seq().len(),
    {
        self.keys.len()
    }

    /// The present keys, in walking order.
    pub closed spec fn key_seq(self) -> Seq<Seq<char>> {
        self.keys@.map_values(|s: String| s@)
    }

    /// Every present key sits in some slot.
    pub proof fn lemma_key_seq_complete(&self)
        requires
            self.wf(),
        ensures
            forall|k: Seq<char>|
                self@.contains_key(k) ==> exists|j: int|
                    0 <= j < self.key_seq().len() && self.key_seq()[j] == k,
    {
        assert forall|k: Seq<char>| self@.contains_key(k) implies exists|j: int|
            0 <= j < self.key_seq().len() && self.key_seq()[j] == k by {
            assert(has_slot(self.keys@, k));
            let j = choose|j: int| 0 <= j < self.keys@.len() && (#[trigger] self.keys@[j])@ == k;
            assert(self.key_seq()[j] == k);
        }
    }

    /// The key in slot `i`.
    pub fn key_at(&self, i: usize) -> (k: &String)
        requires
            self.wf(),
            i < self.key_seq().len(),
        ensures
            k@ == self.key_seq()[i as int],
            self@.contains_key(k@),
    {
        &self.keys[i]
    }
}

} // verus!
