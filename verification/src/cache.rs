//! The decode cache: a capacity-bounded, least-recently-used store of
//! decoded entry strings.
//!
//! The slots stand in recency order, the most recently used last. A lookup
//! hit moves its slot to the end; an insert into a full bounded cache evicts
//! the front slot — the least recently used — so that a cache of capacity
//! `N` evicts exactly when the `(N + 1)`-th distinct word arrives. A cache
//! without a capacity never evicts.

use crate::bytes::bytes_eq;
use vstd::prelude::*;

verus! {

/// One cached decode: a word and its decoded entry text.
#[derive(Debug, PartialEq, Eq)]
pub struct CacheSlot {
    pub word: Vec<u8>,
    pub entry: String,
}

/// The mathematical image of a [`CacheSlot`].
#[verifier::ext_equal]
pub ghost struct CacheSlotV {
    pub word: Seq<u8>,
    pub entry: Seq<char>,
}

impl View for CacheSlot {
    type V = CacheSlotV;

    open spec fn view(&self) -> CacheSlotV {
        CacheSlotV { word: self.word@, entry: self.entry@ }
    }
}

/// The position of the slot holding `w`, if any; searched from the most
/// recent end.
pub open spec fn cache_index_of(entries: Seq<CacheSlotV>, w: Seq<u8>) -> Option<int>
    decreases entries.len(),
{
    if entries.len() == 0 {
        None
    } else if entries.last().word == w {
        Some(entries.len() - 1)
    } else {
        cache_index_of(entries.drop_last(), w)
    }
}

/// What `cache_index_of` returns: the last position holding `w`.
pub proof fn lemma_cache_index_of(entries: Seq<CacheSlotV>, w: Seq<u8>)
    ensures
        match cache_index_of(entries, w) {
            Some(i) => 0 <= i < entries.len() && entries[i].word == w && (forall|j: int|
                i < j < entries.len() ==> (#[trigger] entries[j]).word != w),
            None => forall|j: int| 0 <= j < entries.len() ==> (#[trigger] entries[j]).word != w,
        },
    decreases entries.len(),
{
    if entries.len() > 0 && entries.last().word != w {
        lemma_cache_index_of(entries.drop_last(), w);
        assert forall|j: int| 0 <= j < entries.len() - 1 implies entries.drop_last()[j]
            == entries[j] by {}
    }
}

/// Whether no two slots hold the same word.
pub open spec fn distinct_words(entries: Seq<CacheSlotV>) -> bool {
    forall|p: int, q: int|
        0 <= p < q < entries.len() ==> (#[trigger] entries[p]).word != (#[trigger] entries[q]).word
}

/// The capacity as a mathematical value.
pub open spec fn cap_view(c: Option<usize>) -> Option<nat> {
    match c {
        None => None,
        Some(n) => Some(n as nat),
    }
}

/// What an insert leaves in the cache: any slot already holding the word is
/// taken out, then the least recently used slot is evicted if a bounded
/// cache is full, and the new slot goes to the most recent end. A cache of
/// capacity zero stores nothing.
pub open spec fn cache_insert_spec(
    cap: Option<nat>,
    entries: Seq<CacheSlotV>,
    slot: CacheSlotV,
) -> Seq<CacheSlotV> {
    let without = match cache_index_of(entries, slot.word) {
        Some(i) => entries.remove(i),
        None => entries,
    };
    match cap {
        None => without.push(slot),
        Some(c) => if c == 0 {
            without
        } else if without.len() >= c {
            without.drop_first().push(slot)
        } else {
            without.push(slot)
        },
    }
}

/// The least-recently-used decode cache.
#[derive(Debug, PartialEq, Eq)]
pub struct LruCache {
    capacity: Option<usize>,
    entries: Vec<CacheSlot>,
}

/// The mathematical image of an [`LruCache`].
#[verifier::ext_equal]
pub ghost struct LruCacheV {
    pub capacity: Option<nat>,
    pub entries: Seq<CacheSlotV>,
}

impl View for LruCache {
    type V = LruCacheV;

    closed spec fn view(&self) -> LruCacheV {
        LruCacheV {
            capacity: cap_view(self.capacity),
            entries: self.entries@.map_values(|s: CacheSlot| s@),
        }
    }
}

impl LruCache {
    /// The cache's invariant: words are unique, and a bounded cache holds
    /// no more slots than its capacity.
    pub open spec fn wf(self) -> bool {
        &&& distinct_words(self@.entries)
        &&& match self@.capacity {
            None => true,
            Some(c) => self@.entries.len() <= c,
        }
    }

    /// An empty cache with the given capacity; `None` means unbounded.
    pub fn new(capacity: Option<usize>) -> (r: LruCache)
        ensures
            r.wf(),
            r@.capacity == cap_view(capacity),
            r@.entries == Seq::<CacheSlotV>::empty(),
    {
        let c = LruCache { capacity, entries: Vec::new() };
        proof {
            assert(c@.entries =~= Seq::<CacheSlotV>::empty());
        }
        c
    }

    /// How many slots the cache holds.
    pub fn len(&self) -> (r: usize)
        ensures
            r == self@.entries.len(),
    {
        self.entries.len()
    }

    /// Whether a slot holds `word`.
    pub fn contains(&self, word: &[u8]) -> (r: bool)
        ensures
            r == (cache_index_of(self@.entries, word@) is Some),
    {
        let ghost model = self@.entries;
        let mut k: usize = self.entries.len();
        proof {
            assert(model.take(k as int) =~= model);
        }
        while k > 0
            invariant
                k <= self.entries@.len(),
                model == self@.entries,
                cache_index_of(model, word@) == cache_index_of(model.take(k as int), word@),
            decreases k,
        {
            proof {
                assert(model.take(k as int).last() == model[k - 1]);
                assert(model.take(k as int).drop_last() =~= model.take(k - 1));
            }
            if bytes_eq(self.entries[k - 1].word.as_slice(), word) {
                return true;
            }
            k = k - 1;
        }
        false
    }

    /// Looks `word` up. A hit returns the cached text and moves the slot to
    /// the most recent end; a miss changes nothing.
    pub fn get(&mut self, word: &[u8]) -> (r: Option<String>)
        requires
            old(self).wf(),
        ensures
            final(self).wf(),
            final(self)@.capacity == old(self)@.capacity,
            match cache_index_of(old(self)@.entries, word@) {
                None => r is None && final(self)@.entries == old(self)@.entries,
                Some(i) => r matches Some(s) && s@ == old(self)@.entries[i].entry
                    && final(self)@.entries == old(self)@.entries.remove(i).push(
                    old(self)@.entries[i],
                ),
            },
            forall|t: int|
                0 <= t < final(self)@.entries.len() ==> exists|u: int|
                    0 <= u < old(self)@.entries.len() && #[trigger] final(self)@.entries[t]
                        == old(self)@.entries[u],
    {
        let ghost model = old(self)@.entries;
        proof {
            lemma_cache_index_of(model, word@);
        }
        let mut k: usize = self.entries.len();
        proof {
            assert(model.take(k as int) =~= model);
        }
        while k > 0
            invariant
                *self == *old(self),
                old(self).wf(),
                k <= self.entries@.len(),
                model == self@.entries,
                cache_index_of(model, word@) == cache_index_of(model.take(k as int), word@),
            decreases k,
        {
            proof {
                assert(model.take(k as int).last() == model[k - 1]);
                assert(model.take(k as int).drop_last() =~= model.take(k - 1));
            }
            if bytes_eq(self.entries[k - 1].word.as_slice(), word) {
                let ghost i = k - 1;
                let ghost bumped = model.remove(i).push(model[i]);
                let slot = self.entries.remove(k - 1);
                let text = slot.entry.clone();
                self.entries.push(slot);
                proof {
                    lemma_cache_index_of(model, word@);
                    assert(cache_index_of(model, word@) == Some(i));
                    model.remove_ensures(i);
                    assert(self@.entries =~= bumped);
                    assert(bumped.len() == model.len());
                    assert forall|t: int| 0 <= t < bumped.len() implies exists|u: int|
                        0 <= u < model.len() && #[trigger] bumped[t] == model[u] by {
                        if t == bumped.len() - 1 {
                            assert(bumped[t] == model[i]);
                        } else if t < i {
                            assert(bumped[t] == model.remove(i)[t]);
                            assert(bumped[t] == model[t]);
                        } else {
                            assert(bumped[t] == model.remove(i)[t]);
                            assert(bumped[t] == model[t + 1]);
                        }
                    }
                    assert forall|p: int, q: int| 0 <= p < q < bumped.len() implies (
                    #[trigger] bumped[p]).word != (#[trigger] bumped[q]).word by {
                        let np = if p < i {
                            p
                        } else {
                            p + 1
                        };
                        if q == bumped.len() - 1 {
                            assert(bumped[q] == model[i]);
                            assert(bumped[p] == model.remove(i)[p]);
                            assert(bumped[p] == model[np]);
                            assert(np != i);
                        } else {
                            let nq = if q < i {
                                q
                            } else {
                                q + 1
                            };
                            assert(bumped[p] == model.remove(i)[p]);
                            assert(bumped[q] == model.remove(i)[q]);
                            assert(bumped[p] == model[np]);
                            assert(bumped[q] == model[nq]);
                        }
                    }
                }
                return Some(text);
            }
            k = k - 1;
        }
        None
    }

    /// Stores the decoded text for `word`, as [`cache_insert_spec`]
    /// describes.
    pub fn insert(&mut self, word: Vec<u8>, entry: String)
        requires
            old(self).wf(),
        ensures
            final(self).wf(),
            final(self)@.capacity == old(self)@.capacity,
            final(self)@.entries == cache_insert_spec(
                old(self)@.capacity,
                old(self)@.entries,
                CacheSlotV { word: word@, entry: entry@ },
            ),
            forall|t: int|
                0 <= t < final(self)@.entries.len() ==> (#[trigger] final(self)@.entries[t]
                    == (CacheSlotV { word: word@, entry: entry@ }) || exists|u: int|
                    0 <= u < old(self)@.entries.len() && final(self)@.entries[t]
                        == old(self)@.entries[u]),
    {
        let ghost model = old(self)@.entries;
        let ghost slotv = CacheSlotV { word: word@, entry: entry@ };
        proof {
            lemma_cache_index_of(model, word@);
        }
        // Take out any slot already holding the word.
        match self.find_index(word.as_slice()) {
            None => {},
            Some(i) => {
                self.entries.remove(i);
            },
        }
        let ghost without = match cache_index_of(model, word@) {
            Some(i) => model.remove(i),
            None => model,
        };
        proof {
            match cache_index_of(model, word@) {
                Some(i) => model.remove_ensures(i),
                None => (),
            }
            assert(self@.entries =~= without);
            assert forall|t: int| 0 <= t < without.len() implies exists|u: int|
                0 <= u < model.len() && (#[trigger] without[t] == model[u]) && (cache_index_of(
                model,
                word@,
            ) matches Some(i) ==> u != i) by {
                match cache_index_of(model, word@) {
                    Some(i) => {
                        if t < i {
                            assert(without[t] == model[t]);
                        } else {
                            assert(without[t] == model[t + 1]);
                        }
                    },
                    None => {
                        assert(without[t] == model[t]);
                    },
                }
            }
            assert forall|t: int| 0 <= t < without.len() implies (#[trigger] without[t]).word
                != word@ by {
                match cache_index_of(model, word@) {
                    Some(i) => {
                        if t < i {
                            assert(without[t] == model[t]);
                            assert(model[t].word != word@) by {
                                if model[t].word == word@ {
                                    assert(model[t].word == model[i].word);
                                }
                            }
                        } else {
                            assert(without[t] == model[t + 1]);
                        }
                    },
                    None => {
                        assert(without[t] == model[t]);
                    },
                }
            }
            assert forall|p: int, q: int|
                0 <= p < q < without.len() implies (#[trigger] without[p]).word != (
            #[trigger] without[q]).word by {
                match cache_index_of(model, word@) {
                    Some(i) => {
                        let np = if p < i {
                            p
                        } else {
                            p + 1
                        };
                        let nq = if q < i {
                            q
                        } else {
                            q + 1
                        };
                        assert(without[p] == model[np]);
                        assert(without[q] == model[nq]);
                    },
                    None => {
                        assert(without[p] == model[p]);
                        assert(without[q] == model[q]);
                    },
                }
            }
        }
        // Evict the least recently used slot if a bounded cache is full.
        match self.capacity {
            None => {},
            Some(c) => {
                if c == 0 {
                    return ;
                }
                if self.entries.len() >= c {
                    self.entries.remove(0);
                    proof {
                        without.remove_ensures(0);
                        assert(without.remove(0) =~= without.drop_first());
                        assert(self@.entries =~= without.drop_first());
                    }
                }
            },
        }
        let ghost evicted = self@.entries;
        proof {
            assert(evicted =~= (if without.len() > evicted.len() {
                without.drop_first()
            } else {
                without
            }));
            assert forall|t: int| 0 <= t < evicted.len() implies (#[trigger] evicted[t]).word
                != word@ by {
                if without.len() > evicted.len() {
                    assert(evicted[t] == without[t + 1]);
                } else {
                    assert(evicted[t] == without[t]);
                }
            }
            assert forall|t: int| 0 <= t < evicted.len() implies exists|u: int|
                0 <= u < model.len() && #[trigger] evicted[t] == model[u] by {
                if without.len() > evicted.len() {
                    assert(evicted[t] == without[t + 1]);
                } else {
                    assert(evicted[t] == without[t]);
                }
            }
        }
        self.entries.push(CacheSlot { word, entry });
        proof {
            assert(self@.entries =~= evicted.push(slotv));
            assert(self@.entries =~= cache_insert_spec(old(self)@.capacity, model, slotv));
            assert forall|p: int, q: int|
                0 <= p < q < self@.entries.len() implies (#[trigger] self@.entries[p]).word != (
            #[trigger] self@.entries[q]).word by {
                assert(self@.entries[p] == evicted[p]);
                if q < self@.entries.len() - 1 {
                    assert(self@.entries[q] == evicted[q]);
                } else {
                    assert(self@.entries[q] == slotv);
                }
            }
            assert forall|t: int| 0 <= t < self@.entries.len() implies (#[trigger] self@.entries[t]
                == slotv || exists|u: int|
                0 <= u < model.len() && self@.entries[t] == model[u]) by {
                if t < self@.entries.len() - 1 {
                    assert(self@.entries[t] == evicted[t]);
                }
            }
        }
    }

    /// The position of the slot holding `word`, if any.
    fn find_index(&self, word: &[u8]) -> (r: Option<usize>)
        ensures
            match r {
                Some(i) => cache_index_of(self@.entries, word@) == Some(i as int),
                None => cache_index_of(self@.entries, word@) is None,
            },
    {
        let ghost model = self@.entries;
        let mut k: usize = self.entries.len();
        proof {
            assert(model.take(k as int) =~= model);
        }
        while k > 0
            invariant
                k <= self.entries@.len(),
                model == self@.entries,
                cache_index_of(model, word@) == cache_index_of(model.take(k as int), word@),
            decreases k,
        {
            proof {
                assert(model.take(k as int).last() == model[k - 1]);
                assert(model.take(k as int).drop_last() =~= model.take(k - 1));
            }
            if bytes_eq(self.entries[k - 1].word.as_slice(), word) {
                return Some(k - 1);
            }
            k = k - 1;
        }
        None
    }
}

} // verus!
