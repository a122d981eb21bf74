//! The dictionary engine: one read-only handle over the four cooperating
//! files, with word lookup through a bounded decode cache.
//!
//! Construction runs descriptor, index, payload and synonym validation in
//! that dependency order and aborts on the first failure; there is no
//! partial engine. Lookup resolves a word through the index, falling back to
//! the synonym table, reads the payload range, decodes it, and caches the
//! decoded text. Per-lookup failures leave the engine usable.

use crate::cache::{
    cache_index_of, cache_insert_spec, cap_view, lemma_cache_index_of, CacheSlotV, LruCache,
};
use crate::dict::SDdict;
use crate::errors::{StardictError, StardictErrorV};
use crate::idx::{find_spec, idx_spec, IndexEntryV, SDidx};
use crate::ifo::{ifo_spec, SDifo, SDifoV};
use crate::syn::{find_syn_spec, syn_resolvable, syn_spec, SDSyn, SynonymEntryV};
use vstd::prelude::*;
use vstd::slice::slice_to_vec;
use vstd::string::StringSliceAdditionalSpecFns;
use vstd::utf8::{decode_utf8, valid_utf8};

verus! {

/// The mathematical image of a [`Stardict`] engine.
#[verifier::ext_equal]
pub ghost struct StardictV {
    pub ifo: SDifoV,
    pub entries: Seq<IndexEntryV>,
    pub payload: Seq<u8>,
    pub syn: Option<Seq<SynonymEntryV>>,
    pub cache: Seq<CacheSlotV>,
    pub cache_capacity: Option<nat>,
}

/// The stores an engine is built over, before any lookup.
#[verifier::ext_equal]
pub ghost struct EngineV {
    pub ifo: SDifoV,
    pub entries: Seq<IndexEntryV>,
    pub payload: Seq<u8>,
    pub syn: Option<Seq<SynonymEntryV>>,
}

/// The bytes of a file that may be absent.
pub open spec fn opt_view(o: Option<&[u8]>) -> Option<Seq<u8>> {
    match o {
        None => None,
        Some(b) => Some(b@),
    }
}

/// What constructing an engine from the four files' bytes yields: the
/// validated stores, or the first failure in dependency order. A required
/// file that is absent is `NotFound`; an absent synonym file is no error; a
/// synonym record naming a position past the index's entries is
/// `CorruptSynonym`.
pub open spec fn engine_spec(
    ifo_b: Option<Seq<u8>>,
    idx_b: Option<Seq<u8>>,
    dict_b: Option<Seq<u8>>,
    syn_b: Option<Seq<u8>>,
) -> Result<EngineV, StardictErrorV> {
    match ifo_b {
        None => Err(StardictErrorV::NotFound),
        Some(ib) => match ifo_spec(ib) {
            Err(e) => Err(e),
            Ok(ifo) => match idx_b {
                None => Err(StardictErrorV::NotFound),
                Some(xb) => match idx_spec(xb, ifo) {
                    Err(e) => Err(e),
                    Ok(entries) => match dict_b {
                        None => Err(StardictErrorV::NotFound),
                        Some(db) => match syn_b {
                            None => Ok(
                                EngineV { ifo, entries, payload: db, syn: None },
                            ),
                            Some(sb) => match syn_spec(sb) {
                                Err(e) => Err(e),
                                Ok(syns) => if syn_resolvable(syns, entries.len()) {
                                    Ok(EngineV { ifo, entries, payload: db, syn: Some(syns) })
                                } else {
                                    Err(StardictErrorV::CorruptSynonym)
                                },
                            },
                        },
                    },
                },
            },
        },
    }
}

/// The coordinates a lookup resolves a word to: those the index finds, or
/// else those of the entry at the position the synonym table names.
pub open spec fn resolve_spec(d: StardictV, w: Seq<u8>) -> Option<(nat, nat)> {
    match find_spec(d.entries, w) {
        Some(c) => Some(c),
        None => match d.syn {
            None => None,
            Some(syns) => match find_syn_spec(syns, w) {
                None => None,
                Some(ord) => Some((d.entries[ord as int].offset, d.entries[ord as int].size)),
            },
        },
    }
}

/// Whether `s` is the text the engine serves for `w`: the word resolves,
/// its range lies inside the payload, and `s` is its UTF-8 decoding.
pub open spec fn entry_ok(d: StardictV, w: Seq<u8>, s: Seq<char>) -> bool {
    match resolve_spec(d, w) {
        None => false,
        Some(c) => {
            &&& c.0 + c.1 <= d.payload.len()
            &&& valid_utf8(d.payload.subrange(c.0 as int, (c.0 + c.1) as int))
            &&& s == decode_utf8(d.payload.subrange(c.0 as int, (c.0 + c.1) as int))
        },
    }
}

/// Whether every cached text is the one the engine would serve afresh.
pub open spec fn cache_coherent(d: StardictV) -> bool {
    forall|t: int|
        0 <= t < d.cache.len() ==> entry_ok(d, (#[trigger] d.cache[t]).word, d.cache[t].entry)
}

/// A read-only StarDict dictionary: the four stores and the decode cache.
pub struct Stardict {
    pub ifo: SDifo,
    pub idx: SDidx,
    pub dict: SDdict,
    pub syn: Option<SDSyn>,
    pub cache: LruCache,
}

impl View for Stardict {
    type V = StardictV;

    open spec fn view(&self) -> StardictV {
        StardictV {
            ifo: self.ifo@,
            entries: self.idx@,
            payload: self.dict@,
            syn: match self.syn {
                None => None,
                Some(s) => Some(s@),
            },
            cache: self.cache@.entries,
            cache_capacity: self.cache@.capacity,
        }
    }
}

/// `entry_ok` reads only the stores, never the cache.
proof fn lemma_entry_ok_same_stores(d1: StardictV, d2: StardictV, w: Seq<u8>, s: Seq<char>)
    requires
        d1.entries == d2.entries,
        d1.payload == d2.payload,
        d1.syn == d2.syn,
        entry_ok(d1, w, s),
    ensures
        entry_ok(d2, w, s),
{
}

/// Whether every record of a synonym store names a position among `count`
/// index entries.
fn syn_ordinals_ok(syn: &SDSyn, count: usize) -> (r: bool)
    ensures
        r == syn_resolvable(syn@, count as nat),
{
    let n: usize = syn.entries.len();
    let mut t: usize = 0;
    while t < n
        invariant
            t <= n,
            n == syn.entries@.len(),
            forall|u: int| 0 <= u < t ==> (#[trigger] syn@[u].index) < count,
        decreases n - t,
    {
        if syn.entries[t].index as usize >= count {
            proof {
                assert(syn@[t as int].index >= count);
            }
            return false;
        }
        t = t + 1;
    }
    true
}

impl Stardict {
    /// The engine's invariant: a valid descriptor, synonym ordinals that
    /// resolve, a well-formed cache, and every cached text coherent with
    /// the stores.
    pub open spec fn wf(self) -> bool {
        &&& self.ifo.wf()
        &&& match self@.syn {
            None => true,
            Some(syns) => syn_resolvable(syns, self@.entries.len()),
        }
        &&& self.cache.wf()
        &&& cache_coherent(self@)
    }

    /// Builds an engine from the bytes of the four files, `None` standing
    /// for an absent file, exactly as [`engine_spec`] describes. The cache
    /// starts empty with the given capacity, `None` meaning unbounded.
    pub fn new(
        ifo_data: Option<&[u8]>,
        idx_data: Option<&[u8]>,
        dict_data: Option<&[u8]>,
        syn_data: Option<&[u8]>,
        cache_capacity: Option<usize>,
    ) -> (r: Result<Stardict, StardictError>)
        ensures
            ({
                let m = engine_spec(
                    opt_view(ifo_data),
                    opt_view(idx_data),
                    opt_view(dict_data),
                    opt_view(syn_data),
                );
                &&& r is Ok <==> m is Ok
                &&& r matches Ok(d) ==> m matches Ok(e) && d@.ifo == e.ifo && d@.entries
                    == e.entries && d@.payload == e.payload && d@.syn == e.syn && d@.cache
                    == Seq::<CacheSlotV>::empty() && d@.cache_capacity == cap_view(cache_capacity)
                    && d.wf()
                &&& r matches Err(err) ==> m matches Err(me) && err@ == me
            }),
    {
        let ifo = match ifo_data {
            None => {
                return Err(StardictError::NotFound);
            },
            Some(b) => match SDifo::new(b) {
                Err(e) => {
                    return Err(e);
                },
                Ok(ifo) => ifo,
            },
        };
        let idx = match idx_data {
            None => {
                return Err(StardictError::NotFound);
            },
            Some(b) => match SDidx::new(b, &ifo) {
                Err(e) => {
                    return Err(e);
                },
                Ok(idx) => idx,
            },
        };
        let dict = match dict_data {
            None => {
                return Err(StardictError::NotFound);
            },
            Some(b) => SDdict::new(slice_to_vec(b)),
        };
        let syn = match syn_data {
            None => None,
            Some(b) => {
                let syn = match SDSyn::new(b) {
                    Err(e) => {
                        return Err(e);
                    },
                    Ok(s) => s,
                };
                if !syn_ordinals_ok(&syn, idx.entries.len()) {
                    proof {
                        assert(idx.entries@.len() == idx@.len());
                    }
                    return Err(StardictError::CorruptSynonym);
                }
                proof {
                    assert(syn_resolvable(syn@, idx@.len()));
                }
                Some(syn)
            },
        };
        let engine = Stardict { ifo, idx, dict, syn, cache: LruCache::new(cache_capacity) };
        Ok(engine)
    }

    /// Whether the decode cache currently holds `word`.
    pub fn cached(&self, word: &str) -> (r: bool)
        ensures
            r == (cache_index_of(self@.cache, word.spec_bytes()) is Some),
    {
        self.cache.contains(word.as_bytes())
    }

    /// Looks a word up and serves its decoded entry text.
    ///
    /// A word the index does not hold and the synonym table does not
    /// resolve — in particular any word, in an empty dictionary — gets
    /// `NotFound`; a resolved range past the payload's end gets
    /// `TruncatedRead`; an entry that is not UTF-8 gets `Utf8Decode`. A
    /// cache hit serves the cached text and touches the payload range not
    /// at all; a successful miss caches the decoded text, evicting the
    /// least recently used entry when the cache is full.
    pub fn lookup(&mut self, word: &str) -> (r: Result<String, StardictError>)
        requires
            old(self).wf(),
        ensures
            final(self).wf(),
            final(self)@.ifo == old(self)@.ifo,
            final(self)@.entries == old(self)@.entries,
            final(self)@.payload == old(self)@.payload,
            final(self)@.syn == old(self)@.syn,
            final(self)@.cache_capacity == old(self)@.cache_capacity,
            ({
                let w = word.spec_bytes();
                let d = old(self)@;
                &&& r is Ok <==> (resolve_spec(d, w) matches Some(c) && c.0 + c.1
                    <= d.payload.len() && valid_utf8(
                    d.payload.subrange(c.0 as int, (c.0 + c.1) as int),
                ))
                &&& r matches Ok(s) ==> entry_ok(d, w, s@)
                &&& r matches Err(e) ==> e@ == (match resolve_spec(d, w) {
                    None => StardictErrorV::NotFound,
                    Some(c) => if c.0 + c.1 <= d.payload.len() {
                        StardictErrorV::Utf8Decode
                    } else {
                        StardictErrorV::TruncatedRead
                    },
                })
                &&& match cache_index_of(d.cache, w) {
                    Some(i) => final(self)@.cache == d.cache.remove(i).push(d.cache[i]),
                    None => final(self)@.cache == (match r {
                        Ok(s) => cache_insert_spec(
                            d.cache_capacity,
                            d.cache,
                            CacheSlotV { word: w, entry: s@ },
                        ),
                        Err(_) => d.cache,
                    }),
                }
            }),
    {
        let ghost d0 = old(self)@;
        let wb = word.as_bytes();
        proof {
            lemma_cache_index_of(d0.cache, wb@);
        }
        match self.cache.get(wb) {
            Some(text) => {
                proof {
                    let i = cache_index_of(d0.cache, wb@)->0;
                    assert(d0.cache[i].word == wb@);
                    assert(entry_ok(d0, wb@, text@));
                    assert forall|t: int| 0 <= t < self@.cache.len() implies entry_ok(
                        self@,
                        (#[trigger] self@.cache[t]).word,
                        self@.cache[t].entry,
                    ) by {
                        let u = choose|u: int|
                            0 <= u < d0.cache.len() && self@.cache[t] == d0.cache[u];
                        lemma_entry_ok_same_stores(
                            d0,
                            self@,
                            self@.cache[t].word,
                            self@.cache[t].entry,
                        );
                    }
                }
                return Ok(text);
            },
            None => {},
        }
        proof {
            assert(self@ =~= d0);
        }
        let coords: (u64, u32) = match self.idx.find(wb) {
            Some(c) => c,
            None => {
                match &self.syn {
                    None => {
                        return Err(StardictError::NotFound);
                    },
                    Some(syn) => match syn.find(wb) {
                        None => {
                            return Err(StardictError::NotFound);
                        },
                        Some(ord) => {
                            proof {
                                SDSyn::lemma_find_syn_means_present(syn@, wb@);
                            }
                            let e = &self.idx.entries[ord as usize];
                            (e.offset, e.size)
                        },
                    },
                }
            },
        };
        proof {
            assert(resolve_spec(d0, wb@) == Some((coords.0 as nat, coords.1 as nat)));
        }
        let text = match self.dict.read_entry_str(coords.0, coords.1) {
            Err(e) => {
                proof {
                    assert(self@ =~= d0);
                }
                return Err(e);
            },
            Ok(s) => s,
        };
        let cached_text = text.clone();
        self.cache.insert(slice_to_vec(wb), cached_text);
        proof {
            assert(entry_ok(d0, wb@, text@));
            assert forall|t: int| 0 <= t < self@.cache.len() implies entry_ok(
                self@,
                (#[trigger] self@.cache[t]).word,
                self@.cache[t].entry,
            ) by {
                if self@.cache[t] == (CacheSlotV { word: wb@, entry: text@ }) {
                    lemma_entry_ok_same_stores(d0, self@, wb@, text@);
                } else {
                    let u = choose|u: int| 0 <= u < d0.cache.len() && self@.cache[t] == d0.cache[u];
                    lemma_entry_ok_same_stores(
                        d0,
                        self@,
                        self@.cache[t].word,
                        self@.cache[t].entry,
                    );
                }
            }
        }
        Ok(text)
    }
}

} // verus!
