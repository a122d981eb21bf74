//! The synonym (`.syn`) store.
//!
//! The synonym file is optional. When present it is a sequence of records
//! `word NUL index`: an alternate spelling terminated by a NUL byte, then a
//! big-endian 4-byte ordinal naming the canonical entry's position in the
//! index's file order. A record without its NUL terminator or with a
//! truncated ordinal makes the whole file corrupt.

use crate::bytes::{be_read, be_value, bytes_eq, find_byte, lemma_be_value_bound, pow256, scan_byte};
use crate::errors::{StardictError, StardictErrorV};
use vstd::prelude::*;
use vstd::slice::{slice_subrange, slice_to_vec};

verus! {

/// One synonym record: an alternate spelling and the index position of its
/// canonical entry.
#[derive(Debug, Clone, PartialEq, Eq)]
pub struct SynonymEntry {
    pub word: Vec<u8>,
    pub index: u32,
}

/// The mathematical image of a [`SynonymEntry`].
#[verifier::ext_equal]
pub ghost struct SynonymEntryV {
    pub word: Seq<u8>,
    pub index: nat,
}

impl View for SynonymEntry {
    type V = SynonymEntryV;

    open spec fn view(&self) -> SynonymEntryV {
        SynonymEntryV { word: self.word@, index: self.index as nat }
    }
}

/// The records of a synonym buffer, read to its end. `None` when the buffer
/// does not segment into complete records.
pub open spec fn parse_syn_records(b: Seq<u8>) -> Option<Seq<SynonymEntryV>>
    decreases b.len(),
{
    if b.len() == 0 {
        Some(Seq::empty())
    } else {
        let i = find_byte(b, 0);
        if i is Some && 0 <= i->0 && i->0 + 5 <= b.len() {
            let entry = SynonymEntryV {
                word: b.take(i->0),
                index: be_value(b.subrange(i->0 + 1, i->0 + 5)),
            };
            match parse_syn_records(b.subrange(i->0 + 5, b.len() as int)) {
                None => None,
                Some(rest) => Some(seq![entry] + rest),
            }
        } else {
            None
        }
    }
}

/// What parsing the synonym bytes yields: the records in file order, or
/// `CorruptSynonym`.
pub open spec fn syn_spec(b: Seq<u8>) -> Result<Seq<SynonymEntryV>, StardictErrorV> {
    match parse_syn_records(b) {
        None => Err(StardictErrorV::CorruptSynonym),
        Some(entries) => Ok(entries),
    }
}

/// The ordinal the store hands out for a spelling: that of the last record
/// holding it, if any.
pub open spec fn find_syn_spec(entries: Seq<SynonymEntryV>, word: Seq<u8>) -> Option<nat>
    decreases entries.len(),
{
    if entries.len() == 0 {
        None
    } else if entries.last().word == word {
        Some(entries.last().index)
    } else {
        find_syn_spec(entries.drop_last(), word)
    }
}

/// Whether every record's ordinal names a position among `n` index entries.
pub open spec fn syn_resolvable(entries: Seq<SynonymEntryV>, n: nat) -> bool {
    forall|t: int| 0 <= t < entries.len() ==> (#[trigger] entries[t].index) < n
}

/// Concatenation of already-parsed records with the outcome on the rest of
/// the buffer.
spec fn opt_concat(pre: Seq<SynonymEntryV>, rest: Option<Seq<SynonymEntryV>>) -> Option<
    Seq<SynonymEntryV>,
> {
    match rest {
        None => None,
        Some(s) => Some(pre + s),
    }
}

/// The synonym store: all records of the synonym file, in file order.
#[derive(Debug, Clone, PartialEq, Eq)]
pub struct SDSyn {
    pub entries: Vec<SynonymEntry>,
}

impl View for SDSyn {
    type V = Seq<SynonymEntryV>;

    open spec fn view(&self) -> Seq<SynonymEntryV> {
        self.entries@.map_values(|e: SynonymEntry| e@)
    }
}

impl SDSyn {
    /// Parses the bytes of a synonym file, exactly as [`syn_spec`]
    /// describes.
    pub fn new(data: &[u8]) -> (r: Result<SDSyn, StardictError>)
        ensures
            r is Ok <==> syn_spec(data@) is Ok,
            r matches Ok(syn) ==> syn_spec(data@) matches Ok(m) && syn@ == m,
            r matches Err(e) ==> e@ == StardictErrorV::CorruptSynonym,
    {
        let n: usize = data.len();
        let mut entries: Vec<SynonymEntry> = Vec::new();
        let ghost mut processed: Seq<SynonymEntryV> = Seq::empty();
        let mut pos: usize = 0;
        proof {
            assert(data@.subrange(0, n as int) =~= data@);
        }
        loop
            invariant
                pos <= n,
                n == data@.len(),
                processed.len() == entries@.len(),
                forall|t: int| 0 <= t < processed.len() ==> entries@[t]@ == processed[t],
                parse_syn_records(data@) == opt_concat(
                    processed,
                    parse_syn_records(data@.subrange(pos as int, n as int)),
                ),
            decreases n - pos,
        {
            let ghost rest = data@.subrange(pos as int, n as int);
            if pos == n {
                proof {
                    assert(rest.len() == 0);
                    assert(processed + Seq::<SynonymEntryV>::empty() =~= processed);
                    assert(parse_syn_records(data@) == Some(processed));
                }
                let syn = SDSyn { entries };
                proof {
                    assert(syn@ =~= processed);
                }
                return Ok(syn);
            }
            match scan_byte(data, pos, 0) {
                Some(i) => {
                    if n - (i + 1) < 4 {
                        proof {
                            assert(parse_syn_records(rest) is None);
                        }
                        return Err(StardictError::CorruptSynonym);
                    }
                    let word = slice_to_vec(slice_subrange(data, pos, i));
                    let index_raw = be_read(data, i + 1, 4);
                    proof {
                        lemma_be_value_bound(data@.subrange(i + 1, i + 1 + 4));
                        assert(pow256(4) == 0x1_0000_0000) by {
                            reveal_with_fuel(pow256, 5);
                        }
                    }
                    let index = index_raw as u32;
                    let entry = SynonymEntry { word, index };
                    let ghost k = i - pos;
                    proof {
                        assert(find_byte(rest, 0) == Some(k));
                        assert(entry@.word =~= rest.take(k));
                        assert(rest.subrange(k + 1, k + 5) =~= data@.subrange(i + 1, i + 5));
                        assert(rest.subrange(k + 5, rest.len() as int) =~= data@.subrange(
                            i + 5,
                            n as int,
                        ));
                        let sv = SynonymEntryV {
                            word: rest.take(k),
                            index: be_value(rest.subrange(k + 1, k + 5)),
                        };
                        assert(entry@ =~= sv);
                        match parse_syn_records(data@.subrange(i + 5, n as int)) {
                            None => {},
                            Some(s) => {
                                assert(processed + (seq![sv] + s) =~= processed.push(sv) + s);
                            },
                        }
                        processed = processed.push(entry@);
                    }
                    entries.push(entry);
                    pos = i + 5;
                },
                None => {
                    proof {
                        assert(parse_syn_records(rest) is None);
                    }
                    return Err(StardictError::CorruptSynonym);
                },
            }
        }
    }

    /// Looks a spelling up: the ordinal of the last record holding it, or
    /// `None` when no record does.
    pub fn find(&self, word: &[u8]) -> (r: Option<u32>)
        ensures
            match r {
                Some(i) => find_syn_spec(self@, word@) == Some(i as nat),
                None => find_syn_spec(self@, word@) is None,
            },
    {
        let mut k: usize = self.entries.len();
        proof {
            assert(self@.take(k as int) =~= self@);
        }
        while k > 0
            invariant
                k <= self.entries@.len(),
                find_syn_spec(self@, word@) == find_syn_spec(self@.take(k as int), word@),
            decreases k,
        {
            let entry = &self.entries[k - 1];
            proof {
                assert(self@.take(k as int).last() == self@[k - 1]);
                assert(self@.take(k as int).drop_last() =~= self@.take(k - 1));
            }
            if bytes_eq(entry.word.as_slice(), word) {
                return Some(entry.index);
            }
            k = k - 1;
        }
        None
    }

    /// Law: a found spelling is carried by some record with exactly the
    /// ordinal returned.
    pub proof fn lemma_find_syn_means_present(entries: Seq<SynonymEntryV>, word: Seq<u8>)
        requires
            find_syn_spec(entries, word) is Some,
        ensures
            exists|t: int|
                0 <= t < entries.len() && entries[t].word == word && Some(entries[t].index)
                    == find_syn_spec(entries, word),
        decreases entries.len(),
    {
        if entries.len() > 0 {
            if entries.last().word == word {
                assert(entries[entries.len() - 1].word == word);
            } else {
                Self::lemma_find_syn_means_present(entries.drop_last(), word);
                let t = choose|t: int|
                    0 <= t < entries.drop_last().len() && entries.drop_last()[t].word == word
                        && Some(entries.drop_last()[t].index) == find_syn_spec(
                        entries.drop_last(),
                        word,
                    );
                assert(entries[t] == entries.drop_last()[t]);
            }
        }
    }
}

} // verus!
