//! The index (`.idx`) store.
//!
//! The index file is a sequence of records `word NUL offset length`: the
//! word's UTF-8 bytes terminated by a NUL byte, then a big-endian offset of 4
//! or 8 bytes (per the descriptor's offset width) and a big-endian length of
//! 4 bytes, both coordinates into the payload file. A single leading NUL byte
//! at position zero is skipped, which defends against one known
//! non-conformant off-by-one producer.
//!
//! The store parses the whole buffer eagerly into a vector of records in file
//! order and probes it per lookup, scanning from the end so that the last
//! occurrence of a repeated word wins; the raw buffer is not retained.

use crate::bytes::{be_read, be_value, bytes_eq, find_byte, lemma_be_value_bound, pow256, scan_byte};
use crate::errors::{StardictError, StardictErrorV};
use crate::ifo::{SDifo, SDifoV};
use vstd::prelude::*;
use vstd::slice::{slice_subrange, slice_to_vec};

verus! {

/// One record of the index: a word and the byte range of its entry in the
/// payload file.
#[derive(Debug, Clone, PartialEq, Eq)]
pub struct IndexEntry {
    pub word: Vec<u8>,
    pub offset: u64,
    pub size: u32,
}

/// The mathematical image of an [`IndexEntry`].
#[verifier::ext_equal]
pub ghost struct IndexEntryV {
    pub word: Seq<u8>,
    pub offset: nat,
    pub size: nat,
}

impl View for IndexEntry {
    type V = IndexEntryV;

    open spec fn view(&self) -> IndexEntryV {
        IndexEntryV { word: self.word@, offset: self.offset as nat, size: self.size as nat }
    }
}

/// The byte width of one record's coordinate pair for a given offset width
/// in bits.
pub open spec fn coord_width(offbits: nat) -> nat {
    offbits / 8 + 4
}

/// The index buffer with the single defended-against leading NUL removed.
pub open spec fn index_body(b: Seq<u8>) -> Seq<u8> {
    if b.len() > 0 && b[0] == 0 {
        b.drop_first()
    } else {
        b
    }
}

/// The records of an index buffer: each is the bytes up to the first NUL,
/// then `w` bytes of coordinates. `None` when the buffer does not segment
/// into complete records.
pub open spec fn parse_records(b: Seq<u8>, w: nat) -> Option<Seq<IndexEntryV>>
    decreases b.len(),
{
    if b.len() == 0 {
        Some(Seq::empty())
    } else {
        let i = find_byte(b, 0);
        if i is Some && 0 <= i->0 && i->0 + 1 + w <= b.len() {
            let entry = IndexEntryV {
                word: b.take(i->0),
                offset: be_value(b.subrange(i->0 + 1, i->0 + 1 + (w - 4))),
                size: be_value(b.subrange(i->0 + 1 + (w - 4), i->0 + 1 + w)),
            };
            match parse_records(b.subrange(i->0 + 1 + w, b.len() as int), w) {
                None => None,
                Some(rest) => Some(seq![entry] + rest),
            }
        } else {
            None
        }
    }
}

/// How many complete records stand at the front of an index buffer.
pub open spec fn count_records(b: Seq<u8>, w: nat) -> nat
    decreases b.len(),
{
    if b.len() == 0 {
        0
    } else {
        let i = find_byte(b, 0);
        if i is Some && 0 <= i->0 && i->0 + 1 + w <= b.len() {
            1 + count_records(b.subrange(i->0 + 1 + w, b.len() as int), w)
        } else {
            0
        }
    }
}

/// What parsing the index bytes `b` against the descriptor `ifo` yields:
/// the records in file order, or the first cross-validation failure. The
/// buffer's size must equal the declared index file size, and the records
/// must segment the whole buffer and number exactly the declared word count.
pub open spec fn idx_spec(b: Seq<u8>, ifo: SDifoV) -> Result<Seq<IndexEntryV>, StardictErrorV> {
    if b.len() != ifo.idxfilesize {
        Err(StardictErrorV::SizeMismatch { expected: ifo.idxfilesize, actual: b.len() })
    } else {
        let body = index_body(b);
        let w = coord_width(ifo.idxoffsetbits);
        match parse_records(body, w) {
            Some(entries) => if entries.len() == ifo.wordcount {
                Ok(entries)
            } else {
                Err(
                    StardictErrorV::CountMismatch {
                        expected: ifo.wordcount,
                        actual: entries.len(),
                    },
                )
            },
            None => Err(
                StardictErrorV::CountMismatch {
                    expected: ifo.wordcount,
                    actual: count_records(body, w),
                },
            ),
        }
    }
}

/// The coordinates the store hands out for a word: those of the last record
/// holding it, if any.
pub open spec fn find_spec(entries: Seq<IndexEntryV>, word: Seq<u8>) -> Option<(nat, nat)>
    decreases entries.len(),
{
    if entries.len() == 0 {
        None
    } else if entries.last().word == word {
        Some((entries.last().offset, entries.last().size))
    } else {
        find_spec(entries.drop_last(), word)
    }
}

/// Concatenation of already-parsed records with the outcome on the rest of
/// the buffer.
spec fn opt_concat(pre: Seq<IndexEntryV>, rest: Option<Seq<IndexEntryV>>) -> Option<
    Seq<IndexEntryV>,
> {
    match rest {
        None => None,
        Some(s) => Some(pre + s),
    }
}

/// The index store: all records of the index file, in file order.
#[derive(Debug, Clone, PartialEq, Eq)]
pub struct SDidx {
    pub entries: Vec<IndexEntry>,
}

impl View for SDidx {
    type V = Seq<IndexEntryV>;

    open spec fn view(&self) -> Seq<IndexEntryV> {
        self.entries@.map_values(|e: IndexEntry| e@)
    }
}

impl SDidx {
    /// Parses the bytes of an index file against a validated descriptor,
    /// exactly as [`idx_spec`] describes: `SizeMismatch` when the buffer's
    /// size is not the declared one, `CountMismatch` when it does not
    /// segment into exactly the declared number of records.
    pub fn new(data: &[u8], ifo: &SDifo) -> (r: Result<SDidx, StardictError>)
        requires
            ifo.wf(),
        ensures
            r is Ok <==> idx_spec(data@, ifo@) is Ok,
            r matches Ok(idx) ==> idx_spec(data@, ifo@) matches Ok(m) && idx@ == m,
            r matches Err(e) ==> idx_spec(data@, ifo@) matches Err(m) && e@ == m,
    {
        let n: usize = data.len();
        if n != ifo.idxfilesize {
            return Err(StardictError::SizeMismatch { expected: ifo.idxfilesize, actual: n });
        }
        let w: usize = ifo.idxoffsetbits / 8 + 4;
        let offw: usize = w - 4;
        let start: usize = if n > 0 && data[0] == 0 {
            1
        } else {
            0
        };
        let ghost body = index_body(data@);
        proof {
            assert(body =~= data@.subrange(start as int, n as int));
        }
        let mut entries: Vec<IndexEntry> = Vec::new();
        let ghost mut processed: Seq<IndexEntryV> = Seq::empty();
        let mut pos: usize = start;
        proof {
            assert(parse_records(body, w as nat) == opt_concat(
                processed,
                parse_records(data@.subrange(pos as int, n as int), w as nat),
            ));
        }
        loop
            invariant
                start <= pos <= n,
                n == data@.len(),
                n == ifo@.idxfilesize,
                ifo.wf(),
                w == coord_width(ifo@.idxoffsetbits),
                4 <= offw <= 8,
                offw == w - 4,
                body == index_body(data@),
                body == data@.subrange(start as int, n as int),
                processed.len() == entries@.len(),
                forall|t: int| 0 <= t < processed.len() ==> entries@[t]@ == processed[t],
                parse_records(body, w as nat) == opt_concat(
                    processed,
                    parse_records(data@.subrange(pos as int, n as int), w as nat),
                ),
                count_records(body, w as nat) == processed.len() + count_records(
                    data@.subrange(pos as int, n as int),
                    w as nat,
                ),
            decreases n - pos,
        {
            let ghost rest = data@.subrange(pos as int, n as int);
            match scan_byte(data, pos, 0) {
                Some(i) => {
                    if w > n - (i + 1) {
                        proof {
                            assert(parse_records(rest, w as nat) is None);
                            assert(count_records(rest, w as nat) == 0);
                        }
                        return Err(
                            StardictError::CountMismatch {
                                expected: ifo.wordcount,
                                actual: entries.len(),
                            },
                        );
                    }
                    let word = slice_to_vec(slice_subrange(data, pos, i));
                    let offset = be_read(data, i + 1, offw);
                    let size_raw = be_read(data, i + 1 + offw, 4);
                    proof {
                        lemma_be_value_bound(data@.subrange(i + 1 + offw, i + 1 + offw + 4));
                        assert(pow256(4) == 0x1_0000_0000) by {
                            reveal_with_fuel(pow256, 5);
                        }
                    }
                    let size = size_raw as u32;
                    let entry = IndexEntry { word, offset, size };
                    let ghost k = i - pos;
                    proof {
                        assert(find_byte(rest, 0) == Some(k));
                        assert(entry@.word =~= rest.take(k));
                        assert(rest.subrange(k + 1, k + 1 + (w - 4)) =~= data@.subrange(
                            i + 1,
                            i + 1 + offw,
                        ));
                        assert(rest.subrange(k + 1 + (w - 4), k + 1 + w) =~= data@.subrange(
                            i + 1 + offw,
                            i + 1 + offw + 4,
                        ));
                        assert(rest.subrange(k + 1 + w, rest.len() as int) =~= data@.subrange(
                            i + 1 + w,
                            n as int,
                        ));
                        let sv = IndexEntryV {
                            word: rest.take(k),
                            offset: be_value(rest.subrange(k + 1, k + 1 + (w - 4))),
                            size: be_value(rest.subrange(k + 1 + (w - 4), k + 1 + w)),
                        };
                        assert(entry@ =~= sv);
                        match parse_records(data@.subrange(i + 1 + w, n as int), w as nat) {
                            None => {},
                            Some(s) => {
                                assert(processed + (seq![sv] + s) =~= processed.push(sv) + s);
                            },
                        }
                        processed = processed.push(entry@);
                    }
                    entries.push(entry);
                    pos = i + 1 + w;
                },
                None => {
                    if pos == n {
                        proof {
                            assert(rest.len() == 0);
                            assert(parse_records(rest, w as nat) == Some(Seq::<IndexEntryV>::empty()));
                            assert(processed + Seq::<IndexEntryV>::empty() =~= processed);
                            assert(parse_records(body, w as nat) == Some(processed));
                        }
                        if entries.len() == ifo.wordcount {
                            let idx = SDidx { entries };
                            proof {
                                assert(idx@ =~= processed);
                            }
                            return Ok(idx);
                        } else {
                            return Err(
                                StardictError::CountMismatch {
                                    expected: ifo.wordcount,
                                    actual: entries.len(),
                                },
                            );
                        }
                    } else {
                        proof {
                            assert(parse_records(rest, w as nat) is None);
                            assert(count_records(rest, w as nat) == 0);
                        }
                        return Err(
                            StardictError::CountMismatch {
                                expected: ifo.wordcount,
                                actual: entries.len(),
                            },
                        );
                    }
                },
            }
        }
    }

    /// Looks a word up: the coordinates of the last record holding it, or
    /// `None` when no record does.
    pub fn find(&self, word: &[u8]) -> (r: Option<(u64, u32)>)
        ensures
            match r {
                Some(c) => find_spec(self@, word@) == Some((c.0 as nat, c.1 as nat)),
                None => find_spec(self@, word@) is None,
            },
    {
        let mut k: usize = self.entries.len();
        proof {
            assert(self@.take(k as int) =~= self@);
        }
        while k > 0
            invariant
                k <= self.entries@.len(),
                find_spec(self@, word@) == find_spec(self@.take(k as int), word@),
            decreases k,
        {
            let entry = &self.entries[k - 1];
            proof {
                assert(self@.take(k as int).last() == self@[k - 1]);
                assert(self@.take(k as int).drop_last() =~= self@.take(k - 1));
            }
            if bytes_eq(entry.word.as_slice(), word) {
                return Some((entry.offset, entry.size));
            }
            k = k - 1;
        }
        None
    }
}

/// Law: in a store whose records carry pairwise distinct words — what the
/// format's sortedness contract guarantees of a well-formed index file —
/// every record's word is found with exactly the offset and length recorded
/// for it.
pub proof fn lemma_find_exact(entries: Seq<IndexEntryV>, i: int)
    requires
        0 <= i < entries.len(),
        forall|p: int, q: int|
            0 <= p < q < entries.len() ==> entries[p].word != entries[q].word,
    ensures
        find_spec(entries, entries[i].word) == Some((entries[i].offset, entries[i].size)),
    decreases entries.len(),
{
    if i == entries.len() - 1 {
    } else {
        assert(entries.last().word != entries[i].word);
        assert(entries.drop_last()[i] == entries[i]);
        lemma_find_exact(entries.drop_last(), i);
    }
}

/// Law: a word no record carries is not found.
pub proof fn lemma_find_absent(entries: Seq<IndexEntryV>, word: Seq<u8>)
    requires
        forall|p: int| 0 <= p < entries.len() ==> entries[p].word != word,
    ensures
        find_spec(entries, word) is None,
    decreases entries.len(),
{
    if entries.len() > 0 {
        lemma_find_absent(entries.drop_last(), word);
    }
}

/// Big-endian encoding of `v` in `w` bytes.
pub open spec fn be_bytes(v: nat, w: nat) -> Seq<u8>
    decreases w,
{
    if w == 0 {
        Seq::empty()
    } else {
        be_bytes(v / 256, (w - 1) as nat).push((v % 256) as u8)
    }
}

/// The encoding is as wide as asked.
pub proof fn lemma_be_bytes_len(v: nat, w: nat)
    ensures
        be_bytes(v, w).len() == w,
    decreases w,
{
    if w > 0 {
        lemma_be_bytes_len(v / 256, (w - 1) as nat);
    }
}

/// Decoding a big-endian encoding gives back the encoded value.
pub proof fn lemma_be_round_trip(v: nat, w: nat)
    requires
        v < pow256(w),
    ensures
        be_value(be_bytes(v, w)) == v,
    decreases w,
{
    if w > 0 {
        assert(v / 256 < pow256((w - 1) as nat)) by (nonlinear_arith)
            requires
                v < pow256((w - 1) as nat) * 256,
        ;
        lemma_be_round_trip(v / 256, (w - 1) as nat);
        let b = be_bytes(v, w);
        assert(b.drop_last() =~= be_bytes(v / 256, (w - 1) as nat));
        assert(be_value(b) == (v / 256) * 256 + v % 256);
    }
}

/// Whether an entry can be written down at the given offset byte width: the
/// word is nonempty and NUL-free, and the coordinates fit their fields.
pub open spec fn valid_entry(e: IndexEntryV, offw: nat) -> bool {
    &&& e.word.len() > 0
    &&& forall|j: int| 0 <= j < e.word.len() ==> e.word[j] != 0
    &&& e.offset < pow256(offw)
    &&& e.size < pow256(4)
}

/// One record written down: the word, a NUL, then the two coordinates.
pub open spec fn encode_entry(e: IndexEntryV, offw: nat) -> Seq<u8> {
    e.word + seq![0u8] + be_bytes(e.offset, offw) + be_bytes(e.size, 4)
}

/// A whole index written down: the records in order.
pub open spec fn encode_index(entries: Seq<IndexEntryV>, offw: nat) -> Seq<u8>
    decreases entries.len(),
{
    if entries.len() == 0 {
        Seq::empty()
    } else {
        encode_entry(entries.first(), offw) + encode_index(entries.drop_first(), offw)
    }
}

/// Law: parsing a written-down index yields the records it was built from,
/// offsets and lengths bit-identical, at either offset width.
pub proof fn lemma_parse_encode_records(entries: Seq<IndexEntryV>, offw: nat)
    requires
        offw == 4 || offw == 8,
        forall|t: int| 0 <= t < entries.len() ==> valid_entry(#[trigger] entries[t], offw),
    ensures
        parse_records(encode_index(entries, offw), offw + 4) == Some(entries),
    decreases entries.len(),
{
    let w = offw + 4;
    let b = encode_index(entries, offw);
    if entries.len() == 0 {
        assert(Some(Seq::<IndexEntryV>::empty()) == Some(entries)) by {
            assert(entries =~= Seq::<IndexEntryV>::empty());
        }
    } else {
        let e = entries.first();
        assert(valid_entry(e, offw));
        let wl = e.word.len() as int;
        let rest = encode_index(entries.drop_first(), offw);
        assert(b == encode_entry(e, offw) + rest);
        lemma_be_bytes_len(e.offset, offw);
        lemma_be_bytes_len(e.size, 4);
        assert(encode_entry(e, offw).len() == wl + 1 + w);
        assert(b[wl] == 0);
        assert forall|j: int| 0 <= j < wl implies b[j] != 0 by {
            assert(b[j] == e.word[j]);
        }
        crate::bytes::lemma_find_byte_is(b, 0, wl);
        assert(b.take(wl) =~= e.word);
        assert(b.subrange(wl + 1, wl + 1 + (w - 4)) =~= be_bytes(e.offset, offw));
        assert(b.subrange(wl + 1 + (w - 4), wl + 1 + w) =~= be_bytes(e.size, 4));
        lemma_be_round_trip(e.offset, offw);
        lemma_be_round_trip(e.size, 4);
        assert(b.subrange(wl + 1 + w, b.len() as int) =~= rest);
        assert forall|t: int| 0 <= t < entries.drop_first().len() implies valid_entry(
            #[trigger] entries.drop_first()[t],
            offw,
        ) by {
            assert(entries.drop_first()[t] == entries[t + 1]);
        }
        lemma_parse_encode_records(entries.drop_first(), offw);
        let parsed = IndexEntryV {
            word: b.take(wl),
            offset: be_value(b.subrange(wl + 1, wl + 1 + (w - 4))),
            size: be_value(b.subrange(wl + 1 + (w - 4), wl + 1 + w)),
        };
        assert(parsed =~= e);
        assert(seq![e] + entries.drop_first() =~= entries);
    }
}

/// Law: a synthetic index written down at offset width 64 parses back, under
/// a descriptor declaring that width, the written size and the written
/// record count, to exactly the records it was built from.
pub proof fn lemma_index_round_trip(entries: Seq<IndexEntryV>, ifo: SDifoV)
    requires
        ifo.idxoffsetbits == 64,
        ifo.idxfilesize == encode_index(entries, 8).len(),
        ifo.wordcount == entries.len(),
        forall|t: int| 0 <= t < entries.len() ==> valid_entry(#[trigger] entries[t], 8),
    ensures
        idx_spec(encode_index(entries, 8), ifo) == Ok::<Seq<IndexEntryV>, StardictErrorV>(entries),
{
    let b = encode_index(entries, 8);
    if entries.len() > 0 {
        assert(valid_entry(entries.first(), 8));
        assert(b[0] == entries.first().word[0]);
        assert(b[0] != 0);
    }
    assert(index_body(b) == b);
    lemma_parse_encode_records(entries, 8);
    assert(coord_width(ifo.idxoffsetbits) == 12);
}

} // verus!
