//! The descriptor (`.ifo`) reader.
//!
//! The descriptor is a text file: a header line that is ignored, then
//! `key=value` lines. The value of a line is the piece between the first and
//! the second `=`, and both key and value have trailing whitespace trimmed.
//! When a key repeats, the last occurrence wins. Unknown keys are ignored.

use crate::bytes::{
    bytes_eq, dec_digits_part, dec_value, find_byte, is_dec_string, parse_usize, scan_byte,
    trim_end, trim_end_spec,
};
use crate::errors::{Field, StardictError, StardictErrorV};
use vstd::slice::{slice_subrange, slice_to_vec};
use vstd::prelude::*;
use vstd::string::StringSliceAdditionalSpecFns;

verus! {

/// The lines of `b`, split at each line feed.
pub open spec fn split_lines(b: Seq<u8>) -> Seq<Seq<u8>>
    decreases b.len(),
{
    let i = find_byte(b, 0x0a);
    if i is Some && 0 <= i->0 < b.len() {
        seq![b.take(i->0)] + split_lines(b.subrange(i->0 + 1, b.len() as int))
    } else {
        seq![b]
    }
}

/// Whether a line holds an `=` and so names a key.
pub open spec fn is_kv_line(line: Seq<u8>) -> bool {
    find_byte(line, 0x3d) is Some
}

/// The key of a `key=value` line: everything before the first `=`, with
/// trailing whitespace trimmed.
pub open spec fn line_key(line: Seq<u8>) -> Seq<u8> {
    trim_end_spec(line.take(find_byte(line, 0x3d)->0))
}

/// The value of a `key=value` line: the piece between the first and the
/// second `=` (or the end of the line), with trailing whitespace trimmed.
pub open spec fn line_value(line: Seq<u8>) -> Seq<u8> {
    let rest = line.subrange(find_byte(line, 0x3d)->0 + 1, line.len() as int);
    match find_byte(rest, 0x3d) {
        None => trim_end_spec(rest),
        Some(j) => trim_end_spec(rest.take(j)),
    }
}

/// The value of the last line naming `key`, the header line at position zero
/// never considered.
pub open spec fn config_lookup(lines: Seq<Seq<u8>>, key: Seq<u8>) -> Option<Seq<u8>>
    decreases lines.len(),
{
    if lines.len() <= 1 {
        None
    } else if is_kv_line(lines.last()) && line_key(lines.last()) == key {
        Some(line_value(lines.last()))
    } else {
        config_lookup(lines.drop_last(), key)
    }
}

/// The value the descriptor `b` gives for `key`, if any.
pub open spec fn cfg(b: Seq<u8>, key: Seq<u8>) -> Option<Seq<u8>> {
    config_lookup(split_lines(b), key)
}

pub open spec fn key_version() -> Seq<u8> {
    "version".spec_bytes()
}

pub open spec fn key_bookname() -> Seq<u8> {
    "bookname".spec_bytes()
}

pub open spec fn key_wordcount() -> Seq<u8> {
    "wordcount".spec_bytes()
}

pub open spec fn key_idxfilesize() -> Seq<u8> {
    "idxfilesize".spec_bytes()
}

pub open spec fn key_sametypesequence() -> Seq<u8> {
    "sametypesequence".spec_bytes()
}

pub open spec fn key_idxoffsetbits() -> Seq<u8> {
    "idxoffsetbits".spec_bytes()
}

pub open spec fn key_synwordcount() -> Seq<u8> {
    "synwordcount".spec_bytes()
}

pub open spec fn key_author() -> Seq<u8> {
    "author".spec_bytes()
}

pub open spec fn key_email() -> Seq<u8> {
    "email".spec_bytes()
}

pub open spec fn key_website() -> Seq<u8> {
    "website".spec_bytes()
}

pub open spec fn key_description() -> Seq<u8> {
    "description".spec_bytes()
}

pub open spec fn key_date() -> Seq<u8> {
    "date".spec_bytes()
}

/// The descriptor version that makes `synwordcount` required.
pub open spec fn version_with_syn() -> Seq<u8> {
    "3.0.0".spec_bytes()
}

/// The descriptor record: dictionary-wide properties declared by the `.ifo`
/// file. Textual fields are kept as the raw bytes the file holds.
#[derive(Debug, Clone, PartialEq, Eq)]
pub struct SDifo {
    pub version: Vec<u8>,
    pub bookname: Vec<u8>,
    pub wordcount: usize,
    pub idxfilesize: usize,
    /// Width in bits of an index offset: 32 or 64.
    pub idxoffsetbits: usize,
    /// The first byte of the declared same-type-sequence tag; parsed but not
    /// further interpreted here.
    pub sametypesequence: u8,
    pub synwordcount: Option<usize>,
    pub author: Vec<u8>,
    pub email: Vec<u8>,
    pub website: Vec<u8>,
    pub desc: Vec<u8>,
    pub date: Vec<u8>,
}

/// The mathematical image of an [`SDifo`].
#[verifier::ext_equal]
pub ghost struct SDifoV {
    pub version: Seq<u8>,
    pub bookname: Seq<u8>,
    pub wordcount: nat,
    pub idxfilesize: nat,
    pub idxoffsetbits: nat,
    pub sametypesequence: u8,
    pub synwordcount: Option<nat>,
    pub author: Seq<u8>,
    pub email: Seq<u8>,
    pub website: Seq<u8>,
    pub desc: Seq<u8>,
    pub date: Seq<u8>,
}

impl View for SDifo {
    type V = SDifoV;

    open spec fn view(&self) -> SDifoV {
        SDifoV {
            version: self.version@,
            bookname: self.bookname@,
            wordcount: self.wordcount as nat,
            idxfilesize: self.idxfilesize as nat,
            idxoffsetbits: self.idxoffsetbits as nat,
            sametypesequence: self.sametypesequence,
            synwordcount: match self.synwordcount {
                None => None,
                Some(n) => Some(n as nat),
            },
            author: self.author@,
            email: self.email@,
            website: self.website@,
            desc: self.desc@,
            date: self.date@,
        }
    }
}

impl SDifo {
    /// The descriptor's invariant: the declared offset width is 32 or 64.
    pub open spec fn wf(self) -> bool {
        self.idxoffsetbits == 32 || self.idxoffsetbits == 64
    }
}

/// A required textual field: present, or `MissingField`.
pub open spec fn req_field(b: Seq<u8>, key: Seq<u8>, f: Field) -> Result<Seq<u8>, StardictErrorV> {
    match cfg(b, key) {
        None => Err(StardictErrorV::MissingField(f)),
        Some(v) => Ok(v),
    }
}

/// Whether a field value is a decimal number that fits in `usize`.
pub open spec fn int_value_ok(v: Seq<u8>) -> bool {
    is_dec_string(v) && dec_value(dec_digits_part(v)) <= usize::MAX
}

/// The number a field value writes.
pub open spec fn int_value(v: Seq<u8>) -> nat {
    dec_value(dec_digits_part(v))
}

/// A required integer field: present and well-formed, or `MissingField` /
/// `MalformedInteger`.
pub open spec fn req_int(b: Seq<u8>, key: Seq<u8>, f: Field) -> Result<nat, StardictErrorV> {
    match cfg(b, key) {
        None => Err(StardictErrorV::MissingField(f)),
        Some(v) => if int_value_ok(v) {
            Ok(int_value(v))
        } else {
            Err(StardictErrorV::MalformedInteger(f, v))
        },
    }
}

/// The declared offset width: absent defaults to 32; a value other than a
/// well-formed 32 or 64 is malformed.
pub open spec fn offbits_spec(b: Seq<u8>) -> Result<nat, StardictErrorV> {
    match cfg(b, key_idxoffsetbits()) {
        None => Ok(32 as nat),
        Some(v) => if int_value_ok(v) && (int_value(v) == 32 || int_value(v) == 64) {
            Ok(int_value(v))
        } else {
            Err(StardictErrorV::MalformedInteger(Field::Idxoffsetbits, v))
        },
    }
}

/// The declared synonym word count: required exactly when the version is the
/// one with synonym support.
pub open spec fn synwordcount_spec(b: Seq<u8>, version: Seq<u8>) -> Result<
    Option<nat>,
    StardictErrorV,
> {
    if version == version_with_syn() {
        match req_int(b, key_synwordcount(), Field::Synwordcount) {
            Err(e) => Err(e),
            Ok(n) => Ok(Some(n)),
        }
    } else {
        Ok(None)
    }
}

/// An optional textual field, defaulting to empty.
pub open spec fn opt_field(b: Seq<u8>, key: Seq<u8>) -> Seq<u8> {
    match cfg(b, key) {
        None => Seq::empty(),
        Some(v) => v,
    }
}

/// What parsing the descriptor bytes `b` yields: the record, or the first
/// validation failure in field order.
pub open spec fn ifo_spec(b: Seq<u8>) -> Result<SDifoV, StardictErrorV> {
    match req_field(b, key_version(), Field::Version) {
        Err(e) => Err(e),
        Ok(version) => match req_field(b, key_bookname(), Field::Bookname) {
            Err(e) => Err(e),
            Ok(bookname) => match req_int(b, key_wordcount(), Field::Wordcount) {
                Err(e) => Err(e),
                Ok(wordcount) => match req_int(b, key_idxfilesize(), Field::Idxfilesize) {
                    Err(e) => Err(e),
                    Ok(idxfilesize) => match req_field(
                        b,
                        key_sametypesequence(),
                        Field::Sametypesequence,
                    ) {
                        Err(e) => Err(e),
                        Ok(sts) => if sts.len() == 0 {
                            Err(StardictErrorV::MissingField(Field::Sametypesequence))
                        } else {
                            match offbits_spec(b) {
                                Err(e) => Err(e),
                                Ok(offbits) => match synwordcount_spec(b, version) {
                                    Err(e) => Err(e),
                                    Ok(swc) => Ok(
                                        SDifoV {
                                            version: version,
                                            bookname: bookname,
                                            wordcount: wordcount,
                                            idxfilesize: idxfilesize,
                                            idxoffsetbits: offbits,
                                            sametypesequence: sts[0],
                                            synwordcount: swc,
                                            author: opt_field(b, key_author()),
                                            email: opt_field(b, key_email()),
                                            website: opt_field(b, key_website()),
                                            desc: opt_field(b, key_description()),
                                            date: opt_field(b, key_date()),
                                        },
                                    ),
                                },
                            }
                        },
                    },
                },
            },
        },
    }
}

/// Splits `data` into its lines, as [`split_lines`] describes.
fn collect_lines<'a>(data: &'a [u8]) -> (lines: Vec<&'a [u8]>)
    ensures
        lines@.len() == split_lines(data@).len(),
        forall|t: int| 0 <= t < lines@.len() ==> lines@[t]@ == split_lines(data@)[t],
{
    let ghost all = split_lines(data@);
    let n: usize = data.len();
    let mut lines: Vec<&[u8]> = Vec::new();
    let ghost mut processed: Seq<Seq<u8>> = Seq::empty();
    let mut pos: usize = 0;
    proof {
        assert(data@.subrange(0, n as int) =~= data@);
        assert(all =~= processed + split_lines(data@.subrange(0, n as int)));
    }
    loop
        invariant
            pos <= n,
            n == data@.len(),
            all == split_lines(data@),
            processed.len() == lines@.len(),
            forall|t: int| 0 <= t < processed.len() ==> processed[t] == lines@[t]@,
            all == processed + split_lines(data@.subrange(pos as int, n as int)),
        decreases n - pos,
    {
        let ghost rest = data@.subrange(pos as int, n as int);
        match scan_byte(data, pos, 0x0a) {
            Some(i) => {
                let line = slice_subrange(data, pos, i);
                proof {
                    assert(line@ =~= rest.take(i - pos));
                    assert(rest.subrange(i - pos + 1, rest.len() as int) =~= data@.subrange(
                        i + 1,
                        n as int,
                    ));
                    assert(split_lines(rest) == seq![line@] + split_lines(
                        data@.subrange(i + 1, n as int),
                    ));
                    processed = processed.push(line@);
                    assert(all =~= processed + split_lines(data@.subrange(i + 1, n as int)));
                }
                lines.push(line);
                pos = i + 1;
            },
            None => {
                let line = slice_subrange(data, pos, n);
                proof {
                    assert(line@ =~= rest);
                    assert(split_lines(rest) == seq![rest]);
                    processed = processed.push(line@);
                    assert(all =~= processed);
                }
                lines.push(line);
                return lines;
            },
        }
    }
}

/// The raw field values found while scanning the descriptor's lines.
struct Slots<'a> {
    version: Option<&'a [u8]>,
    bookname: Option<&'a [u8]>,
    wordcount: Option<&'a [u8]>,
    idxfilesize: Option<&'a [u8]>,
    sametypesequence: Option<&'a [u8]>,
    idxoffsetbits: Option<&'a [u8]>,
    synwordcount: Option<&'a [u8]>,
    author: Option<&'a [u8]>,
    email: Option<&'a [u8]>,
    website: Option<&'a [u8]>,
    desc: Option<&'a [u8]>,
    date: Option<&'a [u8]>,
}

/// Whether a scanned slot holds exactly what a config lookup finds.
spec fn slot_matches(s: Option<&[u8]>, m: Option<Seq<u8>>) -> bool {
    match s {
        None => m is None,
        Some(v) => m == Some(v@),
    }
}

/// Extracts the key and value of one `key=value` line, if it is one.
fn split_kv<'a>(line: &'a [u8]) -> (r: Option<(&'a [u8], &'a [u8])>)
    ensures
        r is Some <==> is_kv_line(line@),
        r matches Some(kv) ==> kv.0@ == line_key(line@) && kv.1@ == line_value(line@),
{
    proof {
        assert(line@.subrange(0, line@.len() as int) =~= line@);
    }
    match scan_byte(line, 0, 0x3d) {
        None => None,
        Some(e) => {
            let n: usize = line.len();
            let key = trim_end(slice_subrange(line, 0, e));
            let rest = slice_subrange(line, e + 1, n);
            proof {
                assert(line@.subrange(0, e as int) =~= line@.take(e as int));
                assert(rest@.subrange(0, rest@.len() as int) =~= rest@);
            }
            let piece = match scan_byte(rest, 0, 0x3d) {
                None => rest,
                Some(j) => {
                    proof {
                        assert(rest@.subrange(0, j as int) =~= rest@.take(j as int));
                    }
                    slice_subrange(rest, 0, j)
                },
            };
            let value = trim_end(piece);
            Some((key, value))
        },
    }
}

/// Scans the descriptor's lines for the known keys; for each, the last
/// occurrence wins, and the header line at position zero is skipped.
#[verifier::rlimit(60)]
fn scan_config<'a>(lines: &Vec<&'a [u8]>) -> (r: Slots<'a>)
    requires
        lines@.len() >= 1,
    ensures
        ({
            let all = lines@.map_values(|l: &[u8]| l@);
            &&& slot_matches(r.version, config_lookup(all, key_version()))
            &&& slot_matches(r.bookname, config_lookup(all, key_bookname()))
            &&& slot_matches(r.wordcount, config_lookup(all, key_wordcount()))
            &&& slot_matches(r.idxfilesize, config_lookup(all, key_idxfilesize()))
            &&& slot_matches(r.sametypesequence, config_lookup(all, key_sametypesequence()))
            &&& slot_matches(r.idxoffsetbits, config_lookup(all, key_idxoffsetbits()))
            &&& slot_matches(r.synwordcount, config_lookup(all, key_synwordcount()))
            &&& slot_matches(r.author, config_lookup(all, key_author()))
            &&& slot_matches(r.email, config_lookup(all, key_email()))
            &&& slot_matches(r.website, config_lookup(all, key_website()))
            &&& slot_matches(r.desc, config_lookup(all, key_description()))
            &&& slot_matches(r.date, config_lookup(all, key_date()))
        }),
{
    let ghost all = lines@.map_values(|l: &[u8]| l@);
    let mut slots = Slots {
        version: None,
        bookname: None,
        wordcount: None,
        idxfilesize: None,
        sametypesequence: None,
        idxoffsetbits: None,
        synwordcount: None,
        author: None,
        email: None,
        website: None,
        desc: None,
        date: None,
    };
    let n: usize = lines.len();
    let mut j: usize = 1;
    while j < n
        invariant
            1 <= j <= n,
            n == lines@.len(),
            all == lines@.map_values(|l: &[u8]| l@),
            slot_matches(slots.version, config_lookup(all.take(j as int), key_version())),
            slot_matches(slots.bookname, config_lookup(all.take(j as int), key_bookname())),
            slot_matches(slots.wordcount, config_lookup(all.take(j as int), key_wordcount())),
            slot_matches(slots.idxfilesize, config_lookup(all.take(j as int), key_idxfilesize())),
            slot_matches(
                slots.sametypesequence,
                config_lookup(all.take(j as int), key_sametypesequence()),
            ),
            slot_matches(
                slots.idxoffsetbits,
                config_lookup(all.take(j as int), key_idxoffsetbits()),
            ),
            slot_matches(slots.synwordcount, config_lookup(all.take(j as int), key_synwordcount())),
            slot_matches(slots.author, config_lookup(all.take(j as int), key_author())),
            slot_matches(slots.email, config_lookup(all.take(j as int), key_email())),
            slot_matches(slots.website, config_lookup(all.take(j as int), key_website())),
            slot_matches(slots.desc, config_lookup(all.take(j as int), key_description())),
            slot_matches(slots.date, config_lookup(all.take(j as int), key_date())),
        decreases n - j,
    {
        let line = lines[j];
        proof {
            assert(all.take(j + 1).drop_last() =~= all.take(j as int));
            assert(all.take(j + 1).last() == line@);
        }
        match split_kv(line) {
            None => {},
            Some((key, value)) => {
                if bytes_eq(key, "version".as_bytes()) {
                    slots.version = Some(value);
                }
                if bytes_eq(key, "bookname".as_bytes()) {
                    slots.bookname = Some(value);
                }
                if bytes_eq(key, "wordcount".as_bytes()) {
                    slots.wordcount = Some(value);
                }
                if bytes_eq(key, "idxfilesize".as_bytes()) {
                    slots.idxfilesize = Some(value);
                }
                if bytes_eq(key, "sametypesequence".as_bytes()) {
                    slots.sametypesequence = Some(value);
                }
                if bytes_eq(key, "idxoffsetbits".as_bytes()) {
                    slots.idxoffsetbits = Some(value);
                }
                if bytes_eq(key, "synwordcount".as_bytes()) {
                    slots.synwordcount = Some(value);
                }
                if bytes_eq(key, "author".as_bytes()) {
                    slots.author = Some(value);
                }
                if bytes_eq(key, "email".as_bytes()) {
                    slots.email = Some(value);
                }
                if bytes_eq(key, "website".as_bytes()) {
                    slots.website = Some(value);
                }
                if bytes_eq(key, "description".as_bytes()) {
                    slots.desc = Some(value);
                }
                if bytes_eq(key, "date".as_bytes()) {
                    slots.date = Some(value);
                }
            },
        }
        j = j + 1;
    }
    proof {
        assert(all.take(n as int) =~= all);
    }
    slots
}

impl SDifo {
    /// Parses the bytes of a descriptor file into the descriptor record,
    /// exactly as [`ifo_spec`] describes.
    pub fn new(data: &[u8]) -> (r: Result<SDifo, StardictError>)
        ensures
            r is Ok <==> ifo_spec(data@) is Ok,
            r matches Ok(ifo) ==> ifo_spec(data@) matches Ok(m) && ifo@ == m && ifo.wf(),
            r matches Err(e) ==> ifo_spec(data@) matches Err(m) && e@ == m,
    {
        let lines = collect_lines(data);
        proof {
            assert(lines@.map_values(|l: &[u8]| l@) =~= split_lines(data@));
        }
        let slots = scan_config(&lines);
        let version: &[u8] = match slots.version {
            None => {
                return Err(StardictError::MissingField(Field::Version));
            },
            Some(v) => v,
        };
        let bookname: &[u8] = match slots.bookname {
            None => {
                return Err(StardictError::MissingField(Field::Bookname));
            },
            Some(v) => v,
        };
        let wordcount: usize = match slots.wordcount {
            None => {
                return Err(StardictError::MissingField(Field::Wordcount));
            },
            Some(v) => match parse_usize(v) {
                None => {
                    return Err(StardictError::MalformedInteger(Field::Wordcount, slice_to_vec(v)));
                },
                Some(c) => c,
            },
        };
        let idxfilesize: usize = match slots.idxfilesize {
            None => {
                return Err(StardictError::MissingField(Field::Idxfilesize));
            },
            Some(v) => match parse_usize(v) {
                None => {
                    return Err(
                        StardictError::MalformedInteger(Field::Idxfilesize, slice_to_vec(v)),
                    );
                },
                Some(c) => c,
            },
        };
        let sametypesequence: u8 = match slots.sametypesequence {
            None => {
                return Err(StardictError::MissingField(Field::Sametypesequence));
            },
            Some(v) => {
                if v.len() == 0 {
                    return Err(StardictError::MissingField(Field::Sametypesequence));
                }
                v[0]
            },
        };
        let idxoffsetbits: usize = match slots.idxoffsetbits {
            None => 32,
            Some(v) => match parse_usize(v) {
                None => {
                    return Err(
                        StardictError::MalformedInteger(Field::Idxoffsetbits, slice_to_vec(v)),
                    );
                },
                Some(c) => {
                    if c == 32 || c == 64 {
                        c
                    } else {
                        return Err(
                            StardictError::MalformedInteger(Field::Idxoffsetbits, slice_to_vec(v)),
                        );
                    }
                },
            },
        };
        let synwordcount: Option<usize> = if bytes_eq(version, "3.0.0".as_bytes()) {
            match slots.synwordcount {
                None => {
                    return Err(StardictError::MissingField(Field::Synwordcount));
                },
                Some(v) => match parse_usize(v) {
                    None => {
                        return Err(
                            StardictError::MalformedInteger(Field::Synwordcount, slice_to_vec(v)),
                        );
                    },
                    Some(c) => Some(c),
                },
            }
        } else {
            None
        };
        let author: Vec<u8> = match slots.author {
            None => Vec::new(),
            Some(v) => slice_to_vec(v),
        };
        let email: Vec<u8> = match slots.email {
            None => Vec::new(),
            Some(v) => slice_to_vec(v),
        };
        let website: Vec<u8> = match slots.website {
            None => Vec::new(),
            Some(v) => slice_to_vec(v),
        };
        let desc: Vec<u8> = match slots.desc {
            None => Vec::new(),
            Some(v) => slice_to_vec(v),
        };
        let date: Vec<u8> = match slots.date {
            None => Vec::new(),
            Some(v) => slice_to_vec(v),
        };
        let ifo = SDifo {
            version: slice_to_vec(version),
            bookname: slice_to_vec(bookname),
            wordcount,
            idxfilesize,
            idxoffsetbits,
            sametypesequence,
            synwordcount,
            author,
            email,
            website,
            desc,
            date,
        };
        proof {
            assert(ifo_spec(data@) matches Ok(m) && ifo@ =~= m);
        }
        Ok(ifo)
    }
}

} // verus!
