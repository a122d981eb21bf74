use rustdict::errors::{Field, StardictError};
use rustdict::idx::SDidx;
use rustdict::ifo::SDifo;
use rustdict::stardict::Stardict;
use rustdict::syn::SDSyn;

fn build_engine(
    ifo: &[u8],
    idx: &[u8],
    dict: &[u8],
    syn: Option<&[u8]>,
    cap: Option<usize>,
) -> Result<Stardict, StardictError> {
    Stardict::new(Some(ifo), Some(idx), Some(dict), syn, cap)
}

fn ifo_bytes(header_fields: &str) -> Vec<u8> {
    let mut text = String::from("StarDict's dict ifo file\n");
    text.push_str(header_fields);
    text.into_bytes()
}

fn basic_ifo(wordcount: usize, idxfilesize: usize, offbits: usize) -> Vec<u8> {
    ifo_bytes(&format!(
        "version=2.4.2\nbookname=Test\nwordcount={wordcount}\nidxfilesize={idxfilesize}\nidxoffsetbits={offbits}\nsametypesequence=m\n"
    ))
}

/// One index record at 32-bit offset width.
fn record32(word: &str, offset: u32, len: u32) -> Vec<u8> {
    let mut out = Vec::new();
    out.extend_from_slice(word.as_bytes());
    out.push(0);
    out.extend_from_slice(&offset.to_be_bytes());
    out.extend_from_slice(&len.to_be_bytes());
    out
}

/// One index record at 64-bit offset width.
fn record64(word: &str, offset: u64, len: u32) -> Vec<u8> {
    let mut out = Vec::new();
    out.extend_from_slice(word.as_bytes());
    out.push(0);
    out.extend_from_slice(&offset.to_be_bytes());
    out.extend_from_slice(&len.to_be_bytes());
    out
}

fn syn_record(word: &str, index: u32) -> Vec<u8> {
    let mut out = Vec::new();
    out.extend_from_slice(word.as_bytes());
    out.push(0);
    out.extend_from_slice(&index.to_be_bytes());
    out
}

#[test]
fn ifo_parser_test() {
    let data = ifo_bytes(
        "version=2.4.2\nbookname=English Etymology\nwordcount=18380\nidxfilesize=303020\nsametypesequence=m\n",
    );
    let ifo = SDifo::new(&data).expect("File should parse properly");
    assert_eq!(b"2.4.2".to_vec(), ifo.version);
    assert_eq!(18380, ifo.wordcount);
    assert_eq!(303020, ifo.idxfilesize);
    assert_eq!(b"English Etymology".to_vec(), ifo.bookname);
    assert_eq!(b'm', ifo.sametypesequence);
}

#[test]
fn ifo_offset_width_defaults_to_32() {
    let data = ifo_bytes(
        "version=2.4.2\nbookname=Test\nwordcount=1\nidxfilesize=12\nsametypesequence=m\n",
    );
    let ifo = SDifo::new(&data).unwrap();
    assert_eq!(32, ifo.idxoffsetbits);
}

#[test]
fn ifo_missing_bookname() {
    let data = ifo_bytes("version=2.4.2\nwordcount=1\nidxfilesize=12\nsametypesequence=m\n");
    assert_eq!(
        Err(StardictError::MissingField(Field::Bookname)),
        SDifo::new(&data)
    );
}

#[test]
fn ifo_malformed_wordcount() {
    let data = ifo_bytes(
        "version=2.4.2\nbookname=Test\nwordcount=abc\nidxfilesize=12\nsametypesequence=m\n",
    );
    assert_eq!(
        Err(StardictError::MalformedInteger(
            Field::Wordcount,
            b"abc".to_vec()
        )),
        SDifo::new(&data)
    );
}

#[test]
fn ifo_rejects_odd_offset_width() {
    let data = ifo_bytes(
        "version=2.4.2\nbookname=Test\nwordcount=1\nidxfilesize=12\nidxoffsetbits=16\nsametypesequence=m\n",
    );
    assert_eq!(
        Err(StardictError::MalformedInteger(
            Field::Idxoffsetbits,
            b"16".to_vec()
        )),
        SDifo::new(&data)
    );
}

#[test]
fn ifo_synwordcount_required_at_3_0_0() {
    let data = ifo_bytes(
        "version=3.0.0\nbookname=Test\nwordcount=1\nidxfilesize=12\nsametypesequence=m\n",
    );
    assert_eq!(
        Err(StardictError::MissingField(Field::Synwordcount)),
        SDifo::new(&data)
    );
    let data = ifo_bytes(
        "version=3.0.0\nbookname=Test\nwordcount=1\nidxfilesize=12\nsametypesequence=m\nsynwordcount=7\n",
    );
    assert_eq!(Some(7), SDifo::new(&data).unwrap().synwordcount);
}

#[test]
fn ifo_last_occurrence_of_a_key_wins() {
    let data = ifo_bytes(
        "version=2.4.2\nbookname=First\nbookname=Second\nwordcount=1\nidxfilesize=12\nsametypesequence=m\n",
    );
    assert_eq!(b"Second".to_vec(), SDifo::new(&data).unwrap().bookname);
}

#[test]
fn ifo_value_stops_at_second_equals_and_is_trimmed() {
    let data = ifo_bytes(
        "version=2.4.2\nbookname=Test =ignored\nwordcount=1\nidxfilesize=12\nsametypesequence=m\n",
    );
    assert_eq!(b"Test".to_vec(), SDifo::new(&data).unwrap().bookname);
}

/// The count of parsed records equals the declared word count, and `find`
/// returns exactly the coordinates recorded for each word.
#[test]
fn find_returns_exact_coordinates() {
    let mut idx_data = Vec::new();
    idx_data.extend_from_slice(&record32("ant", 0, 5));
    idx_data.extend_from_slice(&record32("bee", 5, 7));
    idx_data.extend_from_slice(&record32("cow", 12, 11));
    let ifo = SDifo::new(&basic_ifo(3, idx_data.len(), 32)).unwrap();
    let idx = SDidx::new(&idx_data, &ifo).unwrap();
    assert_eq!(3, idx.entries.len());
    assert_eq!(Some((0, 5)), idx.find(b"ant"));
    assert_eq!(Some((5, 7)), idx.find(b"bee"));
    assert_eq!(Some((12, 11)), idx.find(b"cow"));
    assert_eq!(None, idx.find(b"dog"));
}

#[test]
fn duplicate_word_last_record_wins() {
    let mut idx_data = Vec::new();
    idx_data.extend_from_slice(&record32("ant", 0, 5));
    idx_data.extend_from_slice(&record32("ant", 5, 7));
    let ifo = SDifo::new(&basic_ifo(2, idx_data.len(), 32)).unwrap();
    let idx = SDidx::new(&idx_data, &ifo).unwrap();
    assert_eq!(Some((5, 7)), idx.find(b"ant"));
}

#[test]
fn leading_nul_at_position_zero_is_skipped() {
    let mut idx_data = vec![0u8];
    idx_data.extend_from_slice(&record32("ant", 0, 5));
    let ifo = SDifo::new(&basic_ifo(1, idx_data.len(), 32)).unwrap();
    let idx = SDidx::new(&idx_data, &ifo).unwrap();
    assert_eq!(Some((0, 5)), idx.find(b"ant"));
}

/// A synthetic 64-bit-offset index parses back bit-identically.
#[test]
fn offset_width_64_round_trip() {
    let mut idx_data = Vec::new();
    idx_data.extend_from_slice(&record64("far", 0x1_0000_0001, 9));
    idx_data.extend_from_slice(&record64("near", 3, 0xFFFF_FFFF));
    let ifo = SDifo::new(&basic_ifo(2, idx_data.len(), 64)).unwrap();
    let idx = SDidx::new(&idx_data, &ifo).unwrap();
    assert_eq!(Some((0x1_0000_0001, 9)), idx.find(b"far"));
    assert_eq!(Some((3, 0xFFFF_FFFF)), idx.find(b"near"));
}

/// A declared index size off by one byte fails, never silently truncates.
#[test]
fn size_mismatch_by_one_byte() {
    let idx_data = record32("ant", 0, 5);
    let ifo = SDifo::new(&basic_ifo(1, idx_data.len() + 1, 32)).unwrap();
    assert_eq!(
        Err(StardictError::SizeMismatch {
            expected: idx_data.len() + 1,
            actual: idx_data.len()
        }),
        SDidx::new(&idx_data, &ifo)
    );
}

#[test]
fn count_mismatch_is_reported() {
    let idx_data = record32("ant", 0, 5);
    let ifo = SDifo::new(&basic_ifo(2, idx_data.len(), 32)).unwrap();
    assert_eq!(
        Err(StardictError::CountMismatch {
            expected: 2,
            actual: 1
        }),
        SDidx::new(&idx_data, &ifo)
    );
}

#[test]
fn truncated_record_is_a_count_mismatch() {
    let mut idx_data = record32("ant", 0, 5);
    idx_data.extend_from_slice(b"bee");
    let ifo = SDifo::new(&basic_ifo(1, idx_data.len(), 32)).unwrap();
    assert_eq!(
        Err(StardictError::CountMismatch {
            expected: 1,
            actual: 1
        }),
        SDidx::new(&idx_data, &ifo)
    );
}

#[test]
fn syn_parser_test() {
    let idx_data = record32("cat", 0, 4);
    let engine = build_engine(
        &basic_ifo(1, idx_data.len(), 32),
        &idx_data,
        b"ABCD",
        None,
        None,
    )
    .unwrap();
    assert!(engine.syn.is_none());
}

#[test]
fn corrupt_synonym_records() {
    let idx_data = record32("cat", 0, 4);
    let ifo = basic_ifo(1, idx_data.len(), 32);
    // A record without its NUL terminator.
    let outcome = build_engine(&ifo, &idx_data, b"ABCD", Some(b"feline"), None);
    assert!(matches!(outcome, Err(StardictError::CorruptSynonym)));
    // A truncated ordinal.
    assert!(matches!(
        SDSyn::new(b"feline\x00\x00\x01"),
        Err(StardictError::CorruptSynonym)
    ));
    // An ordinal past the index's entries.
    let outcome = build_engine(
        &ifo,
        &idx_data,
        b"ABCD",
        Some(&syn_record("feline", 1)),
        None,
    );
    assert!(matches!(outcome, Err(StardictError::CorruptSynonym)));
}

#[test]
fn missing_required_file_is_not_found() {
    let idx_data = record32("cat", 0, 4);
    let ifo = basic_ifo(1, idx_data.len(), 32);
    assert!(matches!(
        Stardict::new(None, Some(idx_data.as_slice()), Some(b"ABCD".as_slice()), None, None),
        Err(StardictError::NotFound)
    ));
    assert!(matches!(
        Stardict::new(Some(ifo.as_slice()), None, Some(b"ABCD".as_slice()), None, None),
        Err(StardictError::NotFound)
    ));
    assert!(matches!(
        Stardict::new(Some(ifo.as_slice()), Some(idx_data.as_slice()), None, None, None),
        Err(StardictError::NotFound)
    ));
}

/// The end-to-end scenario: one word "cat" at offset 0, length 4.
#[test]
fn lookup_cat_returns_payload() {
    let idx_data: Vec<u8> = b"cat\x00\x00\x00\x00\x00\x00\x00\x00\x04".to_vec();
    assert_eq!(12, idx_data.len());
    let mut engine = build_engine(&basic_ifo(1, 12, 32), &idx_data, b"ABCD", None, None).unwrap();
    assert_eq!(Ok(String::from("ABCD")), engine.lookup("cat"));
}

#[test]
fn lookup_missing_word_is_not_found_even_when_empty() {
    let mut engine = build_engine(&basic_ifo(0, 0, 32), b"", b"", None, None).unwrap();
    assert_eq!(Err(StardictError::NotFound), engine.lookup("cat"));

    let idx_data = record32("cat", 0, 4);
    let mut engine = build_engine(
        &basic_ifo(1, idx_data.len(), 32),
        &idx_data,
        b"ABCD",
        Some(&syn_record("feline", 0)),
        None,
    )
    .unwrap();
    assert_eq!(Err(StardictError::NotFound), engine.lookup("dog"));
}

/// The synonym scenario: "feline" resolves to the entry of "cat".
#[test]
fn synonym_resolves_to_canonical_entry() {
    let idx_data = record32("cat", 0, 4);
    let mut engine = build_engine(
        &basic_ifo(1, idx_data.len(), 32),
        &idx_data,
        b"ABCD",
        Some(&syn_record("feline", 0)),
        None,
    )
    .unwrap();
    let direct = engine.lookup("cat").unwrap();
    let via_synonym = engine.lookup("feline").unwrap();
    assert_eq!(direct, via_synonym);
    assert_eq!("ABCD", via_synonym);
}

/// The cache scenario: capacity 1, "cat" then "dog" then "cat" again; each
/// later lookup evicts the other word and re-reads the payload.
#[test]
fn cache_capacity_one_evicts_and_rereads() {
    let mut idx_data = Vec::new();
    idx_data.extend_from_slice(&record32("cat", 0, 4));
    idx_data.extend_from_slice(&record32("dog", 4, 3));
    let mut engine = build_engine(
        &basic_ifo(2, idx_data.len(), 32),
        &idx_data,
        b"ABCDEFG",
        None,
        Some(1),
    )
    .unwrap();
    assert_eq!(Ok(String::from("ABCD")), engine.lookup("cat"));
    assert!(engine.cached("cat"));
    assert_eq!(Ok(String::from("EFG")), engine.lookup("dog"));
    assert!(engine.cached("dog"));
    assert!(!engine.cached("cat"));
    assert_eq!(Ok(String::from("ABCD")), engine.lookup("cat"));
    assert!(engine.cached("cat"));
    assert!(!engine.cached("dog"));
}

#[test]
fn unbounded_cache_never_evicts() {
    let mut idx_data = Vec::new();
    idx_data.extend_from_slice(&record32("cat", 0, 4));
    idx_data.extend_from_slice(&record32("dog", 4, 3));
    let mut engine = build_engine(
        &basic_ifo(2, idx_data.len(), 32),
        &idx_data,
        b"ABCDEFG",
        None,
        None,
    )
    .unwrap();
    engine.lookup("cat").unwrap();
    engine.lookup("dog").unwrap();
    assert!(engine.cached("cat"));
    assert!(engine.cached("dog"));
}

#[test]
fn truncated_read_and_utf8_errors() {
    // "cat" points past the payload's end.
    let idx_data = record32("cat", 2, 4);
    let mut engine = build_engine(&basic_ifo(1, idx_data.len(), 32), &idx_data, b"ABCD", None, None)
        .unwrap();
    assert_eq!(Err(StardictError::TruncatedRead), engine.lookup("cat"));

    // "cat" points at bytes that are not UTF-8.
    let idx_data = record32("cat", 0, 2);
    let mut engine = build_engine(
        &basic_ifo(1, idx_data.len(), 32),
        &idx_data,
        &[0xFF, 0xFE],
        None,
        None,
    )
    .unwrap();
    assert_eq!(Err(StardictError::Utf8Decode), engine.lookup("cat"));
}

/// The decoded entry goes through a real UTF-8 decode: a multi-byte
/// character comes back as text whose byte length is the recorded length.
#[test]
fn decoded_entry_byte_length_matches() {
    let payload = "héllo".as_bytes();
    let idx_data = record32("word", 0, payload.len() as u32);
    let mut engine = build_engine(&basic_ifo(1, idx_data.len(), 32), &idx_data, payload, None, None)
        .unwrap();
    let text = engine.lookup("word").unwrap();
    assert_eq!("héllo", text);
    assert_eq!(payload.len(), text.len());
    assert_eq!(5, text.chars().count());
}
