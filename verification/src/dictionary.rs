//! The data model of parsed dictionary-API definitions: a word with its
//! phonetic spellings and meanings, and accessors over it. Fetching and
//! decoding the API's responses is the caller's business; this module holds
//! the plain values and the logic that reads them.

use vstd::prelude::*;

verus! {

/// A parsed definition record: the word defined, its phonetic metadata,
/// its meanings, and source links for further reading.
#[derive(Debug, PartialEq, Eq)]
pub struct Word {
    pub word: String,
    pub phonetics: Vec<Phonetics>,
    pub meanings: Vec<Meaning>,
    pub read_more: Vec<String>,
}

/// The phonetic spelling of a word, when the source supplies one.
#[derive(Debug, PartialEq, Eq)]
pub struct Phonetics {
    pub text: Option<String>,
}

/// One meaning of a word: its part of speech, its definitions, and its
/// synonyms and antonyms.
#[derive(Debug, PartialEq, Eq)]
pub struct Meaning {
    pub part_of_speech: String,
    pub definitions: Vec<DefinitionString>,
    pub synonyms: Vec<String>,
    pub antonyms: Vec<String>,
}

/// The text of one definition.
#[derive(Debug, PartialEq, Eq)]
pub struct DefinitionString {
    pub definition_str: String,
}

/// Which related words an accessor serves.
#[derive(Debug, Clone, Copy, PartialEq, Eq, Structural)]
pub enum Semantic {
    Synonym,
    Antonym,
}

/// The phonetic spellings present in `s`, in order.
pub open spec fn phonetic_texts(s: Seq<Phonetics>) -> Seq<Seq<char>>
    decreases s.len(),
{
    if s.len() == 0 {
        Seq::empty()
    } else {
        let rest = phonetic_texts(s.drop_last());
        match s.last().text {
            None => rest,
            Some(t) => rest.push(t@),
        }
    }
}

/// The definition texts of `s`, in order.
pub open spec fn definition_texts(s: Seq<DefinitionString>) -> Seq<Seq<char>>
    decreases s.len(),
{
    if s.len() == 0 {
        Seq::empty()
    } else {
        definition_texts(s.drop_last()).push(s.last().definition_str@)
    }
}

/// All synonyms or antonyms of the meanings in `s`, flattened in order.
pub open spec fn semantics_of(s: Seq<Meaning>, sem: Semantic) -> Seq<Seq<char>>
    decreases s.len(),
{
    if s.len() == 0 {
        Seq::empty()
    } else {
        semantics_of(s.drop_last(), sem) + (match sem {
            Semantic::Synonym => s.last().synonyms.deep_view(),
            Semantic::Antonym => s.last().antonyms.deep_view(),
        })
    }
}

/// Copies the strings of `src` into a new vector.
fn clone_strings(src: &Vec<String>) -> (r: Vec<String>)
    ensures
        r.deep_view() == src.deep_view(),
{
    let n: usize = src.len();
    let mut out: Vec<String> = Vec::new();
    let mut i: usize = 0;
    while i < n
        invariant
            i <= n,
            n == src@.len(),
            out.deep_view() == src.deep_view().take(i as int),
        decreases n - i,
    {
        let ghost prev = out.deep_view();
        out.push(src[i].clone());
        proof {
            assert forall|t: int| 0 <= t < prev.len() + 1 implies out.deep_view()[t]
                == src.deep_view().take(i + 1)[t] by {
                if t < prev.len() {
                    assert(out.deep_view()[t] == out@[t].deep_view());
                    assert(out@[t] == out@.drop_last()[t]);
                } else {
                    assert(out.deep_view()[t] == out@[t].deep_view());
                }
            }
            assert(out.deep_view() =~= src.deep_view().take(i + 1));
        }
        i = i + 1;
    }
    proof {
        assert(src.deep_view().take(n as int) =~= src.deep_view());
    }
    out
}

impl Word {
    /// The word defined.
    pub fn get_word(&self) -> (r: String)
        ensures
            r@ == self.word@,
    {
        self.word.clone()
    }

    /// The phonetic spellings present, in order.
    pub fn get_phonetics(&self) -> (r: Vec<String>)
        ensures
            r.deep_view() == phonetic_texts(self.phonetics@),
    {
        let n: usize = self.phonetics.len();
        let mut out: Vec<String> = Vec::new();
        let mut i: usize = 0;
        while i < n
            invariant
                i <= n,
                n == self.phonetics@.len(),
                out.deep_view() == phonetic_texts(self.phonetics@.take(i as int)),
            decreases n - i,
        {
            proof {
                assert(self.phonetics@.take(i + 1).drop_last() =~= self.phonetics@.take(i as int));
                assert(self.phonetics@.take(i + 1).last() == self.phonetics@[i as int]);
            }
            match &self.phonetics[i].text {
                None => {},
                Some(t) => {
                    out.push(t.clone());
                    proof {
                        assert(out.deep_view() =~= phonetic_texts(
                            self.phonetics@.take(i as int),
                        ).push(t@));
                    }
                },
            }
            i = i + 1;
        }
        proof {
            assert(self.phonetics@.take(n as int) =~= self.phonetics@);
        }
        out
    }

    /// All synonyms or antonyms of this word's meanings, flattened in
    /// order.
    pub fn get_semantics(&self, semantic: Semantic) -> (r: Vec<String>)
        ensures
            r.deep_view() == semantics_of(self.meanings@, semantic),
    {
        let n: usize = self.meanings.len();
        let mut out: Vec<String> = Vec::new();
        let mut i: usize = 0;
        while i < n
            invariant
                i <= n,
                n == self.meanings@.len(),
                out.deep_view() == semantics_of(self.meanings@.take(i as int), semantic),
            decreases n - i,
        {
            proof {
                assert(self.meanings@.take(i + 1).drop_last() =~= self.meanings@.take(i as int));
                assert(self.meanings@.take(i + 1).last() == self.meanings@[i as int]);
            }
            let meaning = &self.meanings[i];
            let list: &Vec<String> = match semantic {
                Semantic::Synonym => &meaning.synonyms,
                Semantic::Antonym => &meaning.antonyms,
            };
            let mut chunk = clone_strings(list);
            let ghost prevv = out@;
            let ghost prevd = out.deep_view();
            let ghost chunkv = chunk@;
            let ghost chunkd = chunk.deep_view();
            out.append(&mut chunk);
            proof {
                assert forall|t: int| 0 <= t < out@.len() implies out.deep_view()[t] == (prevd
                    + chunkd)[t] by {
                    assert(out.deep_view()[t] == out@[t].deep_view());
                    if t < prevv.len() {
                        assert(out@[t] == prevv[t]);
                        assert(prevd[t] == prevv[t].deep_view());
                    } else {
                        assert(out@[t] == chunkv[t - prevv.len()]);
                        assert(chunkd[t - prevv.len()] == chunkv[t - prevv.len()].deep_view());
                    }
                }
                assert(out.deep_view() =~= prevd + chunkd);
                assert(out.deep_view() =~= semantics_of(self.meanings@.take(i + 1), semantic));
            }
            i = i + 1;
        }
        proof {
            assert(self.meanings@.take(n as int) =~= self.meanings@);
        }
        out
    }

    /// The source links for further reading.
    pub fn get_read_more(&self) -> (r: Vec<String>)
        ensures
            r.deep_view() == self.read_more.deep_view(),
    {
        clone_strings(&self.read_more)
    }
}

impl Meaning {
    /// The definition texts of this meaning, in order.
    pub fn get_meanings(&self) -> (r: Vec<String>)
        ensures
            r.deep_view() == definition_texts(self.definitions@),
    {
        let n: usize = self.definitions.len();
        let mut out: Vec<String> = Vec::new();
        let mut i: usize = 0;
        while i < n
            invariant
                i <= n,
                n == self.definitions@.len(),
                out.deep_view() == definition_texts(self.definitions@.take(i as int)),
            decreases n - i,
        {
            proof {
                assert(self.definitions@.take(i + 1).drop_last() =~= self.definitions@.take(
                    i as int,
                ));
                assert(self.definitions@.take(i + 1).last() == self.definitions@[i as int]);
            }
            out.push(self.definitions[i].definition_str.clone());
            proof {
                assert(out.deep_view() =~= definition_texts(self.definitions@.take(i + 1)));
            }
            i = i + 1;
        }
        proof {
            assert(self.definitions@.take(n as int) =~= self.definitions@);
        }
        out
    }

    /// This meaning's synonyms.
    pub fn get_synonyms(&self) -> (r: Vec<String>)
        ensures
            r.deep_view() == self.synonyms.deep_view(),
    {
        clone_strings(&self.synonyms)
    }

    /// This meaning's antonyms.
    pub fn get_antonyms(&self) -> (r: Vec<String>)
        ensures
            r.deep_view() == self.antonyms.deep_view(),
    {
        clone_strings(&self.antonyms)
    }
}

} // verus!
