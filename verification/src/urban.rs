//! The data model of parsed Urban Dictionary definitions and accessors over
//! it: the word defined, and the list of definitions each with its author.
//! Fetching and decoding the service's responses is the caller's business.

use vstd::pervasive::VecAdditionalExecFns;
use vstd::prelude::*;
use vstd::string::StrSliceExecFns;

verus! {

/// A parsed response: the word defined and its list of definitions.
#[derive(Debug, PartialEq, Eq)]
pub struct UrbanDictionary {
    pub word: String,
    pub definitions: Vec<UrbanDefinition>,
}

/// One definition: the word, the definition text, and who wrote it.
#[derive(Debug, PartialEq, Eq)]
pub struct UrbanDefinition {
    pub word: String,
    pub definition: String,
    pub author: String,
}

/// Whether a character survives definition clean-up: carriage returns, line
/// feeds and square brackets are dropped.
pub open spec fn urban_kept(c: char) -> bool {
    !(c == '\r' || c == '\n' || c == '[' || c == ']')
}

/// A definition text with its markup characters filtered out.
pub open spec fn urban_clean(s: Seq<char>) -> Seq<char> {
    s.filter(|c: char| urban_kept(c))
}

/// Relies on `String::push`: it appends exactly the given character.
#[verifier::external_body]
fn push_char(s: &mut String, c: char)
    ensures
        final(s)@ == old(s)@.push(c),
{
    s.push(c);
}

/// The position of the pair keyed by `a`, if any.
pub open spec fn author_index(m: Seq<(Seq<char>, Seq<char>)>, a: Seq<char>) -> Option<int>
    decreases m.len(),
{
    if m.len() == 0 {
        None
    } else if m.last().0 == a {
        Some(m.len() - 1)
    } else {
        author_index(m.drop_last(), a)
    }
}

/// One author's definition entered into the map: an author already present
/// has the definition replaced in place, a new author goes to the end.
pub open spec fn defs_insert(
    m: Seq<(Seq<char>, Seq<char>)>,
    a: Seq<char>,
    d: Seq<char>,
) -> Seq<(Seq<char>, Seq<char>)> {
    match author_index(m, a) {
        Some(i) => m.update(i, (a, d)),
        None => m.push((a, d)),
    }
}

/// The author-to-definition map a definition list builds: definitions are
/// entered in order, each cleaned of markup, and for a repeated author the
/// last definition wins.
pub open spec fn defs_map(s: Seq<UrbanDefinition>) -> Seq<(Seq<char>, Seq<char>)>
    decreases s.len(),
{
    if s.len() == 0 {
        Seq::empty()
    } else {
        defs_insert(defs_map(s.drop_last()), s.last().author@, urban_clean(s.last().definition@))
    }
}

/// Whether the exec pairs carry exactly the mathematical map.
pub open spec fn pairs_match(rv: Seq<(String, String)>, m: Seq<(Seq<char>, Seq<char>)>) -> bool {
    &&& rv.len() == m.len()
    &&& forall|t: int|
        0 <= t < rv.len() ==> (#[trigger] rv[t]).0@ == m[t].0 && rv[t].1@ == m[t].1
}

impl UrbanDictionary {
    /// The main word defined.
    pub fn get_word(&self) -> (r: String)
        ensures
            r@ == self.word@,
    {
        self.word.clone()
    }

    /// The definitions keyed by their authors: each author with the cleaned
    /// text of the last definition they wrote, in order of first
    /// appearance.
    pub fn get_definitions(&self) -> (r: Vec<(String, String)>)
        ensures
            pairs_match(r@, defs_map(self.definitions@)),
    {
        let n: usize = self.definitions.len();
        let mut out: Vec<(String, String)> = Vec::new();
        let mut i: usize = 0;
        while i < n
            invariant
                i <= n,
                n == self.definitions@.len(),
                pairs_match(out@, defs_map(self.definitions@.take(i as int))),
            decreases n - i,
        {
            proof {
                assert(self.definitions@.take(i + 1).drop_last() =~= self.definitions@.take(
                    i as int,
                ));
                assert(self.definitions@.take(i + 1).last() == self.definitions@[i as int]);
            }
            let def = &self.definitions[i];
            let author = def.get_author();
            let cleaned = def.get_definition();
            let ghost model = defs_map(self.definitions@.take(i as int));
            let found = find_author(&out, &author);
            proof {
                lemma_author_index(model, author@);
            }
            match found {
                Some(k) => {
                    let ghost prev = out@;
                    proof {
                        assert(Seq::new(prev.len(), |t: int| (prev[t].0@, prev[t].1@)) =~= model);
                    }
                    out.set(k, (author, cleaned));
                    proof {
                        assert(pairs_match(out@, model.update(k as int, (author@, cleaned@))));
                    }
                },
                None => {
                    let ghost prev = out@;
                    proof {
                        assert(Seq::new(prev.len(), |t: int| (prev[t].0@, prev[t].1@)) =~= model);
                    }
                    out.push((author, cleaned));
                    proof {
                        assert(pairs_match(out@, model.push((author@, cleaned@))));
                    }
                },
            }
            i = i + 1;
        }
        proof {
            assert(self.definitions@.take(n as int) =~= self.definitions@);
        }
        out
    }
}

/// What `author_index` returns: the last position keyed by `a`.
proof fn lemma_author_index(m: Seq<(Seq<char>, Seq<char>)>, a: Seq<char>)
    ensures
        match author_index(m, a) {
            Some(i) => 0 <= i < m.len() && m[i].0 == a && (forall|j: int|
                i < j < m.len() ==> (#[trigger] m[j]).0 != a),
            None => forall|j: int| 0 <= j < m.len() ==> (#[trigger] m[j]).0 != a,
        },
    decreases m.len(),
{
    if m.len() > 0 && m.last().0 != a {
        lemma_author_index(m.drop_last(), a);
        assert forall|j: int| 0 <= j < m.len() - 1 implies m.drop_last()[j] == m[j] by {}
    }
}

/// The position among the collected pairs keyed by `author`, if any.
fn find_author(out: &Vec<(String, String)>, author: &String) -> (r: Option<usize>)
    ensures
        ({
            let m = Seq::new(out@.len(), |t: int| (out@[t].0@, out@[t].1@));
            match r {
                Some(k) => k < out@.len() && author_index(m, author@) == Some(k as int),
                None => author_index(m, author@) is None,
            }
        }),
{
    let ghost m = Seq::new(out@.len(), |t: int| (out@[t].0@, out@[t].1@));
    let mut k: usize = out.len();
    proof {
        assert(m.take(k as int) =~= m);
    }
    while k > 0
        invariant
            k <= out@.len(),
            m == Seq::new(out@.len(), |t: int| (out@[t].0@, out@[t].1@)),
            author_index(m, author@) == author_index(m.take(k as int), author@),
        decreases k,
    {
        proof {
            assert(m.take(k as int).last() == m[k - 1]);
            assert(m.take(k as int).drop_last() =~= m.take(k - 1));
        }
        if out[k - 1].0.eq(author) {
            return Some(k - 1);
        }
        k = k - 1;
    }
    None
}

impl UrbanDefinition {
    /// The word this definition defines.
    pub fn get_word(&self) -> (r: String)
        ensures
            r@ == self.word@,
    {
        self.word.clone()
    }

    /// The definition text, cleaned of carriage returns, line feeds and
    /// square brackets.
    pub fn get_definition(&self) -> (r: String)
        ensures
            r@ == urban_clean(self.definition@),
    {
        let text = self.definition.as_str();
        let n: usize = text.unicode_len();
        let mut out = String::new();
        let mut i: usize = 0;
        proof {
            assert(urban_clean(self.definition@.take(0)) =~= Seq::<char>::empty()) by {
                reveal(Seq::filter);
                assert(self.definition@.take(0).len() == 0);
            }
        }
        while i < n
            invariant
                i <= n,
                n == self.definition@.len(),
                text@ == self.definition@,
                out@ == urban_clean(self.definition@.take(i as int)),
            decreases n - i,
        {
            let c = text.get_char(i);
            proof {
                assert(self.definition@.take(i + 1) =~= self.definition@.take(i as int).push(c));
                self.definition@.take(i as int).lemma_filter_push(c, |k: char| urban_kept(k));
            }
            if !(c == '\r' || c == '\n' || c == '[' || c == ']') {
                push_char(&mut out, c);
            }
            i = i + 1;
        }
        proof {
            assert(self.definition@.take(n as int) =~= self.definition@);
        }
        out
    }

    /// Who wrote this definition.
    pub fn get_author(&self) -> (r: String)
        ensures
            r@ == self.author@,
    {
        self.author.clone()
    }
}

} // verus!
