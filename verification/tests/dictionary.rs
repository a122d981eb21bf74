use rustdict::dictionary::{DefinitionString, Meaning, Phonetics, Semantic, Word};

fn strings(items: &[&str]) -> Vec<String> {
    items.iter().map(|s| s.to_string()).collect()
}

fn sample_word() -> Word {
    Word {
        word: "faux".to_string(),
        phonetics: vec![Phonetics {
            text: Some("/fo:/".to_string()),
        }],
        meanings: vec![Meaning {
            part_of_speech: "adjective".to_string(),
            definitions: vec![DefinitionString {
                definition_str: "Fake.".to_string(),
            }],
            synonyms: strings(&["fake", "fraudulent"]),
            antonyms: strings(&["authentic", "real"]),
        }],
        read_more: strings(&["https://example.com"]),
    }
}

#[test]
fn parsed_data_should_be_accurate() {
    let data = sample_word();

    assert_eq!("faux".to_string(), data.get_word());
    assert_eq!(vec!["/fo:/".to_string()], data.get_phonetics());
    assert_eq!(
        vec!["fake".to_string(), "fraudulent".to_string()],
        data.get_semantics(Semantic::Synonym)
    );
    assert_eq!(
        vec!["authentic".to_string(), "real".to_string()],
        data.get_semantics(Semantic::Antonym)
    );
    assert_eq!(
        vec!["https://example.com".to_string()],
        data.get_read_more()
    );
}

#[test]
fn get_meaning_should_work() {
    let data = Meaning {
        part_of_speech: "verb".to_string(),
        definitions: vec![DefinitionString {
            definition_str: "lmao.".to_string(),
        }],
        synonyms: strings(&["a"]),
        antonyms: strings(&["b"]),
    };

    assert_eq!(vec!["lmao.".to_string()], data.get_meanings());
}

#[test]
fn phonetics_without_text_are_skipped() {
    let data = Word {
        word: "quiet".to_string(),
        phonetics: vec![
            Phonetics { text: None },
            Phonetics {
                text: Some("/kwaIet/".to_string()),
            },
            Phonetics { text: None },
        ],
        meanings: vec![],
        read_more: vec![],
    };
    assert_eq!(vec!["/kwaIet/".to_string()], data.get_phonetics());
}

#[test]
fn semantics_flatten_across_meanings() {
    let data = Word {
        word: "big".to_string(),
        phonetics: vec![],
        meanings: vec![
            Meaning {
                part_of_speech: "adjective".to_string(),
                definitions: vec![],
                synonyms: strings(&["large", "huge"]),
                antonyms: strings(&["small"]),
            },
            Meaning {
                part_of_speech: "noun".to_string(),
                definitions: vec![],
                synonyms: strings(&["great"]),
                antonyms: strings(&["little", "tiny"]),
            },
        ],
        read_more: vec![],
    };
    assert_eq!(
        strings(&["large", "huge", "great"]),
        data.get_semantics(Semantic::Synonym)
    );
    assert_eq!(
        strings(&["small", "little", "tiny"]),
        data.get_semantics(Semantic::Antonym)
    );
}

#[test]
fn meaning_synonym_and_antonym_accessors() {
    let data = Meaning {
        part_of_speech: "verb".to_string(),
        definitions: vec![],
        synonyms: strings(&["sprint"]),
        antonyms: strings(&["halt"]),
    };
    assert_eq!(strings(&["sprint"]), data.get_synonyms());
    assert_eq!(strings(&["halt"]), data.get_antonyms());
}
