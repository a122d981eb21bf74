use rustdict::urban::{UrbanDefinition, UrbanDictionary};

fn fake_data() -> Vec<UrbanDefinition> {
    vec![
        UrbanDefinition {
            definition: "Fake definition.".to_string(),
            author: "fake1".to_string(),
            word: "faux".to_string(),
        },
        UrbanDefinition {
            definition: "Fake definition #2.".to_string(),
            author: "fake2".to_string(),
            word: "faux".to_string(),
        },
    ]
}

fn mock_define_urban(definitions: Vec<UrbanDefinition>) -> UrbanDictionary {
    let mut parsed_data = UrbanDictionary {
        word: String::new(),
        definitions,
    };
    parsed_data.word = parsed_data.definitions[0].get_word();
    parsed_data
}

fn definition_of<'a>(map: &'a [(String, String)], author: &str) -> &'a str {
    &map.iter()
        .find(|(a, _)| a == author)
        .expect("author should be present")
        .1
}

#[test]
fn get_word_should_work() {
    let data = mock_define_urban(fake_data());
    assert_eq!("faux".to_string(), data.get_word());
}

#[test]
fn get_definition_by_author() {
    let data = mock_define_urban(fake_data());
    let map = data.get_definitions();
    assert_eq!("Fake definition.", definition_of(&map, "fake1"));
    assert_eq!("Fake definition #2.", definition_of(&map, "fake2"));
}

#[test]
fn correct_definition_count() {
    let mut counter = 0u8;
    let data = mock_define_urban(fake_data());
    for _ in data.get_definitions().iter() {
        counter += 1;
    }
    assert_eq!(2, counter);
}

#[test]
fn definitions_are_cleaned_of_markup() {
    let data = mock_define_urban(vec![UrbanDefinition {
        definition: "See [faux].\r\nNot real.".to_string(),
        author: "fake1".to_string(),
        word: "faux".to_string(),
    }]);
    assert_eq!("See faux.Not real.", definition_of(&data.get_definitions(), "fake1"));
}

#[test]
fn repeated_author_keeps_last_definition() {
    let data = mock_define_urban(vec![
        UrbanDefinition {
            definition: "First try.".to_string(),
            author: "fake1".to_string(),
            word: "faux".to_string(),
        },
        UrbanDefinition {
            definition: "Second try.".to_string(),
            author: "fake1".to_string(),
            word: "faux".to_string(),
        },
    ]);
    let map = data.get_definitions();
    assert_eq!(1, map.len());
    assert_eq!("Second try.", definition_of(&map, "fake1"));
}
