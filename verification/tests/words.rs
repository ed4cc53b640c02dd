use std::collections::HashSet;

use typr::rng::Rng;
use typr::words::{generate, list_names, quote_words, vocabulary, Decoration};

const PUNCTUATED: Decoration = Decoration {
    punctuation: true,
    numbers: false,
};
const NUMBERED: Decoration = Decoration {
    punctuation: false,
    numbers: true,
};
const BOTH: Decoration = Decoration {
    punctuation: true,
    numbers: true,
};

fn rng() -> Rng {
    Rng::seeded(20260831)
}

fn starts_a_sentence(word: &str) -> bool {
    let mut characters = word.chars();

    let first = match characters.next() {
        Some(character) => character,
        None => return false,
    };

    if matches!(first, '(' | '"' | '\'' | '[') {
        characters.next().is_some_and(|next| next.is_uppercase())
    } else {
        first.is_uppercase()
    }
}

#[test]
fn produces_the_requested_number_of_words() {
    assert_eq!(
        generate("english", 25, Decoration::default(), &mut rng()).len(),
        25
    );
}

#[test]
fn never_repeats_a_word_back_to_back() {
    let words = generate("english", 500, Decoration::default(), &mut rng());

    assert!(words.windows(2).all(|pair| pair[0] != pair[1]));
}

#[test]
fn draws_only_from_the_requested_vocabulary() {
    let vocabulary: HashSet<&str> = vocabulary("english_extended")
        .unwrap()
        .iter()
        .copied()
        .collect();

    assert!(
        generate("english_extended", 100, Decoration::default(), &mut rng())
            .iter()
            .all(|word| vocabulary.contains(word.as_str()))
    );
}

#[test]
fn falls_back_to_the_default_vocabulary_for_an_unknown_list() {
    assert_eq!(
        generate("klingon", 10, Decoration::default(), &mut rng()).len(),
        10
    );
}

#[test]
fn capitalises_the_opening_word() {
    for seed in 0..20 {
        let words = generate("english", 10, PUNCTUATED, &mut Rng::seeded(seed));

        assert!(
            starts_a_sentence(&words[0]),
            "{:?} does not open a sentence",
            words[0]
        );
    }
}

#[test]
fn adds_marks_that_plain_generation_never_produces() {
    let marks = ['.', ',', ';', ':', '!', '?'];

    let plain = generate("english", 300, Decoration::default(), &mut rng()).join(" ");
    let punctuated = generate("english", 300, PUNCTUATED, &mut rng()).join(" ");

    assert!(!plain.contains(marks));
    assert!(punctuated.contains(marks));
}

#[test]
fn a_word_after_a_full_stop_starts_a_new_sentence() {
    let words = generate("english", 400, PUNCTUATED, &mut rng());

    for pair in words.windows(2) {
        let ends_sentence = pair[0].ends_with(['.', '!', '?']);

        if ends_sentence {
            assert!(
                starts_a_sentence(&pair[1]),
                "{:?} follows {:?} but is not capitalised",
                pair[1],
                pair[0]
            );
        }
    }
}

#[test]
fn mixes_digits_in_when_asked_and_never_otherwise() {
    let with = generate("english", 400, NUMBERED, &mut rng()).join("");
    let without = generate("english", 400, Decoration::default(), &mut rng()).join("");

    assert!(with.chars().any(|character| character.is_ascii_digit()));
    assert!(!without.chars().any(|character| character.is_ascii_digit()));
}

#[test]
fn quote_words_returns_a_sentence_as_separate_words() {
    let words = quote_words(&mut rng());

    assert!(words.len() > 5);
    assert!(words.iter().all(|word| !word.contains(' ')));
}

#[test]
fn every_listed_name_resolves() {
    assert!(list_names().iter().all(|name| vocabulary(name).is_some()));
}

#[test]
fn unknown_names_do_not() {
    assert!(vocabulary("nope").is_none());
}

#[test]
fn lists_hold_no_duplicates_or_stray_whitespace() {
    for name in list_names() {
        let vocabulary = vocabulary(name).unwrap();
        let unique: HashSet<&&str> = vocabulary.iter().collect();

        assert_eq!(unique.len(), vocabulary.len(), "{name} has duplicates");
        assert!(vocabulary.iter().all(|word| word.trim() == *word));
        assert!(vocabulary.iter().all(|word| !word.is_empty()));
    }
}

#[test]
fn the_same_seed_generates_the_same_test() {
    let first = generate("english", 50, BOTH, &mut Rng::seeded(99));
    let second = generate("english", 50, BOTH, &mut Rng::seeded(99));

    assert_eq!(first, second);
}

#[test]
fn the_list_names_are_the_two_vocabularies() {
    assert_eq!(list_names(), ["english", "english_extended"]);
}

#[test]
fn numbers_alone_leave_every_word_in_lower_case() {
    let words = generate("english", 200, NUMBERED, &mut rng());

    assert!(words
        .iter()
        .all(|word| !word.chars().any(|character| character.is_uppercase())));
}
