use soletra::normalize::{fold_lowercase, normalize_character, normalize_chars, NormalizedString};

#[test]
fn normalize_character_folds_accents_and_case() {
    assert_eq!(normalize_character('a'), Some('a'));
    assert_eq!(normalize_character('Á'), Some('a'));
    assert_eq!(normalize_character('ã'), Some('a'));
    assert_eq!(normalize_character('Ê'), Some('e'));
    assert_eq!(normalize_character('í'), Some('i'));
    assert_eq!(normalize_character('Õ'), Some('o'));
    assert_eq!(normalize_character('ü'), Some('u'));
    assert_eq!(normalize_character('ç'), Some('ç'));
    assert_eq!(normalize_character('Ç'), Some('ç'));
    assert_eq!(normalize_character('Z'), Some('z'));
}

#[test]
fn normalize_character_refuses_letters_outside_the_alphabet() {
    assert_eq!(normalize_character('k'), None);
    assert_eq!(normalize_character('W'), None);
    assert_eq!(normalize_character('y'), None);
    assert_eq!(normalize_character('è'), None);
    assert_eq!(normalize_character('1'), None);
    assert_eq!(normalize_character(' '), None);
    assert_eq!(normalize_character('-'), None);
}

#[test]
fn fold_lowercase_takes_lowercase_input() {
    assert_eq!(fold_lowercase('â'), Some('a'));
    assert_eq!(fold_lowercase('A'), None);
}

#[test]
fn normalize_chars_all_or_nothing() {
    assert_eq!(normalize_chars(&['C', 'a', 'f', 'é']), Some(vec!['c', 'a', 'f', 'e']));
    assert_eq!(normalize_chars(&['c', 'a', 'k', 'e']), None);
}

#[test]
fn normalized_string_trims_then_normalizes() {
    assert_eq!(NormalizedString::from_str("  Ação \n").map(|n| n.0), Ok("açao".to_string()));
    assert_eq!(NormalizedString::from_str("Pão de").map(|n| n.0), Err(()));
    assert_eq!(NormalizedString::from_str("kiwi").map(|n| n.0), Err(()));
    assert_eq!(NormalizedString::from_str("").map(|n| n.0), Ok(String::new()));
    let n = NormalizedString::from_str("ÓTIMO").unwrap();
    assert_eq!(n.as_ref(), "otimo");
}

#[test]
fn normalized_words_read_back_as_themselves() {
    for w in ["açucar", "bead", "xiz", "quente", ""] {
        assert_eq!(NormalizedString::from_str(w).map(|n| n.0), Ok(w.to_string()));
        let again = NormalizedString::from_str(w).unwrap();
        assert_eq!(NormalizedString::from_str(again.as_ref()), Ok(again.clone()));
    }
}

#[test]
fn ascii_letters_outside_the_alphabet_are_refused() {
    for c in ['k', 'w', 'y', 'K', 'W', 'Y'] {
        assert_eq!(normalize_character(c), None);
    }
}

#[test]
fn latin_capitals_fold_to_the_alphabet() {
    assert_eq!(NormalizedString::from_str(" FÁCE ").map(|n| n.0), Ok("face".to_string()));
    assert_eq!(NormalizedString::from_str("CORAÇÃO").map(|n| n.0), Ok("coraçao".to_string()));
    assert_eq!(normalize_character('Ü'), Some('u'));
    assert_eq!(normalize_character('È'), None);
}
