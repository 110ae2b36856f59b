use soletra::language::{parse_saved, Language, UnknownLanguage};

#[test]
fn shortcodes_and_parsing() {
    assert_eq!(Language::Portuguese.shortcode(), "pt");
    assert_eq!(Language::English.shortcode(), "en");
    assert_eq!(Language::from_str("pt"), Ok(Language::Portuguese));
    assert_eq!(Language::from_str("en"), Ok(Language::English));
    assert_eq!(Language::from_str("fr"), Err(UnknownLanguage("fr".to_string())));
    assert_eq!(Language::from_str(" pt"), Err(UnknownLanguage(" pt".to_string())));
}

#[test]
fn shortcode_round_trip() {
    for l in [Language::Portuguese, Language::English] {
        assert_eq!(Language::from_str(l.shortcode()), Ok(l));
    }
}

#[test]
fn previous_and_next_cycle() {
    assert_eq!(Language::Portuguese.next(), Language::English);
    assert_eq!(Language::English.next(), Language::Portuguese);
    assert_eq!(Language::Portuguese.previous(), Language::English);
    for l in [Language::Portuguese, Language::English] {
        assert_eq!(l.next().previous(), l);
        assert_eq!(l.previous().next(), l);
    }
}

#[test]
fn texts_of_the_selection_screen() {
    assert_eq!(Language::Portuguese.instruction(), "(Enter para selecionar)");
    assert_eq!(Language::English.instruction(), "(Enter to select)");
    assert_eq!(Language::Portuguese.display_name(), "Português");
    assert_eq!(Language::English.display_name(), "English");
}

#[test]
fn default_language_is_portuguese() {
    assert_eq!(Language::default(), Language::Portuguese);
}

#[test]
fn saved_language_is_trimmed() {
    assert_eq!(parse_saved(" en\n"), Ok(Language::English));
    assert_eq!(parse_saved("pt"), Ok(Language::Portuguese));
    assert_eq!(parse_saved("fr \n"), Err(UnknownLanguage("fr".to_string())));
    assert_eq!(parse_saved(""), Err(UnknownLanguage(String::new())));
}
