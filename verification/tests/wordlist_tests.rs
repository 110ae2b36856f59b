use soletra::wordlist::{select_english_words, select_portuguese_words, split_scored_lines, word_list, ScoreClass, EN_MIN_FREQUENCY};

fn strings(list: &[&str]) -> Vec<String> {
    list.iter().map(|w| w.to_string()).collect()
}

#[test]
fn word_list_trims_and_lowercases_lines() {
    assert_eq!(word_list("  Foo \n BAR\r\n\nbaz  "), strings(&["foo", "bar", "", "baz"]));
    assert_eq!(word_list(""), Vec::<String>::new());
    assert_eq!(word_list("ÁGUA"), strings(&["água"]));
}

#[test]
fn english_selection_stops_below_the_cutoff() {
    assert_eq!(EN_MIN_FREQUENCY, 70_000);
    let count_1w = "the\t23135851162\nof\t13151942776\nface\t80000\nkite\t75000\nbead\t70000\nxyz\nabc\tlots\ncafe\t69999\nfade\t90000\n";
    let enable_1 = "the\nface\nbead\nfade\nCAFE\n";
    assert_eq!(select_english_words(count_1w, enable_1), strings(&["the", "face", "bead"]));
}

#[test]
fn english_selection_keeps_the_spelling_of_the_frequency_list() {
    let count_1w = "Face\t100000\n  bead \t90000\n";
    let enable_1 = "face\nbead\n";
    // lines are not trimmed one by one: the word keeps its spaces, which
    // normalization then drops
    assert_eq!(select_english_words(count_1w, enable_1), strings(&["Face", "  bead "]));
}

#[test]
fn scored_lines_split_at_the_first_separator() {
    let pairs = split_scored_lines("casa,1.5\nsem virgula\nbola,20,3\n", ',');
    assert_eq!(
        pairs,
        vec![
            ("casa".to_string(), "1.5".to_string()),
            ("bola".to_string(), "20,3".to_string()),
        ]
    );
}

#[test]
fn portuguese_selection() {
    let word_list_text = "acucar\ncasa\nbolo\n";
    let verbs_text = "amar\n";
    let scored = vec![
        ("Açúcar".to_string(), ScoreClass::BelowCutoff),
        ("casa".to_string(), ScoreClass::BelowCutoff),
        ("amar".to_string(), ScoreClass::BelowCutoff),
        ("bola".to_string(), ScoreClass::BelowCutoff),
        ("bolo".to_string(), ScoreClass::Unparsable),
        ("kiwi".to_string(), ScoreClass::BelowCutoff),
        ("casa".to_string(), ScoreClass::AtOrAboveCutoff),
        ("amar".to_string(), ScoreClass::BelowCutoff),
    ];
    assert_eq!(
        select_portuguese_words(word_list_text, verbs_text, &scored),
        strings(&["Açúcar", "casa", "amar"])
    );
}

#[test]
fn word_list_lowercases_latin_letters() {
    assert_eq!(word_list("CORAÇÃO\nÁrvore\nÜBER"), strings(&["coração", "árvore", "über"]));
}
