use soletra::game::Game;
use soletra::generate::generate_games;

fn words(list: &[&str]) -> Vec<String> {
    list.iter().map(|w| w.to_string()).collect()
}

fn summary(g: &Game) -> (char, [char; 6], Vec<(String, String, bool)>) {
    (
        g.main_letter,
        g.secondary_letters,
        g.words
            .iter()
            .map(|w| (w.original.clone(), w.normalized.0.clone(), w.is_pangram))
            .collect(),
    )
}

fn entry(original: &str, normalized: &str, is_pangram: bool) -> (String, String, bool) {
    (original.to_string(), normalized.to_string(), is_pangram)
}

#[test]
fn no_words_no_games() {
    assert_eq!(generate_games(Vec::new()).unwrap().len(), 0);
    // no word uses seven letters
    assert_eq!(generate_games(words(&["cafe", "bead"])).unwrap().len(), 0);
}

#[test]
fn seven_games_per_pangram() {
    let games = generate_games(words(&[
        "abcdefg", "cafe", "bead", "face", "Café", "abcdefgh", "kafe", "aaa", "bcdefgh",
        "abcdefgabcdefgabcdef",
    ]))
    .unwrap();
    assert_eq!(games.len(), 14);
    let bead = entry("bead", "bead", false);
    let cafe = entry("cafe/Café", "cafe", false);
    let face = entry("face", "face", false);
    let pangram = entry("abcdefg", "abcdefg", true);
    let second = entry("bcdefgh", "bcdefgh", true);
    assert_eq!(
        summary(&games[0]),
        ('a', ['b', 'c', 'd', 'e', 'f', 'g'], vec![bead.clone(), cafe.clone(), face.clone(), pangram.clone()])
    );
    assert_eq!(summary(&games[1]), ('b', ['a', 'c', 'd', 'e', 'f', 'g'], vec![bead.clone(), pangram.clone()]));
    assert_eq!(
        summary(&games[2]),
        ('c', ['a', 'b', 'd', 'e', 'f', 'g'], vec![cafe.clone(), face.clone(), pangram.clone()])
    );
    assert_eq!(summary(&games[3]), ('d', ['a', 'b', 'c', 'e', 'f', 'g'], vec![bead.clone(), pangram.clone()]));
    assert_eq!(
        summary(&games[4]),
        ('e', ['a', 'b', 'c', 'd', 'f', 'g'], vec![bead.clone(), cafe.clone(), face.clone(), pangram.clone()])
    );
    assert_eq!(
        summary(&games[5]),
        ('f', ['a', 'b', 'c', 'd', 'e', 'g'], vec![cafe.clone(), face.clone(), pangram.clone()])
    );
    assert_eq!(summary(&games[6]), ('g', ['a', 'b', 'c', 'd', 'e', 'f'], vec![pangram.clone()]));
    assert_eq!(summary(&games[7]), ('b', ['c', 'd', 'e', 'f', 'g', 'h'], vec![second.clone()]));
    assert_eq!(summary(&games[13]), ('h', ['b', 'c', 'd', 'e', 'f', 'g'], vec![second.clone()]));
}

#[test]
fn words_are_listed_by_length_then_collation() {
    let games = generate_games(words(&["gabcdef", "fade", "faced", "cafe", "decaf", "bead"])).unwrap();
    let main_a = &games[0];
    assert_eq!(main_a.main_letter, 'a');
    let listed: Vec<&str> = main_a.words.iter().map(|w| w.normalized.0.as_str()).collect();
    assert_eq!(listed, vec!["bead", "cafe", "fade", "decaf", "faced", "gabcdef"]);
    assert_eq!(main_a.words[5].original, "gabcdef");
    assert!(main_a.words[5].is_pangram);
}

#[test]
fn accents_and_cedilla_are_letters_of_their_own() {
    // 'ç' is its own letter; accents fold into the plain letter
    let games = generate_games(words(&["caçador", "Caçadora", "açor", "arco"])).unwrap();
    // letters of "caçador": a, c, ç, d, o, r -> six letters, no puzzle
    assert_eq!(games.len(), 0);
    let games = generate_games(words(&["maçarico", "maçã", "coma", "Íamos"])).unwrap();
    // letters of "maçarico": a, c, ç, i, m, o, r
    assert_eq!(games.len(), 7);
    let all: Vec<String> = games[0].words.iter().map(|w| w.original.clone()).collect();
    assert!(all.contains(&"maçã".to_string()));
    assert!(all.contains(&"coma".to_string()));
    assert!(!all.contains(&"Íamos".to_string()));
}

#[test]
fn every_puzzle_fits_its_letters_and_lists_a_pangram() {
    let list = words(&[
        "maçarico", "maçã", "coma", "amor", "carioca", "abcdefg", "face", "bead", "cafe", "decaf", "faced",
        "Roma", "mico", "ramo", "carimo",
    ]);
    let games = generate_games(list).unwrap();
    assert!(!games.is_empty());
    for g in &games {
        let mut letters: Vec<char> = g.secondary_letters.to_vec();
        letters.push(g.main_letter);
        let mut distinct = letters.clone();
        distinct.sort();
        distinct.dedup();
        assert_eq!(distinct.len(), 7);
        assert!(g.words.iter().any(|w| w.is_pangram));
        let mut forms: Vec<&str> = g.words.iter().map(|w| w.normalized.0.as_str()).collect();
        let listed = forms.len();
        forms.sort();
        forms.dedup();
        assert_eq!(forms.len(), listed);
        for w in &g.words {
            let n: Vec<char> = w.normalized.0.chars().collect();
            assert!(n.len() >= 4 && n.len() <= 19);
            assert!(n.contains(&g.main_letter));
            assert!(n.iter().all(|c| letters.contains(c)));
            let mut used = n.clone();
            used.sort();
            used.dedup();
            assert_eq!(w.is_pangram, used.len() == 7);
        }
    }
}

#[test]
fn word_order_and_repeats_do_not_matter() {
    let a = generate_games(words(&["abcdefg", "cafe", "bead", "face", "Café", "decaf"])).unwrap();
    let b = generate_games(words(&["decaf", "face", "Café", "bead", "cafe", "abcdefg", "bead", "Café"])).unwrap();
    assert_eq!(a.len(), b.len());
    for (x, y) in a.iter().zip(b.iter()) {
        assert_eq!(summary(x), summary(y));
    }
}
