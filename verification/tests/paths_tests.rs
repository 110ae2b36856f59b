use soletra::language::Language;
use soletra::paths::{games_file_name, games_temp_file_name, save_file_name, AppDir};
use std::path::PathBuf;

#[test]
fn file_names() {
    assert_eq!(games_file_name(Language::Portuguese), "games_pt.json");
    assert_eq!(games_file_name(Language::English), "games_en.json");
    assert_eq!(games_temp_file_name(Language::English), "games_en.json.temp");
    assert_eq!(save_file_name(Language::Portuguese), "pt.json");
    assert_eq!(save_file_name(Language::English), "en.json");
}

#[test]
fn paths_under_the_directory() {
    let base = PathBuf::from("data").join("soletra");
    let dir = AppDir(base.clone());
    assert_eq!(dir.get_base_path(), base);
    assert_eq!(dir.get_language_path(), base.join("language"));
    assert_eq!(dir.get_games_path(Language::English), base.join("games_en.json"));
    assert_eq!(dir.get_games_temp_path(Language::Portuguese), base.join("games_pt.json.temp"));
    assert_eq!(dir.get_save_path(Language::English), base.join("en.json"));
}

#[test]
fn file_names_are_distinct() {
    let mut names = Vec::new();
    for l in [Language::Portuguese, Language::English] {
        names.push(games_file_name(l));
        names.push(games_temp_file_name(l));
        names.push(save_file_name(l));
    }
    names.push("language".to_string());
    let mut unique = names.clone();
    unique.sort();
    unique.dedup();
    assert_eq!(unique.len(), names.len());
}

#[test]
fn paths_are_file_names_in_the_directory() {
    let base = PathBuf::from("data").join("soletra");
    let dir = AppDir(base.clone());
    for l in [Language::Portuguese, Language::English] {
        let games = dir.get_games_path(l);
        assert_eq!(games.parent(), Some(base.as_path()));
        assert_eq!(games.file_name().and_then(|n| n.to_str()), Some(games_file_name(l).as_str()));
        let temp = dir.get_games_temp_path(l);
        assert_eq!(temp.parent(), Some(base.as_path()));
        assert_eq!(temp.file_name().and_then(|n| n.to_str()), Some(games_temp_file_name(l).as_str()));
        let save = dir.get_save_path(l);
        assert_eq!(save.parent(), Some(base.as_path()));
        assert_eq!(save.file_name().and_then(|n| n.to_str()), Some(save_file_name(l).as_str()));
        assert_ne!(games, save);
    }
    let language = dir.get_language_path();
    assert_eq!(language.parent(), Some(base.as_path()));
    assert_eq!(language.file_name().and_then(|n| n.to_str()), Some("language"));
}
