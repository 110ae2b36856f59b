//! Where the game keeps its files: the chosen language, the puzzles of
//! each language, and the progress of each language.

use vstd::prelude::*;
use std::path::PathBuf;
use crate::language::{Language, shortcode_spec};
use crate::text::{chars_of, push_char};

verus! {

/// A file system path, carried through as an opaque value.
#[verifier::external_type_specification]
#[verifier::external_body]
pub struct ExPathBuf(PathBuf);

/// Name for what `Path::parent` gives for a path: the path without its
/// final component, if it has one. Paths compare here as `Path`'s `==`
/// compares them, component by component.
pub uninterp spec fn path_parent(p: PathBuf) -> Option<PathBuf>;

/// Name for what `Path::file_name` gives for a path, read as characters:
/// its final component, if that is a normal one.
pub uninterp spec fn path_file_name(p: PathBuf) -> Option<Seq<char>>;

/// A name that is a single normal path component on every platform:
/// lowercase ASCII letters, digits, `_` and `.`, with at least one letter
/// (so it is neither `.` nor `..`, has no separator, no prefix and no
/// root).
pub open spec fn plain_file_name(s: Seq<char>) -> bool {
    &&& forall|i: int| 0 <= i < s.len() ==> {
        let c = #[trigger] s[i];
        ('a' <= c && c <= 'z') || ('0' <= c && c <= '9') || c == '_' || c == '.'
    }
    &&& exists|i: int| 0 <= i < s.len() && 'a' <= #[trigger] s[i] && s[i] <= 'z'
}

/// Calls `Path::join`. How the parts are separated depends on the
/// platform, so the path itself is not described; for a name that is a
/// single normal component, the contract claims what std documents of
/// `join` (the name is pushed onto the path as a new component), `parent`
/// (the path without its final component) and `file_name` (the final
/// component): the result's parent is `base` and its file name is `name`.
#[verifier::external_body]
fn join_path(base: &PathBuf, name: &str) -> (r: PathBuf)
    ensures
        plain_file_name(name@) ==> path_parent(r) == Some(*base) && path_file_name(r) == Some(name@),
{
    base.join(name)
}

/// Calls `PathBuf::clone`. The contract claims that the copy is the same
/// path: `Clone` for `PathBuf` copies the underlying path, and nothing
/// here can tell the two values apart.
#[verifier::external_body]
fn clone_path(path: &PathBuf) -> (r: PathBuf)
    ensures
        r == *path,
{
    path.clone()
}

/// Name of the file that remembers the chosen language.
pub open spec fn language_file_spec() -> Seq<char> {
    "language"@
}

/// Name of the file of the puzzles of a language.
pub open spec fn games_file_spec(l: Language) -> Seq<char> {
    "games_"@ + shortcode_spec(l) + ".json"@
}

/// Name of the file the puzzles of a language are written to before
/// they replace the previous file.
pub open spec fn games_temp_file_spec(l: Language) -> Seq<char> {
    "games_"@ + shortcode_spec(l) + ".json.temp"@
}

/// Name of the file of the progress in a language.
pub open spec fn save_file_spec(l: Language) -> Seq<char> {
    shortcode_spec(l) + ".json"@
}

/// A `String` holding the concatenation of three texts.
fn concat3(a: &str, b: &str, c: &str) -> (r: String)
    ensures
        r@ == a@ + b@ + c@,
{
    let mut s = String::new();
    let parts: [&str; 3] = [a, b, c];
    let ghost goal = a@ + b@ + c@;
    let mut k: usize = 0;
    let ghost done: Seq<char> = Seq::empty();
    while k < 3
        invariant
            k <= 3,
            parts@ == seq![a, b, c],
            s@ == if k == 0 { Seq::<char>::empty() } else if k == 1 { a@ } else if k == 2 { a@ + b@ } else { a@ + b@ + c@ },
        decreases 3 - k,
    {
        let part: &str = parts[k];
        let cs = chars_of(part);
        let ghost s0 = s@;
        let n: usize = cs.len();
        let mut i: usize = 0;
        while i < n
            invariant
                i <= n,
                n == cs@.len(),
                s@ == s0 + cs@.take(i as int),
            decreases n - i,
        {
            push_char(&mut s, cs[i]);
            assert(s0 + cs@.take(i + 1) =~= (s0 + cs@.take(i as int)).push(cs@[i as int]));
            i = i + 1;
        }
        assert(cs@.take(n as int) =~= cs@);
        proof {
            if k == 0 {
                assert(s@ =~= a@);
            } else if k == 1 {
                assert(s@ =~= a@ + b@);
            }
        }
        k = k + 1;
    }
    s
}

/// Name of the file of the puzzles of a language.
pub fn games_file_name(language: Language) -> (r: String)
    ensures
        r@ == games_file_spec(language),
{
    concat3("games_", language.shortcode(), ".json")
}

/// Name of the temporary file of the puzzles of a language.
pub fn games_temp_file_name(language: Language) -> (r: String)
    ensures
        r@ == games_temp_file_spec(language),
{
    concat3("games_", language.shortcode(), ".json.temp")
}

/// Name of the file of the progress in a language.
pub fn save_file_name(language: Language) -> (r: String)
    ensures
        r@ == save_file_spec(language),
{
    proof {
        reveal_strlit("");
    }
    let r = concat3("", language.shortcode(), ".json");
    assert(""@ + shortcode_spec(language) + ".json"@ =~= shortcode_spec(language) + ".json"@);
    r
}

/// The directory of the game's files.
pub struct AppDir(pub PathBuf);

impl AppDir {
    /// The directory itself.
    pub fn get_base_path(&self) -> (r: PathBuf)
        ensures
            r == self.0,
    {
        clone_path(&self.0)
    }

    /// The file that remembers the chosen language: the directory joined
    /// with `language_file_spec()`.
    pub fn get_language_path(&self) -> (r: PathBuf)
        ensures
            path_parent(r) == Some(self.0),
            path_file_name(r) == Some(language_file_spec()),
    {
        proof {
            lemma_file_names_plain(Language::Portuguese);
        }
        join_path(&self.0, "language")
    }

    /// The file of the puzzles of a language: the directory joined with
    /// `games_file_spec(language)`.
    pub fn get_games_path(&self, language: Language) -> (r: PathBuf)
        ensures
            path_parent(r) == Some(self.0),
            path_file_name(r) == Some(games_file_spec(language)),
    {
        let name = games_file_name(language);
        proof {
            lemma_file_names_plain(language);
        }
        join_path(&self.0, name.as_str())
    }

    /// The temporary file of the puzzles of a language: the directory
    /// joined with `games_temp_file_spec(language)`.
    pub fn get_games_temp_path(&self, language: Language) -> (r: PathBuf)
        ensures
            path_parent(r) == Some(self.0),
            path_file_name(r) == Some(games_temp_file_spec(language)),
    {
        let name = games_temp_file_name(language);
        proof {
            lemma_file_names_plain(language);
        }
        join_path(&self.0, name.as_str())
    }

    /// The file of the progress in a language: the directory joined with
    /// `save_file_spec(language)`.
    pub fn get_save_path(&self, language: Language) -> (r: PathBuf)
        ensures
            path_parent(r) == Some(self.0),
            path_file_name(r) == Some(save_file_spec(language)),
    {
        let name = save_file_name(language);
        proof {
            lemma_file_names_plain(language);
        }
        join_path(&self.0, name.as_str())
    }
}

/// Every file name of the game is a single normal path component.
proof fn lemma_file_names_plain(l: Language)
    ensures
        plain_file_name(language_file_spec()),
        plain_file_name(games_file_spec(l)),
        plain_file_name(games_temp_file_spec(l)),
        plain_file_name(save_file_spec(l)),
{
    reveal_strlit("games_");
    reveal_strlit(".json");
    reveal_strlit(".json.temp");
    reveal_strlit("language");
    reveal_strlit("pt");
    reveal_strlit("en");
    assert('a' <= language_file_spec()[0] && language_file_spec()[0] <= 'z');
    assert('a' <= games_file_spec(l)[0] && games_file_spec(l)[0] <= 'z');
    assert('a' <= games_temp_file_spec(l)[0] && games_temp_file_spec(l)[0] <= 'z');
    assert('a' <= save_file_spec(l)[0] && save_file_spec(l)[0] <= 'z');
    assert forall|i: int| 0 <= i < games_temp_file_spec(l).len() implies {
        let c = #[trigger] games_temp_file_spec(l)[i];
        ('a' <= c && c <= 'z') || ('0' <= c && c <= '9') || c == '_' || c == '.'
    } by {
        let a = "games_"@;
        let b = shortcode_spec(l);
        if i < a.len() {
            assert(games_temp_file_spec(l)[i] == a[i]);
        } else if i < a.len() + b.len() {
            assert(games_temp_file_spec(l)[i] == b[i - a.len()]);
        } else {
            assert(games_temp_file_spec(l)[i] == ".json.temp"@[i - a.len() - b.len()]);
        }
    }
    assert forall|i: int| 0 <= i < games_file_spec(l).len() implies {
        let c = #[trigger] games_file_spec(l)[i];
        ('a' <= c && c <= 'z') || ('0' <= c && c <= '9') || c == '_' || c == '.'
    } by {
        let a = "games_"@;
        let b = shortcode_spec(l);
        if i < a.len() {
            assert(games_file_spec(l)[i] == a[i]);
        } else if i < a.len() + b.len() {
            assert(games_file_spec(l)[i] == b[i - a.len()]);
        } else {
            assert(games_file_spec(l)[i] == ".json"@[i - a.len() - b.len()]);
        }
    }
    assert forall|i: int| 0 <= i < save_file_spec(l).len() implies {
        let c = #[trigger] save_file_spec(l)[i];
        ('a' <= c && c <= 'z') || ('0' <= c && c <= '9') || c == '_' || c == '.'
    } by {
        let b = shortcode_spec(l);
        if i < b.len() {
            assert(save_file_spec(l)[i] == b[i]);
        } else {
            assert(save_file_spec(l)[i] == ".json"@[i - b.len()]);
        }
    }
}

/// The files of the two languages have different names, and no puzzle
/// file, temporary file or progress file shares a name with another kind.
pub proof fn law_file_names_distinct(l: Language, m: Language)
    ensures
        games_file_spec(l) == games_file_spec(m) ==> l == m,
        save_file_spec(l) == save_file_spec(m) ==> l == m,
        games_file_spec(l) != games_temp_file_spec(m),
        games_file_spec(l) != save_file_spec(m),
        save_file_spec(l) != language_file_spec(),
        games_file_spec(l) != language_file_spec(),
{
    reveal_strlit("games_");
    reveal_strlit(".json");
    reveal_strlit(".json.temp");
    reveal_strlit("language");
    reveal_strlit("pt");
    reveal_strlit("en");
    assert(games_file_spec(l).len() != games_temp_file_spec(m).len());
    assert(games_file_spec(l).len() != save_file_spec(m).len());
    assert(save_file_spec(l)[2] != language_file_spec()[2]);
    assert(games_file_spec(l).len() != language_file_spec().len());
    if games_file_spec(l) == games_file_spec(m) {
        assert(games_file_spec(l)[6] == games_file_spec(m)[6]);
    }
    if save_file_spec(l) == save_file_spec(m) {
        assert(save_file_spec(l)[0] == save_file_spec(m)[0]);
    }
}

} // verus!
