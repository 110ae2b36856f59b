//! The languages the puzzle can be played in.

use vstd::prelude::*;
use crate::text::{chars_of, string_of, trim_chars, trim_spec};

verus! {

/// A language of the puzzle.
#[derive(Debug, Clone, Copy, PartialEq, Eq, Structural)]
pub enum Language {
    Portuguese,
    English,
}

/// A language code that names no language.
#[derive(Debug, Clone, PartialEq, Eq)]
pub struct UnknownLanguage(pub String);

impl Default for Language {
    /// Portuguese.
    fn default() -> (r: Language)
        ensures
            r == Language::Portuguese,
    {
        Language::Portuguese
    }
}

/// The two-letter code of each language.
pub open spec fn shortcode_spec(l: Language) -> Seq<char> {
    match l {
        Language::Portuguese => "pt"@,
        Language::English => "en"@,
    }
}

/// The instruction shown under each language on the selection screen.
pub open spec fn instruction_spec(l: Language) -> Seq<char> {
    match l {
        Language::Portuguese => "(Enter para selecionar)"@,
        Language::English => "(Enter to select)"@,
    }
}

/// The name of each language, in that language.
pub open spec fn display_name_spec(l: Language) -> Seq<char> {
    match l {
        Language::Portuguese => "Português"@,
        Language::English => "English"@,
    }
}

/// The other language (there are two).
pub open spec fn other_language(l: Language) -> Language {
    match l {
        Language::Portuguese => Language::English,
        Language::English => Language::Portuguese,
    }
}

impl Language {
    /// The two-letter code of the language.
    pub fn shortcode(&self) -> (r: &'static str)
        ensures
            r@ == shortcode_spec(*self),
    {
        match self {
            Language::Portuguese => "pt",
            Language::English => "en",
        }
    }

    /// The language before this one in the selection.
    pub fn previous(&self) -> (r: Language)
        ensures
            r == other_language(*self),
    {
        match self {
            Language::Portuguese => Language::English,
            Language::English => Language::Portuguese,
        }
    }

    /// The language after this one in the selection.
    pub fn next(&self) -> (r: Language)
        ensures
            r == other_language(*self),
    {
        match self {
            Language::Portuguese => Language::English,
            Language::English => Language::Portuguese,
        }
    }

    /// The instruction shown under the language on the selection screen.
    pub fn instruction(&self) -> (r: &'static str)
        ensures
            r@ == instruction_spec(*self),
    {
        match self {
            Language::Portuguese => "(Enter para selecionar)",
            Language::English => "(Enter to select)",
        }
    }

    /// The name of the language, in that language.
    pub fn display_name(&self) -> (r: &'static str)
        ensures
            r@ == display_name_spec(*self),
    {
        match self {
            Language::Portuguese => "Português",
            Language::English => "English",
        }
    }

    /// The language with the given two-letter code.
    pub fn from_str(s: &str) -> (r: Result<Language, UnknownLanguage>)
        ensures
            s@ == "pt"@ <==> r == Ok::<Language, UnknownLanguage>(Language::Portuguese),
            s@ == "en"@ <==> r == Ok::<Language, UnknownLanguage>(Language::English),
            r matches Err(e) ==> e.0@ == s@,
    {
        proof {
            reveal_strlit("pt");
            reveal_strlit("en");
        }
        let cs = chars_of(s);
        if cs.len() == 2 && cs[0] == 'p' && cs[1] == 't' {
            assert(s@ =~= "pt"@);
            Ok(Language::Portuguese)
        } else if cs.len() == 2 && cs[0] == 'e' && cs[1] == 'n' {
            assert(s@ =~= "en"@);
            Ok(Language::English)
        } else {
            assert(s@ != "pt"@ && s@ != "en"@) by {
                if s@ == "pt"@ {
                    assert(cs@[0] == 'p' && cs@[1] == 't');
                }
                if s@ == "en"@ {
                    assert(cs@[0] == 'e' && cs@[1] == 'n');
                }
            }
            Err(UnknownLanguage(s.to_owned()))
        }
    }
}

/// The language named by a saved text: its two-letter code, with the
/// white space around it dropped.
pub fn parse_saved(text: &str) -> (r: Result<Language, UnknownLanguage>)
    ensures
        trim_spec(text@) == "pt"@ <==> r == Ok::<Language, UnknownLanguage>(Language::Portuguese),
        trim_spec(text@) == "en"@ <==> r == Ok::<Language, UnknownLanguage>(Language::English),
        r matches Err(e) ==> e.0@ == trim_spec(text@),
{
    let all = chars_of(text);
    let code = string_of(&trim_chars(&all));
    Language::from_str(code.as_str())
}

/// Going to the next language and back, or back and then to the next,
/// returns to where one started.
pub proof fn law_previous_undoes_next(l: Language)
    ensures
        other_language(other_language(l)) == l,
{
}

/// Reading a language's own code gives that language back, and two
/// languages never share a code.
pub proof fn law_shortcode_round_trip(l: Language, m: Language)
    ensures
        shortcode_spec(l) == "pt"@ ==> l == Language::Portuguese,
        shortcode_spec(l) == "en"@ ==> l == Language::English,
        shortcode_spec(l) == shortcode_spec(m) ==> l == m,
{
    reveal_strlit("pt");
    reveal_strlit("en");
    assert("pt"@[0] != "en"@[0]);
    if shortcode_spec(l) == shortcode_spec(m) && l != m {
        assert(shortcode_spec(l)[0] != shortcode_spec(m)[0]);
    }
}

} // verus!
