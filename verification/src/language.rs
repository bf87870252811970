use crate::errors::Error;
use vstd::prelude::*;

verus! {

/// The closed set of languages a description or rating can be written in.
/// The canonical wire and storage form of each value is a fixed three-letter
/// code; nothing outside that set is ever accepted or produced.
#[derive(Clone, Copy, Debug, PartialEq, Eq, Structural)]
pub enum Language {
    French,
    English,
}

/// The canonical three-letter code of a language value.
pub open spec fn code_of(lang: Language) -> Seq<char> {
    match lang {
        Language::French => "FRE"@,
        Language::English => "ENG"@,
    }
}

/// The language a raw code stands for, if any.  Only the exact canonical
/// codes are recognized: wrong case, wrong length or unknown codes map to
/// `None`, never to a default language.
pub open spec fn language_of(raw: Seq<char>) -> Option<Language> {
    if raw == "FRE"@ {
        Some(Language::French)
    } else if raw == "ENG"@ {
        Some(Language::English)
    } else {
        None
    }
}

impl Language {
    /// Decodes a wire or storage code into a language value.  Exactly the
    /// two canonical codes succeed; every other string is rejected with
    /// `UnrecognizedLanguage` carrying the offending code.
    pub fn decode(raw: &str) -> (r: Result<Language, Error>)
        ensures
            language_of(raw@) matches Some(lang) ==> r == Ok::<Language, Error>(lang),
            language_of(raw@) is None ==> (r matches Err(e)
                && e matches Error::UnrecognizedLanguage { raw: bad } && bad@ == raw@),
    {
        let owned = raw.to_owned();
        if owned == "FRE".to_owned() {
            Ok(Language::French)
        } else if owned == "ENG".to_owned() {
            Ok(Language::English)
        } else {
            Err(Error::UnrecognizedLanguage { raw: owned })
        }
    }

    /// Encodes a language value as its canonical three-letter code.
    pub fn encode(&self) -> (r: String)
        ensures
            r@ == code_of(*self),
    {
        match self {
            Language::French => "FRE".to_owned(),
            Language::English => "ENG".to_owned(),
        }
    }
}

/// The codec round-trips: decoding the encoded form of any language value
/// yields that same value.
pub proof fn lemma_codec_round_trip(lang: Language)
    ensures
        language_of(code_of(lang)) == Some(lang),
{
    reveal_strlit("FRE");
    reveal_strlit("ENG");
    assert("FRE"@[0] != "ENG"@[0]);
}

} // verus!
