//! Search-time configuration: the stemming language of the analyzer. The
//! configuration file itself is read and parsed by the caller; the core
//! maps the language name to the closed set of supported stemmers.

use vstd::prelude::*;
use vstd::string::StringSliceAdditionalSpecFns;

use crate::text::lower_bytes;
use crate::text::lower_vec;
use crate::text::bytes_eq;

verus! {

/// Stemming settings of the identifier analyzer.
#[derive(Clone, Debug)]
pub struct StemmingConfig {
    pub language: String,
    pub enabled: bool,
}

/// The configuration the core consumes.
#[derive(Clone, Debug)]
pub struct Config {
    pub stemming: StemmingConfig,
}

/// The closed set of natural languages the stemmer supports.
#[derive(Clone, Copy, Debug, PartialEq, Eq, Structural)]
pub enum StemLanguage {
    English,
    French,
    German,
    Italian,
    Portuguese,
    Spanish,
    Dutch,
    Danish,
    Finnish,
    Hungarian,
    Norwegian,
    Romanian,
    Russian,
    Swedish,
    Tamil,
    Turkish,
}

/// A configuration the core rejects.
#[derive(Clone, Copy, Debug, PartialEq, Eq, Structural)]
pub enum ConfigError {
    UnsupportedLanguage,
}

impl Default for Config {
    /// Stemming enabled, in English.
    fn default() -> (r: Config)
        ensures
            r.stemming.enabled,
            r.stemming.language@ == "english"@,
    {
        Config { stemming: StemmingConfig { language: "english".to_owned(), enabled: true } }
    }
}

/// The stemmer for a language name, already lowercased: full names and
/// two-letter codes are accepted.
pub open spec fn spec_language_of(s: Seq<u8>) -> Option<StemLanguage> {
    if s == "english".spec_bytes() || s == "en".spec_bytes() {
        Some(StemLanguage::English)
    } else if s == "french".spec_bytes() || s == "fr".spec_bytes() {
        Some(StemLanguage::French)
    } else if s == "german".spec_bytes() || s == "de".spec_bytes() {
        Some(StemLanguage::German)
    } else if s == "italian".spec_bytes() || s == "it".spec_bytes() {
        Some(StemLanguage::Italian)
    } else if s == "portuguese".spec_bytes() || s == "pt".spec_bytes() {
        Some(StemLanguage::Portuguese)
    } else if s == "spanish".spec_bytes() || s == "es".spec_bytes() {
        Some(StemLanguage::Spanish)
    } else if s == "dutch".spec_bytes() || s == "nl".spec_bytes() {
        Some(StemLanguage::Dutch)
    } else if s == "danish".spec_bytes() || s == "da".spec_bytes() {
        Some(StemLanguage::Danish)
    } else if s == "finnish".spec_bytes() || s == "fi".spec_bytes() {
        Some(StemLanguage::Finnish)
    } else if s == "hungarian".spec_bytes() || s == "hu".spec_bytes() {
        Some(StemLanguage::Hungarian)
    } else if s == "norwegian".spec_bytes() || s == "no".spec_bytes() {
        Some(StemLanguage::Norwegian)
    } else if s == "romanian".spec_bytes() || s == "ro".spec_bytes() {
        Some(StemLanguage::Romanian)
    } else if s == "russian".spec_bytes() || s == "ru".spec_bytes() {
        Some(StemLanguage::Russian)
    } else if s == "swedish".spec_bytes() || s == "sv".spec_bytes() {
        Some(StemLanguage::Swedish)
    } else if s == "tamil".spec_bytes() || s == "ta".spec_bytes() {
        Some(StemLanguage::Tamil)
    } else if s == "turkish".spec_bytes() || s == "tr".spec_bytes() {
        Some(StemLanguage::Turkish)
    } else {
        None
    }
}

fn language_of(s: &[u8]) -> (r: Option<StemLanguage>)
    ensures
        r == spec_language_of(s@),
{
    if bytes_eq(s, "english".as_bytes()) || bytes_eq(s, "en".as_bytes()) {
        Some(StemLanguage::English)
    } else if bytes_eq(s, "french".as_bytes()) || bytes_eq(s, "fr".as_bytes()) {
        Some(StemLanguage::French)
    } else if bytes_eq(s, "german".as_bytes()) || bytes_eq(s, "de".as_bytes()) {
        Some(StemLanguage::German)
    } else if bytes_eq(s, "italian".as_bytes()) || bytes_eq(s, "it".as_bytes()) {
        Some(StemLanguage::Italian)
    } else if bytes_eq(s, "portuguese".as_bytes()) || bytes_eq(s, "pt".as_bytes()) {
        Some(StemLanguage::Portuguese)
    } else if bytes_eq(s, "spanish".as_bytes()) || bytes_eq(s, "es".as_bytes()) {
        Some(StemLanguage::Spanish)
    } else if bytes_eq(s, "dutch".as_bytes()) || bytes_eq(s, "nl".as_bytes()) {
        Some(StemLanguage::Dutch)
    } else if bytes_eq(s, "danish".as_bytes()) || bytes_eq(s, "da".as_bytes()) {
        Some(StemLanguage::Danish)
    } else if bytes_eq(s, "finnish".as_bytes()) || bytes_eq(s, "fi".as_bytes()) {
        Some(StemLanguage::Finnish)
    } else if bytes_eq(s, "hungarian".as_bytes()) || bytes_eq(s, "hu".as_bytes()) {
        Some(StemLanguage::Hungarian)
    } else if bytes_eq(s, "norwegian".as_bytes()) || bytes_eq(s, "no".as_bytes()) {
        Some(StemLanguage::Norwegian)
    } else if bytes_eq(s, "romanian".as_bytes()) || bytes_eq(s, "ro".as_bytes()) {
        Some(StemLanguage::Romanian)
    } else if bytes_eq(s, "russian".as_bytes()) || bytes_eq(s, "ru".as_bytes()) {
        Some(StemLanguage::Russian)
    } else if bytes_eq(s, "swedish".as_bytes()) || bytes_eq(s, "sv".as_bytes()) {
        Some(StemLanguage::Swedish)
    } else if bytes_eq(s, "tamil".as_bytes()) || bytes_eq(s, "ta".as_bytes()) {
        Some(StemLanguage::Tamil)
    } else if bytes_eq(s, "turkish".as_bytes()) || bytes_eq(s, "tr".as_bytes()) {
        Some(StemLanguage::Turkish)
    } else {
        None
    }
}

impl Config {
    /// The stemmer language this configuration selects. With stemming
    /// disabled the analyzer runs without a stemmer, and English stands as
    /// the placeholder. An unknown language name is rejected.
    pub fn get_language(&self) -> (r: Result<StemLanguage, ConfigError>)
        ensures
            !self.stemming.enabled ==> r == Ok::<StemLanguage, ConfigError>(StemLanguage::English),
            self.stemming.enabled ==> r == (match spec_language_of(
                lower_bytes(vstd::utf8::encode_utf8(self.stemming.language@)),
            ) {
                Some(l) => Ok::<StemLanguage, ConfigError>(l),
                None => Err::<StemLanguage, ConfigError>(ConfigError::UnsupportedLanguage),
            }),
    {
        if !self.stemming.enabled {
            return Ok(StemLanguage::English);
        }
        let lowered = lower_vec(self.stemming.language.as_str().as_bytes());
        match language_of(lowered.as_slice()) {
            Some(l) => Ok(l),
            None => Err(ConfigError::UnsupportedLanguage),
        }
    }
}

} // verus!
