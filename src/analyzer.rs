//! The records that extraction produces and the result envelope of an analysis.

use vstd::prelude::*;

verus! {

/// One piece of translatable text found in a game file.
#[derive(Debug, Clone)]
pub struct TextEntry {
    /// The text as it stands in the game file.
    pub source: String,
    /// The file it was found in.
    pub path: String,
    /// Its canonical key path inside that file.
    pub key: String,
    /// The translation, once one has been supplied.
    pub text: Option<String>,
}

/// The outcome of an analysis: a JSON payload, or an error message.
#[derive(Debug, Clone)]
pub struct AnalyzerOutput {
    /// The media type of the payload.
    pub format: String,
    /// The payload; empty when the analysis failed.
    pub payload: String,
    /// Why the analysis failed, if it did.
    pub error_message: Option<String>,
}

pub open spec fn json_media_type() -> Seq<char> {
    "application/json"@
}

impl AnalyzerOutput {
    /// A successful analysis carrying `payload`.
    pub fn success(payload: String) -> (r: AnalyzerOutput)
        ensures
            r.format@ == json_media_type(),
            r.payload@ == payload@,
            r.error_message is None,
    {
        AnalyzerOutput { format: "application/json".to_string(), payload, error_message: None }
    }

    /// A failed analysis with the reason `message`.
    pub fn error(message: String) -> (r: AnalyzerOutput)
        ensures
            r.format@ == json_media_type(),
            r.payload@.len() == 0,
            r.error_message matches Some(m) && m@ == message@,
    {
        AnalyzerOutput {
            format: "application/json".to_string(),
            payload: String::new(),
            error_message: Some(message),
        }
    }
}

/// What every format's analyzer offers beyond analysis and saving.
pub trait GameAnalyzer {
    /// Whether the analyzer can patch the game's script to show translations.
    fn can_edit_script(&self) -> bool;

    /// The script function that a patch targets, if any.
    fn get_script_target(&self) -> Option<String>;
}

} // verus!
