//! The Unity format: asset and prefab listing only.

use vstd::prelude::*;
use crate::analyzer::{GameAnalyzer, TextEntry};
use crate::document::same_text;
use crate::text::{lower_of, lowercase};

verus! {

/// The analyzer for Unity projects.
pub struct UnityAnalyzer;

/// Why saving is refused for Unity projects.
pub open spec fn unity_save_refusal() -> Seq<char> {
    "Saving for Unity projects is not yet implemented due to complex asset format."@
}

impl UnityAnalyzer {
    pub fn new() -> (r: UnityAnalyzer) {
        UnityAnalyzer
    }

    /// The kind of a listed Unity file with extension `ext`: the extension in
    /// lower case when it is `asset` or `prefab`, else none.
    pub fn asset_kind(ext: &str) -> (r: Option<String>)
        ensures
            (lower_of(ext@) == "asset"@ || lower_of(ext@) == "prefab"@) ==> (r matches Some(k)
                && k@ == lower_of(ext@)),
            !(lower_of(ext@) == "asset"@ || lower_of(ext@) == "prefab"@) ==> r is None,
    {
        let low = lowercase(ext);
        if same_text(low.as_str(), "asset") || same_text(low.as_str(), "prefab") {
            Some(low)
        } else {
            None
        }
    }

    /// Saving translations into Unity assets is not supported: always fails
    /// with the reason.
    pub fn save(&self, texts: &Vec<TextEntry>) -> (r: Result<(), String>)
        ensures
            r matches Err(m) && m@ == unity_save_refusal(),
    {
        Err("Saving for Unity projects is not yet implemented due to complex asset format.".to_string())
    }
}

impl Default for UnityAnalyzer {
    fn default() -> (r: UnityAnalyzer)
        ensures
            r == UnityAnalyzer,
    {
        UnityAnalyzer::new()
    }
}

impl GameAnalyzer for UnityAnalyzer {
    fn can_edit_script(&self) -> (r: bool)
        ensures
            r == false,
    {
        false
    }

    fn get_script_target(&self) -> (r: Option<String>)
        ensures
            r is None,
    {
        None
    }
}

} // verus!
