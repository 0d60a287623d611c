//! The Ren'Py format: script files scanned line by line, and translations
//! written out as a separate translation script.

use vstd::prelude::*;
use crate::analyzer::{GameAnalyzer, TextEntry};
use crate::path::{decimal, decimal_text};
use crate::text::{trim, trim_str};

verus! {

/// Matches a dialogue line: an optional speaker, then a quoted string.
pub const DIALOG_PATTERN: &'static str = r#"^\s*(?:[a-zA-Z_]\w*\s+)?"([^"]+)""#;

/// Matches a menu choice: a quoted string followed by a colon.
pub const MENU_PATTERN: &'static str = r#"^\s*"([^"]+)"\s*:"#;

/// What the `regex` crate gives as the first capture group of `pattern` on
/// `text`: `None` when the pattern does not compile, does not match, or the
/// group did not take part in the match.
pub uninterp spec fn first_capture(pattern: Seq<char>, text: Seq<char>) -> Option<Seq<char>>;

/// Relies on `regex::Regex::new`, `regex::Regex::captures` and
/// `regex::Captures::get` for group 1; the result depends on the arguments alone.
#[verifier::external_body]
fn regex_capture(pattern: &str, text: &str) -> (r: Option<String>)
    ensures
        r matches Some(s) ==> first_capture(pattern@, text@) == Some(s@),
        r is None ==> first_capture(pattern@, text@) is None,
{
    regex::Regex::new(pattern).ok().and_then(
        |re| re.captures(text).and_then(|c| c.get(1)).map(|m| m.as_str().to_string()),
    )
}

/// The quoted text of a script line: the dialogue capture, else the menu capture.
pub open spec fn line_capture(line: Seq<char>) -> Option<Seq<char>> {
    match first_capture(DIALOG_PATTERN@, line) {
        Some(t) => Some(t),
        None => first_capture(MENU_PATTERN@, line),
    }
}

/// The key of the line with index `i`: `line:` and its 1-based number.
pub open spec fn line_key(i: nat) -> Seq<char> {
    "line:"@ + decimal(i + 1)
}

/// `e` is the record of the text `t` on the line with index `i` of `file`.
pub open spec fn line_entry_of(e: TextEntry, t: Seq<char>, i: nat, file: Seq<char>) -> bool {
    &&& e.source@ == t
    &&& e.path@ == file
    &&& e.key@ == line_key(i)
    &&& e.text is None
}

/// The records of the first `n` lines of `lines`, as texts and line indices.
pub open spec fn line_records(lines: Seq<String>, n: nat) -> Seq<(Seq<char>, nat)>
    decreases n,
{
    if n == 0 || n > lines.len() {
        Seq::empty()
    } else {
        let prev = line_records(lines, (n - 1) as nat);
        match line_capture(lines[n - 1]@) {
            Some(t) => if trim(t).len() > 0 {
                prev.push((t, (n - 1) as nat))
            } else {
                prev
            },
            None => prev,
        }
    }
}

/// The block that declares one translation, if the entry has a non-empty one.
pub open spec fn translation_block(e: TextEntry) -> Seq<char> {
    match e.text {
        Some(t) => if t@.len() > 0 {
            "translate None:\n"@ + "    old \""@ + e.source@ + "\"\n"@ + "    new \""@ + t@
                + "\"\n"@ + "\n"@
        } else {
            Seq::empty()
        },
        None => Seq::empty(),
    }
}

/// The translation script for the first `n` entries.
pub open spec fn translation_script(texts: Seq<TextEntry>, n: nat) -> Seq<char>
    decreases n,
{
    if n == 0 || n > texts.len() {
        Seq::empty()
    } else {
        translation_script(texts, (n - 1) as nat) + translation_block(texts[n - 1])
    }
}

/// The analyzer for Ren'Py projects.
pub struct RenpyAnalyzer;

impl RenpyAnalyzer {
    pub fn new() -> (r: RenpyAnalyzer) {
        RenpyAnalyzer
    }

    /// The record for the line with index `index` of `file_name`, given the
    /// text captured from it: none when nothing was captured or the capture
    /// is blank.
    pub fn line_entry(file_name: &str, index: usize, captured: Option<String>) -> (r: Option<
        TextEntry,
    >)
        requires
            index < usize::MAX,
        ensures
            match captured {
                Some(t) => if trim(t@).len() > 0 {
                    r matches Some(e) && line_entry_of(e, t@, index as nat, file_name@)
                } else {
                    r is None
                },
                None => r is None,
            },
    {
        match captured {
            Some(t) => {
                if trim_str(t.as_str()).unicode_len() == 0 {
                    None
                } else {
                    let key = "line:".to_string().concat(decimal_text(index + 1).as_str());
                    Some(TextEntry { source: t, path: file_name.to_string(), key, text: None })
                }
            },
            None => None,
        }
    }

    /// The records of the quoted texts of the script lines `lines` of the
    /// file `file_name`, in line order.
    pub fn extract_lines(file_name: &str, lines: &Vec<String>) -> (r: Vec<TextEntry>)
        ensures
            r@.len() == line_records(lines@, lines@.len()).len(),
            forall|j: int|
                0 <= j < r@.len() ==> line_entry_of(
                    #[trigger] r@[j],
                    line_records(lines@, lines@.len())[j].0,
                    line_records(lines@, lines@.len())[j].1,
                    file_name@,
                ),
    {
        let mut out: Vec<TextEntry> = Vec::new();
        let mut i: usize = 0;
        while i < lines.len()
            invariant
                0 <= i <= lines@.len(),
                out@.len() == line_records(lines@, i as nat).len(),
                forall|j: int|
                    0 <= j < out@.len() ==> line_entry_of(
                        #[trigger] out@[j],
                        line_records(lines@, i as nat)[j].0,
                        line_records(lines@, i as nat)[j].1,
                        file_name@,
                    ),
            decreases lines.len() - i,
        {
            let line = lines[i].as_str();
            let captured = match regex_capture(DIALOG_PATTERN, line) {
                Some(t) => Some(t),
                None => regex_capture(MENU_PATTERN, line),
            };
            match RenpyAnalyzer::line_entry(file_name, i, captured) {
                Some(e) => {
                    out.push(e);
                },
                None => {},
            }
            i = i + 1;
        }
        out
    }

    /// The translation script for `texts`: one `translate None` block with
    /// the old and the new text for each entry with a non-empty translation.
    pub fn render_translations(texts: &Vec<TextEntry>) -> (r: String)
        ensures
            r@ == translation_script(texts@, texts@.len()),
    {
        let mut out = String::new();
        let mut i: usize = 0;
        while i < texts.len()
            invariant
                0 <= i <= texts@.len(),
                out@ == translation_script(texts@, i as nat),
            decreases texts.len() - i,
        {
            let e = &texts[i];
            match &e.text {
                Some(t) => {
                    if !t.as_str().is_empty() {
                        out = out.concat("translate None:\n").concat("    old \"").concat(
                            e.source.as_str(),
                        ).concat("\"\n").concat("    new \"").concat(t.as_str()).concat(
                            "\"\n",
                        ).concat("\n");
                    }
                },
                None => {},
            }
            i = i + 1;
        }
        out
    }
}

impl Default for RenpyAnalyzer {
    fn default() -> (r: RenpyAnalyzer)
        ensures
            r == RenpyAnalyzer,
    {
        RenpyAnalyzer::new()
    }
}

impl GameAnalyzer for RenpyAnalyzer {
    fn can_edit_script(&self) -> (r: bool)
        ensures
            r == false,
    {
        false
    }

    fn get_script_target(&self) -> (r: Option<String>)
        ensures
            r is None,
    {
        None
    }
}

} // verus!
