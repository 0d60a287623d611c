//! The RPG Maker MV/MZ format: JSON data files walked as documents.

use vstd::prelude::*;
use crate::analyzer::{GameAnalyzer, TextEntry};
use crate::document::{Document, same_text};
use crate::mutate::{apply_all, apply_edits, edits_view, set_path, update_json_value};
use crate::path::PathStep;
use crate::text::{is_system_text, is_system_text_of, lower_of, lowercase};
use crate::walk::{Found, entry_of, extends, walk};

verus! {

/// An entry that carries a non-empty translation.
pub open spec fn wants_update(e: TextEntry) -> bool {
    e.text matches Some(t) && t@.len() > 0
}

/// The edits (key path, translation) of the first `n` entries that belong
/// to `file` and carry a non-empty translation, in order.
pub open spec fn edits_for(texts: Seq<TextEntry>, file: Seq<char>, n: nat) -> Seq<(Seq<char>, Seq<char>)>
    decreases n,
{
    if n == 0 || n > texts.len() {
        Seq::empty()
    } else {
        let prev = edits_for(texts, file, (n - 1) as nat);
        let e = texts[n - 1];
        if wants_update(e) && e.path@ == file {
            prev.push((e.key@, e.text->0@))
        } else {
            prev
        }
    }
}

/// Some entry with a non-empty translation belongs to `file`.
pub open spec fn updated_file(texts: Seq<TextEntry>, file: Seq<char>) -> bool {
    exists|j: int| 0 <= j < texts.len() && wants_update(texts[j]) && texts[j].path@ == file
}

/// Entry `j` is the first entry of `file` with a non-empty translation.
pub open spec fn first_update_at(texts: Seq<TextEntry>, file: Seq<char>, j: int) -> bool {
    &&& 0 <= j < texts.len()
    &&& wants_update(texts[j])
    &&& texts[j].path@ == file
    &&& forall|k: int| 0 <= k < j ==> !(wants_update(#[trigger] texts[k]) && texts[k].path@ == file)
}

/// The first entry of `file` with a non-empty translation comes before `i`.
pub open spec fn first_before(texts: Seq<TextEntry>, file: Seq<char>, i: int) -> bool {
    exists|j: int| j < i && first_update_at(texts, file, j)
}

proof fn lemma_first_update_unique(texts: Seq<TextEntry>, file: Seq<char>, j: int, j2: int)
    requires
        first_update_at(texts, file, j),
        first_update_at(texts, file, j2),
    ensures
        j == j2,
{
    if j < j2 {
        assert(!(wants_update(texts[j]) && texts[j].path@ == file));
    } else if j2 < j {
        assert(!(wants_update(texts[j2]) && texts[j2].path@ == file));
    }
}

/// Some item of `files` is `file`.
pub open spec fn listed(files: Seq<String>, file: Seq<char>) -> bool {
    exists|a: int| 0 <= a < files.len() && files[a]@ == file
}

/// The records of the first `n` files, each found string paired with its
/// file; a file that could not be parsed contributes none.
pub open spec fn scan_records(files: Seq<(String, Option<Document>)>, n: nat) -> Seq<(Found, Seq<char>)>
    decreases n,
{
    if n == 0 || n > files.len() {
        Seq::empty()
    } else {
        let prev = scan_records(files, (n - 1) as nat);
        match files[n - 1].1 {
            Some(d) => prev + walk(d, Seq::empty()).map_values(|f: Found| (f, files[n - 1].0@)),
            None => prev,
        }
    }
}

/// How many of the first `n` files were parsed (`parsed`) or not.
pub open spec fn scan_count(files: Seq<(String, Option<Document>)>, n: nat, parsed: bool) -> nat
    decreases n,
{
    if n == 0 || n > files.len() {
        0
    } else {
        scan_count(files, (n - 1) as nat, parsed) + if (files[n - 1].1 is Some) == parsed {
            1nat
        } else {
            0nat
        }
    }
}

/// The result of scanning a project's data files.
pub struct ScanResult {
    pub entries: Vec<TextEntry>,
    pub files_processed: usize,
    pub files_failed: usize,
}

/// The analyzer for RPG Maker MV/MZ projects.
pub struct RpgmAnalyzer;

impl RpgmAnalyzer {
    pub fn new() -> (r: RpgmAnalyzer) {
        RpgmAnalyzer
    }

    /// Whether `text` is system or technical text that must not be offered
    /// for translation.
    pub fn is_system_string(text: &str) -> (r: bool)
        ensures
            r == is_system_text(text@),
    {
        is_system_text_of(text)
    }

    /// The translatable strings of the document `doc`, read from the file
    /// `file_path`, in document order.
    pub fn extract_document(doc: &Document, file_path: &str) -> (r: Vec<TextEntry>)
        ensures
            extends(Seq::empty(), r@, walk(*doc, Seq::<PathStep>::empty()), file_path@),
    {
        crate::walk::extract_document(doc, file_path)
    }

    /// Writes `new_value` at `key_path` in `doc`; see [`update_json_value`].
    pub fn update_json_value(doc: &mut Document, key_path: &str, new_value: &str) -> (r: bool)
        ensures
            match set_path(old(doc)@, key_path@, new_value@) {
                Some(t) => r && final(doc)@ == t,
                None => !r && final(doc)@ == old(doc)@,
            },
    {
        update_json_value(doc, key_path, new_value)
    }

    /// Applies the edits (key path, new text) to `doc` in order; returns the
    /// key paths that did not resolve.
    pub fn apply_edits(doc: &mut Document, edits: &Vec<(String, String)>) -> (failed: Vec<String>)
        ensures
            final(doc)@ == apply_all(old(doc)@, edits_view(edits@)).0,
            failed@.map_values(|s: String| s@) == apply_all(old(doc)@, edits_view(edits@)).1,
    {
        apply_edits(doc, edits)
    }
}

impl RpgmAnalyzer {
    /// The edits to make in `file`: the key path and translation of each
    /// entry of that file with a non-empty translation, in order.
    pub fn edits_for_file(texts: &Vec<TextEntry>, file: &str) -> (r: Vec<(String, String)>)
        ensures
            edits_view(r@) == edits_for(texts@, file@, texts@.len()),
    {
        let mut out: Vec<(String, String)> = Vec::new();
        let mut i: usize = 0;
        while i < texts.len()
            invariant
                0 <= i <= texts@.len(),
                edits_view(out@) == edits_for(texts@, file@, i as nat),
            decreases texts.len() - i,
        {
            let e = &texts[i];
            let ghost before = out@;
            if let Some(t) = &e.text {
                if !t.as_str().is_empty() && same_text(e.path.as_str(), file) {
                    out.push((e.key.clone(), t.clone()));
                    assert(edits_view(out@) =~= edits_view(before).push((e.key@, t@)));
                }
            }
            i = i + 1;
        }
        out
    }

    /// The files that some entry with a non-empty translation belongs to,
    /// each once, in order of first appearance.
    pub fn files_to_update(texts: &Vec<TextEntry>) -> (r: Vec<String>)
        ensures
            forall|a: int, b: int| 0 <= a < b < r@.len() ==> r@[a]@ != r@[b]@,
            forall|a: int| 0 <= a < r@.len() ==> updated_file(texts@, (#[trigger] r@[a])@),
            forall|j: int|
                0 <= j < texts@.len() && wants_update(#[trigger] texts@[j]) ==> listed(
                    r@,
                    texts@[j].path@,
                ),
            forall|a: int, b: int, j1: int, j2: int|
                0 <= a < b < r@.len() && #[trigger] first_update_at(texts@, r@[a]@, j1) && #[trigger] first_update_at(
                    texts@,
                    r@[b]@,
                    j2,
                ) ==> j1 < j2,
    {
        let mut out: Vec<String> = Vec::new();
        let mut i: usize = 0;
        while i < texts.len()
            invariant
                0 <= i <= texts@.len(),
                forall|a: int, b: int| 0 <= a < b < out@.len() ==> out@[a]@ != out@[b]@,
                forall|a: int| 0 <= a < out@.len() ==> updated_file(texts@, (#[trigger] out@[a])@),
                forall|j: int|
                    0 <= j < i && wants_update(#[trigger] texts@[j]) ==> listed(out@, texts@[j].path@),
                forall|a: int|
                    0 <= a < out@.len() ==> first_before(texts@, (#[trigger] out@[a])@, i as int),
                forall|a: int, b: int, j1: int, j2: int|
                    0 <= a < b < out@.len() && #[trigger] first_update_at(texts@, out@[a]@, j1) && #[trigger] first_update_at(
                        texts@,
                        out@[b]@,
                        j2,
                    ) ==> j1 < j2,
            decreases texts.len() - i,
        {
            let e = &texts[i];
            let wanted = match &e.text {
                Some(t) => !t.as_str().is_empty(),
                None => false,
            };
            let mut seen = false;
            if wanted {
                let mut k: usize = 0;
                while k < out.len()
                    invariant
                        0 <= k <= out@.len(),
                        !seen ==> forall|a: int| 0 <= a < k ==> out@[a]@ != e.path@,
                        seen ==> listed(out@, e.path@),
                        forall|a: int|
                            0 <= a < out@.len() ==> first_before(texts@, (#[trigger] out@[a])@, i as int),
                    decreases out.len() - k,
                {
                    if same_text(out[k].as_str(), e.path.as_str()) {
                        seen = true;
                    }
                    k = k + 1;
                }
                if !seen {
                    let ghost before = out@;
                    let ghost f = texts@[i as int].path@;
                    assert forall|q: int| 0 <= q < i implies !(wants_update(#[trigger] texts@[q]) && texts@[q].path@ == f) by {
                        if wants_update(texts@[q]) && texts@[q].path@ == f {
                            let a = choose|a: int| 0 <= a < before.len() && before[a]@ == texts@[q].path@;
                        }
                    }
                    assert(first_update_at(texts@, f, i as int));
                    out.push(e.path.clone());
                    assert(out@[before.len() as int]@ == f);
                    assert forall|a: int|
                        0 <= a < out@.len() implies first_before(texts@, (#[trigger] out@[a])@, i + 1) by {
                        if a < before.len() {
                            assert(out@[a] == before[a]);
                            let j = choose|j: int| j < i && first_update_at(texts@, before[a]@, j);
                            assert(j < i + 1 && first_update_at(texts@, out@[a]@, j));
                            assert(first_before(texts@, out@[a]@, i + 1));
                        } else {
                            assert(first_update_at(texts@, out@[a]@, i as int));
                            assert(first_before(texts@, out@[a]@, i + 1));
                        }
                    }
                    assert forall|a: int, b: int, j1: int, j2: int|
                        0 <= a < b < out@.len() && #[trigger] first_update_at(texts@, out@[a]@, j1) && #[trigger] first_update_at(
                            texts@,
                            out@[b]@,
                            j2,
                        ) implies j1 < j2 by {
                        assert(out@[a] == before[a]);
                        if b < before.len() {
                            assert(out@[b] == before[b]);
                        } else {
                            lemma_first_update_unique(texts@, f, i as int, j2);
                            assert(first_before(texts@, before[a]@, i as int));
                            let j = choose|j: int| j < i && first_update_at(texts@, before[a]@, j);
                            lemma_first_update_unique(texts@, before[a]@, j, j1);
                        }
                    }
                    assert(updated_file(texts@, texts@[i as int].path@));
                    assert forall|a: int| 0 <= a < out@.len() implies updated_file(texts@, (#[trigger] out@[a])@) by {
                        if a < before.len() {
                            assert(out@[a] == before[a]);
                        }
                    }
                    assert forall|j: int|
                        0 <= j < i + 1 && wants_update(#[trigger] texts@[j]) implies listed(out@, texts@[j].path@) by {
                        if j < i {
                            let a = choose|a: int| 0 <= a < before.len() && before[a]@ == texts@[j].path@;
                            assert(out@[a] == before[a]);
                        } else {
                            assert(out@[before.len() as int]@ == texts@[j].path@);
                        }
                    }
                }
            }
            if !wanted || seen {
                assert forall|a: int|
                    0 <= a < out@.len() implies first_before(texts@, (#[trigger] out@[a])@, i + 1) by {
                    assert(first_before(texts@, out@[a]@, i as int));
                    let j = choose|j: int| j < i && first_update_at(texts@, out@[a]@, j);
                    assert(first_before(texts@, out@[a]@, i + 1));
                }
            }
            i = i + 1;
        }
        out
    }
}

impl RpgmAnalyzer {
    /// Whether a directory named `name` is itself the data folder.
    pub fn is_data_folder(name: &str) -> (r: bool)
        ensures
            r == (lower_of(name@) == "data"@),
    {
        let low = lowercase(name);
        same_text(low.as_str(), "data")
    }

    /// Whether a file named `name` is the package manifest, which holds no
    /// game text.
    pub fn is_package_manifest(name: &str) -> (r: bool)
        ensures
            r == (lower_of(name@) == "package.json"@),
    {
        let low = lowercase(name);
        same_text(low.as_str(), "package.json")
    }

    /// Whether `ext` is the extension of a font file.
    pub fn is_font_extension(ext: &str) -> (r: bool)
        ensures
            r == (lower_of(ext@) == "ttf"@ || lower_of(ext@) == "otf"@ || lower_of(ext@) == "woff"@
                || lower_of(ext@) == "woff2"@),
    {
        let low = lowercase(ext);
        same_text(low.as_str(), "ttf") || same_text(low.as_str(), "otf") || same_text(
            low.as_str(),
            "woff",
        ) || same_text(low.as_str(), "woff2")
    }
}

impl RpgmAnalyzer {
    /// Extracts the strings of every parsed file, in order, and counts the
    /// files that were parsed and those that were not (`None`); a file that
    /// fails does not stop the scan.
    pub fn scan_files(files: &Vec<(String, Option<Document>)>) -> (r: ScanResult)
        ensures
            r.entries@.len() == scan_records(files@, files@.len()).len(),
            forall|j: int|
                0 <= j < r.entries@.len() ==> entry_of(
                    #[trigger] r.entries@[j],
                    scan_records(files@, files@.len())[j].0,
                    scan_records(files@, files@.len())[j].1,
                ),
            r.files_processed == scan_count(files@, files@.len(), true),
            r.files_failed == scan_count(files@, files@.len(), false),
    {
        let mut entries: Vec<TextEntry> = Vec::new();
        let mut processed: usize = 0;
        let mut failed: usize = 0;
        let mut i: usize = 0;
        while i < files.len()
            invariant
                0 <= i <= files@.len(),
                entries@.len() == scan_records(files@, i as nat).len(),
                forall|j: int|
                    0 <= j < entries@.len() ==> entry_of(
                        #[trigger] entries@[j],
                        scan_records(files@, i as nat)[j].0,
                        scan_records(files@, i as nat)[j].1,
                    ),
                processed == scan_count(files@, i as nat, true),
                failed == scan_count(files@, i as nat, false),
                processed + failed == i,
            decreases files.len() - i,
        {
            let ghost prev = scan_records(files@, i as nat);
            let ghost before = entries@;
            match &files[i].1 {
                Some(d) => {
                    let mut found = crate::walk::extract_document(d, files[i].0.as_str());
                    let ghost w = walk(*d, Seq::empty());
                    let ghost f = found@;
                    entries.append(&mut found);
                    assert(scan_records(files@, (i + 1) as nat) == prev + w.map_values(|x: Found| (x, files@[i as int].0@)));
                    assert forall|j: int| 0 <= j < entries@.len() implies entry_of(
                        #[trigger] entries@[j],
                        scan_records(files@, (i + 1) as nat)[j].0,
                        scan_records(files@, (i + 1) as nat)[j].1,
                    ) by {
                        if j >= before.len() {
                            assert(entries@[j] == f[j - before.len()]);
                            assert(entry_of(f[0 + (j - before.len())], w[j - before.len()], files@[i as int].0@));
                        } else {
                            assert(entries@[j] == before[j]);
                        }
                    }
                    processed = processed + 1;
                },
                None => {
                    failed = failed + 1;
                },
            }
            i = i + 1;
        }
        ScanResult { entries, files_processed: processed, files_failed: failed }
    }
}

impl Default for RpgmAnalyzer {
    fn default() -> (r: RpgmAnalyzer)
        ensures
            r == RpgmAnalyzer,
    {
        RpgmAnalyzer::new()
    }
}

impl GameAnalyzer for RpgmAnalyzer {
    fn can_edit_script(&self) -> (r: bool)
        ensures
            r == true,
    {
        true
    }

    fn get_script_target(&self) -> (r: Option<String>)
        ensures
            r matches Some(s) && s@ == "Window_Base.prototype.convertEscapeCharacters"@,
    {
        Some("Window_Base.prototype.convertEscapeCharacters".to_string())
    }
}

} // verus!
