use bga_rs::analyzer::{GameAnalyzer, TextEntry};
use bga_rs::document::{Document, Member};
use bga_rs::renpy::RenpyAnalyzer;
use bga_rs::rpgm::RpgmAnalyzer;
use bga_rs::unity::UnityAnalyzer;

fn entry(source: &str, path: &str, key: &str, text: Option<&str>) -> TextEntry {
    TextEntry {
        source: source.to_string(),
        path: path.to_string(),
        key: key.to_string(),
        text: text.map(|t| t.to_string()),
    }
}

fn lines(ls: &[&str]) -> Vec<String> {
    ls.iter().map(|l| l.to_string()).collect()
}

#[test]
fn renpy_lines_yield_dialogue_and_menu_text() {
    let script = lines(&[
        "label start:",
        "    e \"Hello there.\"",
        "    \"Narration line.\"",
        "    menu:",
        "        \"Go left\":",
        "    $ x = 1",
        "    e \"   \"",
    ]);
    let entries = RenpyAnalyzer::extract_lines("script.rpy", &script);
    let got: Vec<(String, String)> =
        entries.iter().map(|e| (e.key.clone(), e.source.clone())).collect();
    assert_eq!(
        got,
        vec![
            ("line:2".to_string(), "Hello there.".to_string()),
            ("line:3".to_string(), "Narration line.".to_string()),
            ("line:5".to_string(), "Go left".to_string()),
        ]
    );
    assert!(entries.iter().all(|e| e.path == "script.rpy" && e.text.is_none()));
}

#[test]
fn renpy_line_entry_skips_blank_captures() {
    assert!(RenpyAnalyzer::line_entry("a.rpy", 0, None).is_none());
    assert!(RenpyAnalyzer::line_entry("a.rpy", 0, Some(" \t ".to_string())).is_none());
    let e = RenpyAnalyzer::line_entry("a.rpy", 41, Some("Hi".to_string())).unwrap();
    assert_eq!(e.key, "line:42");
    assert_eq!(e.source, "Hi");
    assert_eq!(e.path, "a.rpy");
}

#[test]
fn renpy_translation_script() {
    let texts = vec![
        entry("Hello", "s.rpy", "line:1", Some("Bonjour")),
        entry("Skip", "s.rpy", "line:2", None),
        entry("Empty", "s.rpy", "line:3", Some("")),
        entry("Bye", "s.rpy", "line:4", Some("Au revoir")),
    ];
    assert_eq!(
        RenpyAnalyzer::render_translations(&texts),
        "translate None:\n    old \"Hello\"\n    new \"Bonjour\"\n\n\
         translate None:\n    old \"Bye\"\n    new \"Au revoir\"\n\n"
    );
    assert_eq!(RenpyAnalyzer::render_translations(&vec![]), "");
}

#[test]
fn rpgm_save_plan_groups_by_file() {
    let texts = vec![
        entry("a", "data/Map001.json", "events[1].name", Some("A")),
        entry("b", "data/Actors.json", "[1].name", Some("B")),
        entry("c", "data/Map001.json", "events[2].name", None),
        entry("d", "data/Map001.json", "events[3].name", Some("D")),
        entry("e", "data/Items.json", "[4].name", Some("")),
    ];
    assert_eq!(
        RpgmAnalyzer::files_to_update(&texts),
        vec!["data/Map001.json".to_string(), "data/Actors.json".to_string()]
    );
    assert_eq!(
        RpgmAnalyzer::edits_for_file(&texts, "data/Map001.json"),
        vec![
            ("events[1].name".to_string(), "A".to_string()),
            ("events[3].name".to_string(), "D".to_string()),
        ]
    );
    assert!(RpgmAnalyzer::edits_for_file(&texts, "data/Items.json").is_empty());
}

#[test]
fn rpgm_file_rules() {
    assert!(RpgmAnalyzer::is_data_folder("data"));
    assert!(RpgmAnalyzer::is_data_folder("DATA"));
    assert!(!RpgmAnalyzer::is_data_folder("database"));
    assert!(RpgmAnalyzer::is_package_manifest("Package.JSON"));
    assert!(!RpgmAnalyzer::is_package_manifest("System.json"));
    assert!(RpgmAnalyzer::is_font_extension("TTF"));
    assert!(RpgmAnalyzer::is_font_extension("woff2"));
    assert!(!RpgmAnalyzer::is_font_extension("png"));
}

#[test]
fn unity_rules() {
    assert_eq!(UnityAnalyzer::asset_kind("Prefab"), Some("prefab".to_string()));
    assert_eq!(UnityAnalyzer::asset_kind("asset"), Some("asset".to_string()));
    assert_eq!(UnityAnalyzer::asset_kind("png"), None);
    let u = UnityAnalyzer::new();
    assert_eq!(
        u.save(&vec![]),
        Err("Saving for Unity projects is not yet implemented due to complex asset format.".to_string())
    );
}

#[test]
fn script_patch_capabilities() {
    assert!(RpgmAnalyzer::new().can_edit_script());
    assert_eq!(
        RpgmAnalyzer::new().get_script_target(),
        Some("Window_Base.prototype.convertEscapeCharacters".to_string())
    );
    assert!(!RenpyAnalyzer::new().can_edit_script());
    assert_eq!(UnityAnalyzer::new().get_script_target(), None);
}

#[test]
fn rpgm_scan_counts_parsed_and_failed_files() {
    let actors = Document::List(vec![
        Document::Null,
        Document::Object(vec![Member { key: "name".to_string(), value: Document::Text("Harold".to_string()) }]),
    ]);
    let system = Document::Object(vec![Member {
        key: "gameTitle".to_string(),
        value: Document::Text("My Quest".to_string()),
    }]);
    let files = vec![
        ("data/Actors.json".to_string(), Some(actors)),
        ("data/Broken.json".to_string(), None),
        ("data/System.json".to_string(), Some(system)),
    ];
    let scan = RpgmAnalyzer::scan_files(&files);
    assert_eq!(scan.files_processed, 2);
    assert_eq!(scan.files_failed, 1);
    let got: Vec<(String, String, String)> = scan
        .entries
        .iter()
        .map(|e| (e.path.clone(), e.key.clone(), e.source.clone()))
        .collect();
    assert_eq!(
        got,
        vec![
            ("data/Actors.json".to_string(), "[1].name".to_string(), "Harold".to_string()),
            ("data/System.json".to_string(), "gameTitle".to_string(), "My Quest".to_string()),
        ]
    );
}

#[test]
fn rpgm_save_plan_keeps_first_appearance_order() {
    let texts = vec![
        entry("x", "b.json", "k", None),
        entry("y", "c.json", "k", Some("Y")),
        entry("z", "b.json", "k", Some("Z")),
        entry("w", "c.json", "j", Some("W")),
    ];
    assert_eq!(RpgmAnalyzer::files_to_update(&texts), vec!["c.json".to_string(), "b.json".to_string()]);
}
