use bga_rs::document::{Document, Member};
use bga_rs::rpgm::RpgmAnalyzer;

fn text(s: &str) -> Document {
    Document::Text(s.to_string())
}

fn obj(members: Vec<(&str, Document)>) -> Document {
    Document::Object(
        members
            .into_iter()
            .map(|(k, v)| Member { key: k.to_string(), value: v })
            .collect(),
    )
}

fn field<'a>(d: &'a Document, k: &str) -> &'a Document {
    match d {
        Document::Object(ms) => &ms.iter().find(|m| m.key == k).unwrap().value,
        _ => panic!("not an object"),
    }
}

fn item(d: &Document, i: usize) -> &Document {
    match d {
        Document::List(v) => &v[i],
        _ => panic!("not a list"),
    }
}

fn as_text(d: &Document) -> &str {
    match d {
        Document::Text(s) => s.as_str(),
        _ => panic!("not text"),
    }
}

#[test]
fn test_is_system_string() {
    // Should be system strings
    assert!(RpgmAnalyzer::is_system_string(""));
    assert!(RpgmAnalyzer::is_system_string("   "));
    assert!(RpgmAnalyzer::is_system_string("123"));
    assert!(RpgmAnalyzer::is_system_string("42.5"));
    assert!(RpgmAnalyzer::is_system_string("img/pictures/bg01"));
    assert!(RpgmAnalyzer::is_system_string("https://example.com"));
    assert!(RpgmAnalyzer::is_system_string("background.png"));
    assert!(RpgmAnalyzer::is_system_string("EV001"));
    assert!(RpgmAnalyzer::is_system_string("$gameVariables"));

    // Should NOT be system strings
    assert!(!RpgmAnalyzer::is_system_string("Hello, world!"));
    assert!(!RpgmAnalyzer::is_system_string("Yes"));
    assert!(!RpgmAnalyzer::is_system_string("No"));
    assert!(!RpgmAnalyzer::is_system_string("สวัสดี"));
    assert!(!RpgmAnalyzer::is_system_string("こんにちは"));
}

#[test]
fn test_update_json_value() {
    let mut doc = obj(vec![(
        "events",
        Document::List(vec![obj(vec![(
            "list",
            Document::List(vec![obj(vec![(
                "parameters",
                Document::List(vec![text("Original text")]),
            )])]),
        )])]),
    )]);

    let success =
        RpgmAnalyzer::update_json_value(&mut doc, "events[0].list[0].parameters[0]", "Updated");

    assert!(success);
    let params = field(item(field(item(field(&doc, "events"), 0), "list"), 0), "parameters");
    assert_eq!(as_text(item(params, 0)), "Updated");
}

#[test]
fn update_keeps_other_structure() {
    let mut doc = obj(vec![
        ("name", text("Hero")),
        ("items", Document::List(vec![text("a"), Document::Int(7), text("c")])),
    ]);
    assert!(RpgmAnalyzer::update_json_value(&mut doc, "items[2]", "C"));
    let items = field(&doc, "items");
    assert_eq!(as_text(item(items, 0)), "a");
    assert!(matches!(item(items, 1), Document::Int(7)));
    assert_eq!(as_text(item(items, 2)), "C");
    assert_eq!(as_text(field(&doc, "name")), "Hero");
}

#[test]
fn update_rejects_unresolvable_paths() {
    let mut doc = obj(vec![("list", Document::List(vec![text("x")]))]);
    assert!(!RpgmAnalyzer::update_json_value(&mut doc, "list[1]", "y"));
    assert!(!RpgmAnalyzer::update_json_value(&mut doc, "missing", "y"));
    assert!(!RpgmAnalyzer::update_json_value(&mut doc, "list[x]", "y"));
    assert!(!RpgmAnalyzer::update_json_value(&mut doc, "list.0", "y"));
    assert_eq!(as_text(item(field(&doc, "list"), 0)), "x");
}

#[test]
fn update_root_list_index() {
    let mut doc = Document::List(vec![Document::Null, obj(vec![("name", text("Harold"))])]);
    assert!(RpgmAnalyzer::update_json_value(&mut doc, "[1].name", "Haroldo"));
    assert_eq!(as_text(field(item(&doc, 1), "name")), "Haroldo");
}

#[test]
fn update_overwrites_number_with_text() {
    let mut doc = obj(vec![("gold", Document::Int(5))]);
    assert!(RpgmAnalyzer::update_json_value(&mut doc, "gold", "five"));
    assert_eq!(as_text(field(&doc, "gold")), "five");
}

#[test]
fn batch_reports_only_the_failed_path() {
    let mut doc = obj(vec![
        ("a", text("one")),
        ("b", Document::List(vec![text("two")])),
    ]);
    let edits = vec![
        ("a".to_string(), "uno".to_string()),
        ("b[5]".to_string(), "cinco".to_string()),
        ("b[0]".to_string(), "dos".to_string()),
        ("nope".to_string(), "nada".to_string()),
    ];
    let failed = RpgmAnalyzer::apply_edits(&mut doc, &edits);
    assert_eq!(failed, vec!["b[5]".to_string(), "nope".to_string()]);
    assert_eq!(as_text(field(&doc, "a")), "uno");
    assert_eq!(as_text(item(field(&doc, "b"), 0)), "dos");
}

#[test]
fn same_edit_twice_matches_once() {
    let make = || obj(vec![("name", text("Old")), ("note", text("n"))]);
    let mut once = make();
    let mut twice = make();
    let e = vec![("name".to_string(), "New".to_string())];
    let ee = vec![("name".to_string(), "New".to_string()), ("name".to_string(), "New".to_string())];
    assert!(RpgmAnalyzer::apply_edits(&mut once, &e).is_empty());
    assert!(RpgmAnalyzer::apply_edits(&mut twice, &ee).is_empty());
    assert_eq!(as_text(field(&once, "name")), "New");
    assert_eq!(as_text(field(&twice, "name")), "New");
    assert_eq!(as_text(field(&twice, "note")), "n");
}

#[test]
fn update_refuses_list_or_mapping_target() {
    let mut doc = obj(vec![
        ("a", Document::List(vec![Document::Int(1), Document::Int(2)])),
        ("m", obj(vec![("x", text("y"))])),
    ]);
    assert!(!RpgmAnalyzer::update_json_value(&mut doc, "a", "x"));
    assert!(!RpgmAnalyzer::update_json_value(&mut doc, "m", "x"));
    assert!(matches!(item(field(&doc, "a"), 1), Document::Int(2)));
    assert_eq!(as_text(field(field(&doc, "m"), "x")), "y");
    let mut nested = Document::List(vec![Document::List(vec![text("p")])]);
    assert!(!RpgmAnalyzer::update_json_value(&mut nested, "[0]", "q"));
    assert!(RpgmAnalyzer::update_json_value(&mut nested, "[0][0]", "q"));
    assert_eq!(as_text(item(item(&nested, 0), 0)), "q");
}
