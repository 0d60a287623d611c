use bga_rs::analyzer::{AnalyzerOutput, TextEntry};
use bga_rs::document::{Document, Member};
use bga_rs::events::EventCode;
use bga_rs::path::{decimal_text, decode_path, Step};
use bga_rs::rpgm::RpgmAnalyzer;

fn text(s: &str) -> Document {
    Document::Text(s.to_string())
}

fn obj(members: Vec<(&str, Document)>) -> Document {
    Document::Object(
        members
            .into_iter()
            .map(|(k, v)| Member { key: k.to_string(), value: v })
            .collect(),
    )
}

fn command(code: i64, params: Vec<Document>) -> Document {
    obj(vec![
        ("code", Document::Int(code)),
        ("indent", Document::Int(0)),
        ("parameters", Document::List(params)),
    ])
}

fn keys(entries: &[TextEntry]) -> Vec<(String, String)> {
    entries.iter().map(|e| (e.key.clone(), e.source.clone())).collect()
}

fn pair(k: &str, s: &str) -> (String, String) {
    (k.to_string(), s.to_string())
}

#[test]
fn message_and_choice_commands() {
    let doc = obj(vec![(
        "events",
        Document::List(vec![
            Document::Null,
            obj(vec![(
                "list",
                Document::List(vec![
                    command(101, vec![text("Actor1"), Document::Int(0), Document::Int(0), Document::Int(2), text("Harold")]),
                    command(401, vec![text("Welcome to the village!")]),
                    command(102, vec![Document::List(vec![text("Yes"), text("No"), text("")])]),
                    command(320, vec![Document::Int(1), text("Therese")]),
                ]),
            )]),
        ]),
    )]);
    let entries = RpgmAnalyzer::extract_document(&doc, "data/Map001.json");
    assert_eq!(
        keys(&entries),
        vec![
            pair("events[1].list[0].parameters[4]", "Harold"),
            pair("events[1].list[1].parameters[0]", "Welcome to the village!"),
            pair("events[1].list[2].parameters[0][0]", "Yes"),
            pair("events[1].list[2].parameters[0][1]", "No"),
            pair("events[1].list[3].parameters[1]", "Therese"),
        ]
    );
    assert!(entries.iter().all(|e| e.path == "data/Map001.json" && e.text.is_none()));
}

#[test]
fn consumed_parameters_are_not_walked_again() {
    let doc = command(401, vec![text("Line one"), text("Extra words")]);
    let entries = RpgmAnalyzer::extract_document(&doc, "f");
    assert_eq!(keys(&entries), vec![pair("parameters[0]", "Line one")]);
}

#[test]
fn unknown_command_parameters_are_walked() {
    let doc = command(999, vec![text("Some words"), Document::Int(3)]);
    let entries = RpgmAnalyzer::extract_document(&doc, "f");
    assert_eq!(keys(&entries), vec![pair("parameters[0]", "Some words")]);
}

#[test]
fn plain_mappings_use_the_key_lists() {
    let doc = Document::List(vec![
        Document::Null,
        obj(vec![
            ("name", text("Harold")),
            ("battlerName", text("Harold_battler")),
            ("faceName", text("Actor1")),
            ("title", text("Not a listed key")),
            ("profile", text("A young hero.")),
            ("id", Document::Int(1)),
            ("se", obj(vec![("name", text("Attack sound"))])),
        ]),
    ]);
    let entries = RpgmAnalyzer::extract_document(&doc, "data/Actors.json");
    assert_eq!(
        keys(&entries),
        vec![pair("[1].name", "Harold"), pair("[1].profile", "A young hero.")]
    );
}

#[test]
fn audio_objects_are_skipped() {
    let doc = obj(vec![(
        "bgm",
        Document::Null,
    ), (
        "battleBgm",
        obj(vec![
            ("name", text("Battle theme")),
            ("volume", Document::Int(90)),
            ("pitch", Document::Int(100)),
            ("pan", Document::Int(0)),
        ]),
    )]);
    assert!(RpgmAnalyzer::extract_document(&doc, "f").is_empty());
}

#[test]
fn system_strings_are_not_extracted() {
    let doc = obj(vec![
        ("name", text("EV003")),
        ("description", text("A shiny sword.")),
        ("note", text("<<>>")),
    ]);
    let entries = RpgmAnalyzer::extract_document(&doc, "f");
    assert_eq!(keys(&entries), vec![pair("description", "A shiny sword.")]);
}

#[test]
fn extracted_paths_write_back() {
    let mut doc = obj(vec![(
        "list",
        Document::List(vec![command(102, vec![Document::List(vec![text("Left"), text("Right")])])]),
    )]);
    let entries = RpgmAnalyzer::extract_document(&doc, "f");
    for e in &entries {
        assert!(RpgmAnalyzer::update_json_value(&mut doc, &e.key, "T"));
    }
    let again = RpgmAnalyzer::extract_document(&doc, "f");
    assert_eq!(keys(&again), vec![pair("list[0].parameters[0][0]", "T"), pair("list[0].parameters[0][1]", "T")]);
}

fn step_names(steps: &[Step]) -> Vec<String> {
    steps
        .iter()
        .map(|s| match s {
            Step::Field(k) => format!("F:{k}"),
            Step::Index(i) => format!("I:{i}"),
            Step::Malformed => "M".to_string(),
        })
        .collect()
}

#[test]
fn decode_splits_fields_and_indices() {
    assert_eq!(
        step_names(&decode_path("events[0].list[3].parameters[0]")),
        vec!["F:events", "I:0", "F:list", "I:3", "F:parameters", "I:0"]
    );
    assert_eq!(step_names(&decode_path("[2][10].name")), vec!["I:2", "I:10", "F:name"]);
    assert_eq!(step_names(&decode_path("a[x]")), vec!["M"]);
    assert_eq!(step_names(&decode_path("a[x][4]")), vec!["F:a", "I:4"]);
    assert_eq!(step_names(&decode_path("a[99999999999999999999999]")), vec!["M"]);
    assert_eq!(step_names(&decode_path("")), vec!["F:"]);
    assert_eq!(step_names(&decode_path("a..b")), vec!["F:a", "F:", "F:b"]);
}

#[test]
fn decimal_text_writes_digits() {
    assert_eq!(decimal_text(0), "0");
    assert_eq!(decimal_text(7), "7");
    assert_eq!(decimal_text(40213), "40213");
    assert_eq!(decimal_text(usize::MAX), usize::MAX.to_string());
}

#[test]
fn event_codes_round_trip() {
    assert_eq!(EventCode::from_i64(401), Some(EventCode::ShowTextLine));
    assert_eq!(EventCode::from_i64(102), Some(EventCode::ShowChoices));
    assert_eq!(EventCode::from_i64(655), Some(EventCode::ScriptContinuation));
    assert_eq!(EventCode::from_i64(400), None);
    assert_eq!(EventCode::from_i64(-101), None);
}

#[test]
fn output_envelopes() {
    let ok = AnalyzerOutput::success("{}".to_string());
    assert_eq!(ok.format, "application/json");
    assert_eq!(ok.payload, "{}");
    assert!(ok.error_message.is_none());
    let err = AnalyzerOutput::error("Path does not exist".to_string());
    assert_eq!(err.payload, "");
    assert_eq!(err.error_message.as_deref(), Some("Path does not exist"));
}
