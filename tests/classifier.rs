use bga_rs::rpgm::RpgmAnalyzer;
use bga_rs::text::{classify, TextFeatures};

fn plain(lowered: &str) -> TextFeatures {
    TextFeatures {
        lowered: lowered.to_string(),
        url: false,
        file_ext: false,
        control_code: false,
        event_name: false,
        plugin_command: false,
        symbols_only: false,
    }
}

#[test]
fn numbers_in_every_form_are_system_text() {
    for s in ["1e5", "-3", "+0.5", ".5", "5.", "inf", "-Infinity", "NaN", "  7  "] {
        assert!(RpgmAnalyzer::is_system_string(s), "{s}");
    }
    for s in [".", "1e", "e5", "1.2.3", "--1"] {
        assert!(!classify(s, &plain(s)), "{s}");
    }
}

#[test]
fn classifier_is_deterministic() {
    let inputs = ["Hello", "EV012", "Potion of healing", "\\c[2]", "!!!"];
    let first: Vec<bool> = inputs.iter().map(|s| RpgmAnalyzer::is_system_string(s)).collect();
    let again: Vec<bool> = inputs.iter().rev().map(|s| RpgmAnalyzer::is_system_string(s)).collect();
    let again: Vec<bool> = again.into_iter().rev().collect();
    assert_eq!(first, again);
}

#[test]
fn classifier_rules_on_samples() {
    assert!(RpgmAnalyzer::is_system_string("\\c[12]"));
    assert!(RpgmAnalyzer::is_system_string("ev1234"));
    assert!(!RpgmAnalyzer::is_system_string("EV12"));
    assert!(RpgmAnalyzer::is_system_string("Window open now"));
    assert!(RpgmAnalyzer::is_system_string("ActorName"));
    assert!(RpgmAnalyzer::is_system_string("Statement"));
    assert!(RpgmAnalyzer::is_system_string("FTP://host"));
    assert!(RpgmAnalyzer::is_system_string("Theme.OGG"));
    assert!(RpgmAnalyzer::is_system_string("...!?"));
    assert!(RpgmAnalyzer::is_system_string("use $GAMEparty"));
    assert!(!RpgmAnalyzer::is_system_string("Привет"));
    assert!(!RpgmAnalyzer::is_system_string("안녕하세요"));
    assert!(!RpgmAnalyzer::is_system_string("The hero rests."));
}

#[test]
fn classify_uses_given_features() {
    assert!(!classify("Hello", &plain("hello")));
    let mut f = plain("hello");
    f.url = true;
    assert!(classify("Hello", &f));
    let mut f = plain("hello");
    f.symbols_only = true;
    assert!(classify("Hello", &f));
    assert!(classify("Hello", &plain("skillful")));
    assert!(classify("Hello", &plain("x $game y")));
    assert!(classify("  ", &plain("  ")));
    assert!(classify("12.5e3", &plain("12.5e3")));
    assert!(classify("a/b", &plain("a/b")));
}
