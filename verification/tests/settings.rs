use working_memory::settings::{
    accept, choose_file, interpret_file, read_document, strip_mark, LoadError, Settings,
    SettingsError, SettingsFile, SettingsStep,
};

fn decode(section: serde_json::Value) -> Result<Settings, String> {
    let enabled = section.get("enabled").and_then(|value| value.as_bool());
    let budget = section.get("history_token_budget").and_then(|value| value.as_i64());
    match (enabled, budget) {
        (Some(enabled), Some(history_token_budget)) => Ok(Settings { enabled, history_token_budget }),
        _ => Err("incomplete".to_string()),
    }
}

#[test]
fn nothing_is_set_by_default() {
    let settings = Settings::default();
    assert!(!settings.enabled);
    assert_eq!(settings.history_token_budget, 20_000);
}

#[test]
fn the_file_of_the_machine_comes_first() {
    assert_eq!(choose_file(true), SettingsFile::System);
    assert_eq!(choose_file(false), SettingsFile::Home);
}

#[test]
fn a_byte_order_mark_is_dropped_once() {
    assert_eq!(strip_mark(b"\xef\xbb\xbf{}"), b"{}");
    assert_eq!(strip_mark(b"\xef\xbb\xbf\xef\xbb\xbf"), b"\xef\xbb\xbf");
    assert_eq!(strip_mark(b"{}"), b"{}");
    assert_eq!(strip_mark(b"\xef\xbb"), b"\xef\xbb");
    assert_eq!(strip_mark(b""), b"");
}

#[test]
fn the_section_is_found() {
    match interpret_file(Some(b"\xef\xbb\xbf{\"codex_memory\":{\"enabled\":true}}")) {
        Ok(SettingsStep::Decode(section)) => {
            assert_eq!(section.get("enabled").and_then(|value| value.as_bool()), Some(true))
        }
        _ => panic!("no section"),
    }
    match interpret_file(Some(b"{\"other\":1}")) {
        Ok(SettingsStep::Done(settings)) => assert_eq!(settings, Settings::default()),
        _ => panic!("a section"),
    }
    match interpret_file(None) {
        Ok(SettingsStep::Done(settings)) => assert_eq!(settings, Settings::default()),
        _ => panic!("a section"),
    }
    assert!(matches!(interpret_file(Some(b"{")), Err(SettingsError::Json(_))));
    assert!(matches!(interpret_file(Some(b"")), Err(SettingsError::Json(_))));
}

#[test]
fn documents_without_members_set_nothing() {
    for text in ["[]", "7", "null", "\"codex_memory\""] {
        let document: serde_json::Value = serde_json::from_str(text).unwrap();
        assert!(matches!(read_document(&document), SettingsStep::Done(_)));
    }
}

#[test]
fn budgets_have_limits() {
    for (budget, fits) in [(999, false), (1_000, true), (1_000_000, true), (1_000_001, false), (-1, false)] {
        let settings = Settings { enabled: true, history_token_budget: budget };
        match accept(settings) {
            Ok(accepted) => {
                assert!(fits);
                assert_eq!(accepted, settings);
            }
            Err(SettingsError::BudgetOutOfRange) => assert!(!fits),
            Err(SettingsError::Json(_)) => panic!("nothing was parsed"),
        }
    }
    assert_eq!(
        SettingsError::BudgetOutOfRange.message(),
        "history_token_budget must be between 1000 and 1000000"
    );
}

#[test]
fn settings_are_loaded() {
    let file = b"{\"codex_memory\":{\"enabled\":true,\"history_token_budget\":5000}}";
    assert_eq!(
        Settings::load(Some(file), decode).unwrap(),
        Settings { enabled: true, history_token_budget: 5_000 }
    );
    assert_eq!(Settings::load(None, decode).unwrap(), Settings::default());
    assert_eq!(Settings::load(Some(b"{}"), decode).unwrap(), Settings::default());
    assert!(matches!(
        Settings::load(Some(b"x"), decode),
        Err(LoadError::Settings(SettingsError::Json(_)))
    ));
    let file = b"{\"codex_memory\":{\"enabled\":true,\"history_token_budget\":5}}";
    assert!(matches!(
        Settings::load(Some(file), decode),
        Err(LoadError::Settings(SettingsError::BudgetOutOfRange))
    ));
    match Settings::load(Some(b"{\"codex_memory\":{}}"), decode) {
        Err(LoadError::Decode(reason)) => assert_eq!(reason, "incomplete"),
        _ => panic!("decoded"),
    }
}

#[test]
fn json_errors_keep_their_message() {
    let expected = serde_json::from_slice::<serde_json::Value>(b"{").unwrap_err().to_string();
    match interpret_file(Some(b"{")) {
        Err(error) => assert_eq!(error.message(), expected),
        Ok(_) => panic!("no JSON"),
    }
}

#[test]
fn json_errors_are_those_of_the_unmarked_bytes() {
    let marked = b"\xef\xbb\xbf{\"a\":";
    let of_marked = serde_json::from_slice::<serde_json::Value>(marked).unwrap_err().to_string();
    let expected = serde_json::from_slice::<serde_json::Value>(&marked[3..]).unwrap_err().to_string();
    assert_ne!(of_marked, expected);
    match interpret_file(Some(marked)) {
        Err(error) => assert_eq!(error.message(), expected),
        Ok(_) => panic!("no JSON"),
    }
    match Settings::load(Some(marked), decode) {
        Err(LoadError::Settings(error)) => assert_eq!(error.message(), expected),
        _ => panic!("no JSON"),
    }
}
