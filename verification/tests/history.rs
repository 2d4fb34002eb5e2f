use serde_json::Value;
use working_memory::handler::{FunctionCallError, ToolPayload, WorkingMemoryHandler};
use working_memory::history::{
    admit_request, local_rollout, overview, reached_messages, read_turns, requested_turns,
    response_items, write_answer, write_page, write_turn, Args, HistoryError, RolloutItem,
};
use working_memory::item::{ContentBody, ContentItem, ItemBody, ResponseItem};
use working_memory::settings::Settings;
use working_memory::snapshot::{build_snapshot, IndexEntry};
use working_memory::turn::TurnIdError;

fn entry(start: usize, end: usize) -> IndexEntry {
    IndexEntry { start, end, user: String::new(), tools: Vec::new(), answer: String::new() }
}

fn args(start: Option<&str>, end: Option<&str>) -> Args {
    Args {
        start_turn: start.map(|id| id.to_string()),
        end_turn: end.map(|id| id.to_string()),
    }
}

/// One turn for each message.
fn turns(messages: &[String]) -> Vec<IndexEntry> {
    (1..=messages.len()).map(|at| entry(at, at)).collect()
}

fn numbers(count: usize) -> Vec<String> {
    (1..=count).map(|number| number.to_string()).collect()
}

fn ids(text: &str) -> Vec<String> {
    let page: Value = serde_json::from_str(text).unwrap();
    page["turns"]
        .as_array()
        .unwrap()
        .iter()
        .map(|turn| turn["id"].as_str().unwrap().to_string())
        .collect()
}

fn next(text: &str) -> Option<String> {
    let page: Value = serde_json::from_str(text).unwrap();
    page["next_start_turn"].as_str().map(|id| id.to_string())
}

fn object(members: Vec<(&str, Value)>) -> Value {
    Value::Object(members.into_iter().map(|(name, value)| (name.to_string(), value)).collect())
}

#[test]
fn rollouts_have_to_be_local() {
    assert_eq!(local_rollout(Some("path")), Ok("path"));
    assert_eq!(local_rollout::<u8>(None), Err(HistoryError::NoRollout));
}

#[test]
fn items_are_taken_from_the_rollout() {
    let records = || vec![RolloutItem::ResponseItem(1), RolloutItem::Other, RolloutItem::ResponseItem(2)];
    assert_eq!(response_items(records(), 0), Ok(vec![1, 2]));
    assert_eq!(response_items(records(), 3), Err(HistoryError::Malformed(3)));
}

#[test]
fn reading_needs_an_enabled_memory() {
    assert_eq!(admit_request(&Settings { enabled: true, history_token_budget: 1 }), Ok(()));
    assert_eq!(admit_request(&Settings::default()), Err(HistoryError::Disabled));
}

#[test]
fn the_overview_counts_turns() {
    assert_eq!(overview(0), r#"{"latest_turn_id":null,"total_turns":0}"#);
    assert_eq!(overview(12), r#"{"latest_turn_id":"T012","total_turns":12}"#);
    let value = object(vec![
        ("total_turns", Value::from(12)),
        ("latest_turn_id", Value::from("T012")),
    ]);
    assert_eq!(overview(12), value.to_string());
}

#[test]
fn ranges_are_requested_by_id() {
    assert_eq!(requested_turns(&args(Some("T002"), Some("T003")), 5), Ok((2, 3)));
    assert_eq!(requested_turns(&args(Some("T004"), None), 5), Ok((4, 4)));
    assert_eq!(requested_turns(&args(None, Some("T003")), 5), Ok((1, 3)));
    assert_eq!(
        requested_turns(&args(Some("2"), Some("x")), 5),
        Err(HistoryError::TurnId(TurnIdError::MissingPrefix))
    );
    assert_eq!(
        requested_turns(&args(Some("T002"), Some("T000")), 5),
        Err(HistoryError::TurnId(TurnIdError::NotPositive))
    );
    assert_eq!(requested_turns(&args(Some("T003"), Some("T002")), 1), Err(HistoryError::StartAfterEnd));
    assert_eq!(requested_turns(&args(Some("T006"), None), 5), Err(HistoryError::BeyondLatest(5)));
    assert_eq!(requested_turns(&args(Some("T001"), None), 0), Err(HistoryError::BeyondLatest(0)));
}

#[test]
fn every_turn_of_the_index_can_be_requested() {
    for number in 1..=12 {
        let id = working_memory::turn::turn_id(number);
        assert_eq!(requested_turns(&args(Some(&id), None), 12), Ok((number, number)));
    }
}

#[test]
fn turns_are_written_as_json() {
    let messages = vec![r#"{"a":1}"#.to_string(), r#""b""#.to_string(), "null".to_string()];
    let entries = vec![entry(1, 2), entry(3, 3)];
    let text = write_turn(&entries, &messages, 1);
    assert_eq!(text, r#"{"id":"T001","messages":[{"a":1},"b"]}"#);
    let value = object(vec![
        ("id", Value::from("T001")),
        ("messages", Value::Array(vec![object(vec![("a", Value::from(1))]), Value::from("b")])),
    ]);
    assert_eq!(text.into_bytes(), serde_json::to_vec(&value).unwrap());
    assert_eq!(write_turn(&entries, &messages, 2), r#"{"id":"T002","messages":[null]}"#);
}

#[test]
fn pages_are_written_as_json() {
    let messages = numbers(3);
    let text = read_turns(&args(Some("T002"), Some("T003")), &turns(&messages), &messages).unwrap();
    assert_eq!(
        text,
        r#"{"next_start_turn":null,"turns":[{"id":"T002","messages":[2]},{"id":"T003","messages":[3]}]}"#
    );
    let value: Value = serde_json::from_str(&text).unwrap();
    assert_eq!(value.to_string(), text);
}

#[test]
fn without_arguments_turns_are_counted() {
    let messages = numbers(3);
    assert_eq!(
        read_turns(&args(None, None), &turns(&messages), &messages).unwrap(),
        r#"{"latest_turn_id":"T003","total_turns":3}"#
    );
}

#[test]
fn a_page_holds_fifty_turns() {
    let messages = numbers(120);
    let text = read_turns(&args(Some("T001"), Some("T120")), &turns(&messages), &messages).unwrap();
    assert_eq!(ids(&text).len(), 50);
    assert_eq!(next(&text), Some("T051".to_string()));
    let text = read_turns(&args(Some("T071"), Some("T120")), &turns(&messages), &messages).unwrap();
    assert_eq!(ids(&text).len(), 50);
    assert_eq!(next(&text), None);
}

#[test]
fn following_pages_reads_every_turn_once() {
    let messages: Vec<String> = (0..130).map(|at| format!("\"{}\"", "m".repeat(at * 7))).collect();
    let entries = turns(&messages);
    let mut start = "T003".to_string();
    let mut seen = Vec::new();
    loop {
        let text = read_turns(&args(Some(&start), Some("T128")), &entries, &messages).unwrap();
        seen.extend(ids(&text));
        match next(&text) {
            Some(id) => start = id,
            None => break,
        }
    }
    let expected: Vec<String> = (3..=128).map(|number| format!("T{number:03}")).collect();
    assert_eq!(seen, expected);
}

#[test]
fn the_byte_limit_of_a_page_is_inclusive() {
    let frame = r#"{"next_start_turn":null,"turns":[{"id":"T001","messages":[""]}]}"#.len();
    let exact = vec![format!("\"{}\"", "x".repeat(24_000 - frame))];
    let text = read_turns(&args(Some("T001"), None), &turns(&exact), &exact).unwrap();
    assert_eq!(text.len(), 24_000);
    let above = vec![format!("\"{}\"", "x".repeat(24_001 - frame))];
    assert!(write_page(&turns(&above), &above, 1, 1).is_empty());
    assert_eq!(
        read_turns(&args(Some("T001"), None), &turns(&above), &above),
        Err(HistoryError::TurnTooLarge)
    );
}

#[test]
fn the_frame_and_the_commas_count() {
    let frame = r#"{"next_start_turn":"T003","turns":[{"id":"T001","messages":[""]},{"id":"T002","messages":[""]}]}"#.len();
    let quoted = |len: usize| format!("\"{}\"", "x".repeat(len));
    let exact = vec![quoted(10_000), quoted(14_000 - frame), "3".repeat(30)];
    let text = read_turns(&args(Some("T001"), Some("T003")), &turns(&exact), &exact).unwrap();
    assert_eq!(text.len(), 24_000);
    assert_eq!(ids(&text), vec!["T001".to_string(), "T002".to_string()]);
    let above = vec![quoted(10_000), quoted(14_001 - frame), "3".repeat(30)];
    let text = read_turns(&args(Some("T001"), Some("T003")), &turns(&above), &above).unwrap();
    assert_eq!(ids(&text), vec!["T001".to_string()]);
    assert_eq!(next(&text), Some("T002".to_string()));
}

#[test]
fn answers_with_a_range_keep_the_byte_limit() {
    let messages: Vec<String> = (0..80).map(|at| format!("\"{}\"", "é".repeat(at * 11))).collect();
    for start in 1..=80 {
        let id = working_memory::turn::turn_id(start);
        let text = read_turns(&args(Some(&id), Some("T080")), &turns(&messages), &messages).unwrap();
        assert!(text.len() <= 24_000);
    }
}

#[test]
fn an_answer_is_framed() {
    assert_eq!(write_answer(&[], None), r#"{"next_start_turn":null,"turns":[]}"#);
    assert_eq!(
        write_answer(&["1".to_string(), "2".to_string()], Some(7)),
        r#"{"next_start_turn":"T007","turns":[1,2]}"#
    );
}

#[test]
fn only_reached_messages_matter() {
    let mut messages = numbers(120);
    messages[9] = format!("\"{}\"", "x".repeat(30_000));
    let entries = turns(&messages);
    assert_eq!(reached_messages(&args(None, None), &entries, &messages), (0, 0));
    assert_eq!(reached_messages(&args(Some("x"), None), &entries, &messages), (0, 0));
    assert_eq!(reached_messages(&args(Some("T020"), None), &entries, &messages), (19, 20));
    assert_eq!(reached_messages(&args(Some("T020"), Some("T120")), &entries, &messages), (19, 69));
    let range = args(Some("T003"), Some("T050"));
    assert_eq!(reached_messages(&range, &entries, &messages), (2, 10));
    let text = read_turns(&range, &entries, &messages);
    for message in messages[..2].iter_mut() {
        message.clear();
    }
    for message in messages[10..].iter_mut() {
        message.clear();
    }
    assert_eq!(read_turns(&range, &entries, &messages), text);
}

#[test]
fn a_page_stops_before_a_turn_that_does_not_fit() {
    let messages = vec![
        format!("\"{}\"", "é".repeat(6_000)),
        format!("\"{}\"", "x".repeat(12_000)),
        "1".to_string(),
    ];
    let text = read_turns(&args(Some("T001"), Some("T003")), &turns(&messages), &messages).unwrap();
    assert_eq!(ids(&text), vec!["T001".to_string()]);
    assert_eq!(next(&text), Some("T002".to_string()));
}

#[test]
fn messages_of_history_errors() {
    for (error, message) in [
        (HistoryError::Disabled, "Working memory is disabled"),
        (HistoryError::NoRollout, "Working memory requires a local rollout"),
        (HistoryError::Malformed(7), "Rollout has 7 malformed records"),
        (HistoryError::TurnId(TurnIdError::NotPositive), "Turn IDs must be positive"),
        (HistoryError::StartAfterEnd, "start_turn must not be after end_turn"),
        (HistoryError::BeyondLatest(4), "Latest turn is T004"),
        (HistoryError::BeyondLatest(0), "Latest turn is T000"),
        (HistoryError::TurnTooLarge, "Turn exceeds the 24000-byte output limit"),
    ] {
        assert_eq!(error.message(), message);
    }
}

#[test]
fn the_tool_describes_itself() {
    let tool = WorkingMemoryHandler.tool_spec();
    assert_eq!(WorkingMemoryHandler.tool_name(), "history_read");
    assert_eq!(tool.name, "history_read");
    assert_eq!(
        tool.description,
        "Read persisted conversation history by turn ID (T001). No arguments returns the turn count; a range returns at most 50 turns and 24000 bytes. Follow next_start_turn to continue."
    );
    let names: Vec<&str> = tool.parameters.iter().map(|parameter| parameter.name.as_str()).collect();
    assert_eq!(names, vec!["start_turn", "end_turn"]);
    assert!(!tool.strict && tool.required.is_empty() && !tool.additional_properties);
}

#[test]
fn the_tool_takes_function_arguments() {
    let payload = ToolPayload::Function { arguments: "{}".to_string() };
    assert_eq!(WorkingMemoryHandler.arguments(&payload).unwrap(), "{}");
    match WorkingMemoryHandler.arguments(&ToolPayload::Other) {
        Err(FunctionCallError::RespondToModel(text)) => assert_eq!(text, "Expected function arguments"),
        Ok(_) => panic!("no arguments"),
    }
}

#[test]
fn the_tool_replies() {
    let output = WorkingMemoryHandler.reply(Ok("text".to_string())).unwrap();
    assert_eq!(output.text, "text");
    assert_eq!(output.success, Some(true));
    match WorkingMemoryHandler.reply(Err("no".to_string())) {
        Err(FunctionCallError::RespondToModel(text)) => assert_eq!(text, "Working memory: no"),
        Ok(_) => panic!("a reply"),
    }
}

fn message(role: &str, text: &str) -> ResponseItem {
    let content =
        vec![ContentItem { body: ContentBody::InputText(text.to_string()), contextual: false }];
    ResponseItem {
        body: ItemBody::Message { role: role.to_string(), content },
        user_authorization: role == "user",
        serialized: Ok(String::new()),
        source: 0,
    }
}

#[test]
fn the_tool_reads_whole_turns() {
    let records = vec![message("system", "s"), message("user", "a"), message("assistant", "b"), message("user", "c")];
    let messages = numbers(4);
    assert_eq!(build_snapshot(&records).len(), 2);
    let enabled = Settings { enabled: true, history_token_budget: 20_000 };
    for request in [args(None, None), args(Some("T001"), None), args(Some("x"), Some("T009"))] {
        assert_eq!(
            WorkingMemoryHandler.run(&Settings::default(), &request, &records, &messages),
            Err(HistoryError::Disabled)
        );
    }
    assert_eq!(
        WorkingMemoryHandler.run(&enabled, &args(Some("T001"), Some("T002")), &records, &messages).unwrap(),
        r#"{"next_start_turn":null,"turns":[{"id":"T001","messages":[2,3]},{"id":"T002","messages":[4]}]}"#
    );
    assert_eq!(
        WorkingMemoryHandler.run(&enabled, &args(None, None), &records, &messages).unwrap(),
        r#"{"latest_turn_id":"T002","total_turns":2}"#
    );
    assert_eq!(
        WorkingMemoryHandler.run(&enabled, &args(Some("T003"), None), &records, &messages),
        Err(HistoryError::BeyondLatest(2))
    );
}
