use working_memory::item::{is_instruction, is_turn_start, ContentBody, ContentItem, ItemBody, ResponseItem};
use working_memory::render::{index_line, render};
use working_memory::snapshot::{
    build_snapshot, choose_hint, command_hint, count_tool, describe_call, summary, tool_summary, IndexEntry,
};

fn input(text: &str) -> ContentItem {
    ContentItem { body: ContentBody::InputText(text.to_string()), contextual: false }
}

fn output(text: &str) -> ContentItem {
    ContentItem { body: ContentBody::OutputText(text.to_string()), contextual: false }
}

fn fragment(text: &str) -> ContentItem {
    ContentItem { body: ContentBody::InputText(text.to_string()), contextual: true }
}

fn item(body: ItemBody, user_authorization: bool) -> ResponseItem {
    ResponseItem { body, user_authorization, serialized: Ok("{}".to_string()), source: 0 }
}

fn message(role: &str, content: Vec<ContentItem>) -> ResponseItem {
    let authorization = role == "user";
    item(ItemBody::Message { role: role.to_string(), content }, authorization)
}

fn call(name: &str, arguments: &str) -> ResponseItem {
    item(
        ItemBody::FunctionCall { name: name.to_string(), arguments: arguments.to_string() },
        false,
    )
}

fn shell(command: &[&str]) -> ResponseItem {
    let command = command.iter().map(|part| part.to_string()).collect();
    item(ItemBody::LocalShellCall { command }, false)
}

fn entry(user: &str, tools: &[(&str, usize)], answer: &str) -> IndexEntry {
    IndexEntry {
        start: 1,
        end: 1,
        user: user.to_string(),
        tools: tools.iter().map(|(name, count)| (name.to_string(), *count)).collect(),
        answer: answer.to_string(),
    }
}

#[test]
fn instructions_are_recognised() {
    assert!(is_instruction(&message("system", vec![])));
    assert!(is_instruction(&message("developer", vec![input("x")])));
    assert!(is_instruction(&message("user", vec![fragment("a"), fragment("b")])));
    assert!(!is_instruction(&message("user", vec![fragment("a"), input("b")])));
    assert!(!is_instruction(&message("user", vec![])));
    assert!(!is_instruction(&message("assistant", vec![fragment("a")])));
    assert!(is_instruction(&item(ItemBody::AdditionalTools, false)));
    assert!(is_instruction(&item(ItemBody::ConfigurationUpdate, false)));
    assert!(!is_instruction(&item(ItemBody::Other, false)));
    assert!(!is_instruction(&call("f", "{}")));
}

#[test]
fn turns_start_with_messages_of_the_user() {
    assert!(is_turn_start(&message("user", vec![input("hi")])));
    assert!(!is_turn_start(&message("user", vec![fragment("hi")])));
    assert!(!is_turn_start(&message("assistant", vec![output("hi")])));
    assert!(is_turn_start(&message("user", vec![])));
}

#[test]
fn summaries_take_the_texts_of_their_role() {
    let content = vec![
        input(" fix \n the "),
        output("ignored"),
        ContentItem { body: ContentBody::Other, contextual: false },
        input("bug"),
    ];
    assert_eq!(summary(&content, "user", 80), "fix the bug");
    assert_eq!(summary(&content, "user", 5), "fix t");
    assert_eq!(summary(&content, "assistant", 80), "ignored");
    assert_eq!(summary(&content, "tool", 80), "");
}

#[test]
fn hints_come_from_the_first_command_that_is_not_blank() {
    assert_eq!(choose_hint(Some("ls  -l"), Some("x"), None), Some("ls -l".to_string()));
    assert_eq!(choose_hint(Some(" \n"), Some("cargo\ttest"), None), Some("cargo test".to_string()));
    assert_eq!(choose_hint(None, None, Some("run")), Some("run".to_string()));
    assert_eq!(choose_hint(Some(""), None, Some(" ")), None);
    assert_eq!(choose_hint(Some(&"x".repeat(60)), None, None), Some("x".repeat(40)));
}

#[test]
fn hints_are_read_from_json() {
    assert_eq!(command_hint(r#"{"cmd":"ls \n -l"}"#), Some("ls -l".to_string()));
    assert_eq!(command_hint(r#"{"command":"make","cmd":7}"#), Some("make".to_string()));
    assert_eq!(command_hint(r#"{"script":"a.sh","cmd":""}"#), Some("a.sh".to_string()));
    assert_eq!(command_hint(r#"{"command":["ls"]}"#), None);
    assert_eq!(command_hint(r#"{"other":"ls"}"#), None);
    assert_eq!(command_hint(r#"["cmd"]"#), None);
    assert_eq!(command_hint("not json"), None);
    assert_eq!(command_hint(""), None);
}

#[test]
fn tools_are_named() {
    assert_eq!(describe_call("run", Some("ls".to_string())), "run(ls)");
    assert_eq!(describe_call("run", None), "run");
    assert_eq!(tool_summary(&call("exec", r#"{"cmd":"git status"}"#)), Some("exec(git status)".to_string()));
    assert_eq!(tool_summary(&call("plan", "{}")), Some("plan".to_string()));
    assert_eq!(
        tool_summary(&item(ItemBody::CustomToolCall { name: "apply_patch".to_string() }, false)),
        Some("apply_patch".to_string())
    );
    assert_eq!(tool_summary(&shell(&["bash", "-lc", "ls"])), Some("shell(bash -lc ls)".to_string()));
    assert_eq!(tool_summary(&shell(&[&"y".repeat(50)])), Some(format!("shell({})", "y".repeat(40))));
    assert_eq!(tool_summary(&message("user", vec![])), None);
}

#[test]
fn calls_are_counted_by_name() {
    let mut tools = Vec::new();
    for name in ["a", "b", "a", "a"] {
        count_tool(&mut tools, name.to_string());
    }
    assert_eq!(tools, vec![("a".to_string(), 3), ("b".to_string(), 1)]);
}

fn conversation() -> Vec<ResponseItem> {
    vec![
        message("developer", vec![input("rules")]),
        message("assistant", vec![output("before any turn")]),
        message("user", vec![input("first  question")]),
        call("exec", r#"{"cmd":"ls"}"#),
        call("exec", r#"{"cmd":"ls"}"#),
        item(ItemBody::CustomToolCall { name: "patch".to_string() }, false),
        message("assistant", vec![output("draft")]),
        message("assistant", vec![output("final\nanswer")]),
        message("assistant", vec![output("  ")]),
        message("user", vec![fragment("context")]),
        message("user", vec![input("second question")]),
        item(ItemBody::Other, false),
    ]
}

#[test]
fn snapshots_divide_into_turns() {
    let turns = build_snapshot(&conversation());
    assert_eq!(turns.len(), 2);
    assert_eq!((turns[0].start, turns[0].end), (3, 10));
    assert_eq!(turns[0].user, "first question");
    assert_eq!(turns[0].tools, vec![("exec(ls)".to_string(), 2), ("patch".to_string(), 1)]);
    assert_eq!(turns[0].answer, "final answer");
    assert_eq!((turns[1].start, turns[1].end), (11, 12));
    assert_eq!(turns[1].user, "second question");
    assert!(turns[1].tools.is_empty());
    assert_eq!(turns[1].answer, "");
}

#[test]
fn snapshots_shorten_texts() {
    let items = vec![
        message("user", vec![input(&"u".repeat(100))]),
        message("assistant", vec![output(&"a".repeat(200))]),
    ];
    let turns = build_snapshot(&items);
    assert_eq!(turns[0].user, "u".repeat(80));
    assert_eq!(turns[0].answer, "a".repeat(120));
}

#[test]
fn snapshots_skip_authorizations_that_are_no_messages() {
    let items = vec![
        message("user", vec![input("q")]),
        item(ItemBody::Other, true),
        item(ItemBody::Other, false),
        item(ItemBody::Other, true),
    ];
    let turns = build_snapshot(&items);
    assert_eq!(turns.len(), 1);
    assert_eq!((turns[0].start, turns[0].end), (1, 3));
    assert!(build_snapshot(&[]).is_empty());
}

#[test]
fn turns_keep_their_numbers_as_the_conversation_grows() {
    let items = conversation();
    let short = build_snapshot(&items[..5]);
    let long = build_snapshot(&items);
    assert_eq!(short.len(), 1);
    assert_eq!(short[0].start, long[0].start);
    assert_eq!(short[0].user, long[0].user);
    assert!(short[0].end <= long[0].end);
}

#[test]
fn turns_tile_the_items_from_the_first_one_on() {
    let items = conversation();
    let turns = build_snapshot(&items);
    assert_eq!(turns[0].end + 1, turns[1].start);
    assert_eq!(turns[1].end, items.len());
}

#[test]
fn calls_of_a_turn_add_up() {
    let turns = build_snapshot(&conversation());
    let total: usize = turns[0].tools.iter().map(|(_, count)| count).sum();
    assert_eq!(total, 3);
}

#[test]
fn lines_show_a_turn() {
    assert_eq!(
        index_line(3, &entry("do it", &[("ls", 1), ("cat", 2)], "done")),
        "T003 user: do it; tools: ls, catx2; answer: done\n"
    );
    assert_eq!(index_line(12, &entry("", &[], "")), "T012 user: -; answer: -\n");
    assert_eq!(index_line(1, &entry("x", &[("t", 0)], "")), "T001 user: x; tools: tx0; answer: -\n");
}

#[test]
fn tool_names_without_line_breaks_stay_as_they_are() {
    assert_eq!(
        index_line(1, &entry("q", &[("a  b", 1), ("a b", 2), (" c\t", 1)], "r")),
        "T001 user: q; tools: a  b, a bx2,  c\t; answer: r\n"
    );
    let items = vec![message("user", vec![input("q")]), shell(&["echo  hi"])];
    assert_eq!(
        index_line(1, &build_snapshot(&items)[0]),
        "T001 user: q; tools: shell(echo  hi); answer: -\n"
    );
}

#[test]
fn a_turn_takes_one_line() {
    let line = index_line(1, &build_snapshot(&conversation())[0]);
    assert_eq!(line.matches('\n').count(), 1);
    assert!(line.ends_with('\n'));

    let items = vec![
        message("user", vec![input("q\nr")]),
        shell(&["bash", "-lc", "cat <<EOF\n  text\nEOF"]),
        item(ItemBody::CustomToolCall { name: "two\n\nlines".to_string() }, false),
        message("assistant", vec![output("a\r\nb")]),
    ];
    let turns = build_snapshot(&items);
    assert_eq!(turns[0].tools[0].0, "shell(bash -lc cat <<EOF\n  text\nEOF)");
    assert_eq!(
        index_line(1, &turns[0]),
        "T001 user: q r; tools: shell(bash -lc cat <<EOF text EOF), two lines; answer: a b\n"
    );
    assert_eq!(render(&turns).lines().count(), 2);
}

#[test]
fn tools_stand_in_the_order_of_their_first_calls() {
    let items = vec![
        message("user", vec![input("q")]),
        call("b", "{}"),
        call("a", "{}"),
        call("b", "{}"),
    ];
    assert_eq!(build_snapshot(&items)[0].tools, vec![("b".to_string(), 2), ("a".to_string(), 1)]);
}

#[test]
fn the_index_lists_the_newest_turn_first() {
    let entries = vec![entry("a", &[], "b"), entry("c", &[], "d")];
    assert_eq!(
        render(&entries),
        "indexed_turns=2 (newest first)\nT002 user: c; answer: d\nT001 user: a; answer: b\n"
    );
    assert_eq!(render(&[]), "indexed_turns=0 (newest first)\n");
}

#[test]
fn the_index_stops_at_two_hundred_lines() {
    let entries: Vec<IndexEntry> = (0..201).map(|_| entry("a", &[], "b")).collect();
    let text = render(&entries);
    assert_eq!(text.lines().count(), 202);
    assert!(text.starts_with("indexed_turns=201 (newest first)\nT201 user: a"));
    assert!(text.ends_with("T002 user: a; answer: b\nT001 (older; use history_read)\n"));

    let entries: Vec<IndexEntry> = (0..250).map(|_| entry("a", &[], "b")).collect();
    assert!(render(&entries).ends_with("T051 user: a; answer: b\nT001-T050 (older; use history_read)\n"));
}

#[test]
fn the_index_stops_at_its_byte_limit() {
    let entries: Vec<IndexEntry> =
        (0..150).map(|_| entry(&"é".repeat(80), &[], &"€".repeat(120))).collect();
    let text = render(&entries);
    let line = index_line(1, &entries[0]).len();
    let header = "indexed_turns=150 (newest first)\n".len();
    let listed = (16_000 - header) / line;
    assert_eq!(text.lines().count(), listed + 2);
    assert!(text.ends_with(&format!("T001-T{:03} (older; use history_read)\n", 150 - listed)));
    assert!(text.len() <= 16_069);
}

#[test]
fn a_line_that_is_too_long_leaves_the_index_empty() {
    let entries = vec![entry("a", &[(&"n".repeat(16_000), 1)], "b")];
    assert_eq!(render(&entries), "indexed_turns=1 (newest first)\nT001 (older; use history_read)\n");
}

#[test]
fn the_byte_limit_is_inclusive() {
    let header = "indexed_turns=1 (newest first)\n".len();
    let frame = index_line(1, &entry("", &[("", 1)], "")).len();
    let exact = entry("", &[(&"n".repeat(16_000 - header - frame), 1)], "");
    assert_eq!(render(&[exact]).len(), 16_000);
    let above = entry("", &[(&"n".repeat(16_001 - header - frame), 1)], "");
    assert!(render(&[above]).ends_with("T001 (older; use history_read)\n"));
}
