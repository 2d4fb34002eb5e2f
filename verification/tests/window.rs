use working_memory::instructions::WorkingMemoryInstructions;
use working_memory::item::{ContentBody, ContentItem, ItemBody, ResponseItem};
use working_memory::settings::Settings;
use working_memory::tokens::is_countable;
use working_memory::window::{
    begin, charge, finish, historical_items, history_cutoff, insert_index, is_newest_countable, keep_window,
    latest_turn_start, protected_items, remove_compaction, select, try_finish, Preparation, PromptItem,
    WindowError,
};

fn item(source: usize, body: ItemBody, user_authorization: bool, json: &str) -> ResponseItem {
    ResponseItem { body, user_authorization, serialized: Ok(json.to_string()), source }
}

fn message(source: usize, role: &str, text: &str) -> ResponseItem {
    let body = if role == "assistant" {
        ContentBody::OutputText(text.to_string())
    } else {
        ContentBody::InputText(text.to_string())
    };
    let content = vec![ContentItem { body, contextual: false }];
    item(source, ItemBody::Message { role: role.to_string(), content }, role == "user", text)
}

fn other(source: usize, json: &str) -> ResponseItem {
    item(source, ItemBody::Other, false, json)
}

fn sources(items: &[ResponseItem]) -> Vec<usize> {
    items.iter().map(|item| item.source).collect()
}

fn prompt_sources(prompt: &[PromptItem]) -> Vec<Option<usize>> {
    prompt
        .iter()
        .map(|entry| match entry {
            PromptItem::Item(item) => Some(item.source),
            PromptItem::Index(_) => None,
        })
        .collect()
}

fn tokens(text: &str) -> usize {
    tiktoken_rs::o200k_base_singleton().count_ordinary(text).max(1)
}

fn settings(enabled: bool, history_token_budget: i64) -> Settings {
    Settings { enabled, history_token_budget }
}

#[test]
fn compaction_leftovers_are_dropped() {
    let mut items = vec![
        item(0, ItemBody::Compaction, false, "{}"),
        other(1, "{}"),
        item(2, ItemBody::ContextCompaction, false, "{}"),
        item(3, ItemBody::CompactionTrigger, false, "{}"),
        message(4, "user", "hi"),
    ];
    remove_compaction(&mut items);
    assert_eq!(sources(&items), vec![1, 4]);
}

#[test]
fn flags_select_entries() {
    assert_eq!(select(vec!['a', 'b', 'c'], &[true, false, true]), vec!['a', 'c']);
    assert_eq!(select(Vec::<u8>::new(), &[]), Vec::<u8>::new());
}

#[test]
fn instructions_and_the_latest_message_are_protected() {
    let items = vec![
        message(0, "system", "s"),
        message(1, "user", "old"),
        message(2, "assistant", "a"),
        message(3, "user", "new"),
        other(4, "{}"),
        item(5, ItemBody::AdditionalTools, false, "{}"),
    ];
    assert_eq!(latest_turn_start(&items), Some(3));
    let protected = protected_items(&items);
    assert_eq!(protected, vec![true, false, false, true, false, true]);
    let history: Vec<usize> = historical_items(&items, &protected).iter().map(|entry| entry.0).collect();
    assert_eq!(history, vec![1, 2, 4]);
    assert_eq!(sources(&keep_window(items, &protected, 4)), vec![0, 3, 4, 5]);
}

#[test]
fn without_a_message_nothing_is_latest() {
    let items = vec![message(0, "assistant", "a"), message(1, "developer", "d")];
    assert_eq!(latest_turn_start(&items), None);
    assert_eq!(protected_items(&items), vec![false, true]);
}

#[test]
fn charging_stops_at_the_budget() {
    assert_eq!(charge(0, 10, 10), Some(10));
    assert_eq!(charge(4, 10, 7), None);
    assert_eq!(charge(10, 10, 0), None);
    assert_eq!(charge(9, 10, 0), Some(10));
    assert_eq!(charge(0, usize::MAX, usize::MAX), Some(usize::MAX));
}

#[test]
fn the_cutoff_keeps_the_newest_items() {
    let texts = ["the quick brown fox", "jumps", "over the lazy dog", ""];
    let items: Vec<ResponseItem> = texts.iter().enumerate().map(|(i, text)| other(10 + i, text)).collect();
    let list: Vec<(usize, &ResponseItem)> = items.iter().enumerate().map(|(i, item)| (10 + i, item)).collect();
    let costs: Vec<usize> = texts.iter().map(|text| tokens(text)).collect();
    assert_eq!(costs[3], 1);
    assert!(costs[0] > 1);
    let total: usize = costs.iter().sum();
    assert_eq!(history_cutoff(&list, total).unwrap(), 10);
    assert_eq!(history_cutoff(&list, total - 1).unwrap(), 11);
    assert_eq!(history_cutoff(&list, total - costs[0]).unwrap(), 11);
    assert_eq!(history_cutoff(&list, costs[3] + costs[2]).unwrap(), 12);
    assert_eq!(history_cutoff(&list, 1).unwrap(), 13);
    assert_eq!(history_cutoff(&list, 0).unwrap(), 14);
    assert_eq!(history_cutoff(&[], 5).unwrap(), 0);
}

#[test]
fn an_item_that_does_not_fit_hides_the_older_ones() {
    let long = "word ".repeat(50);
    let items = vec![other(0, "a"), other(1, &long), other(2, "b")];
    let list: Vec<(usize, &ResponseItem)> = items.iter().enumerate().collect();
    assert_eq!(history_cutoff(&list, 5).unwrap(), 2);
}

#[test]
fn an_item_that_is_no_json_is_reported_when_it_is_reached() {
    let mut broken = other(0, "");
    broken.serialized = Err("key must be a string".to_string());
    let items = vec![broken, other(1, "a"), other(2, "b")];
    let list: Vec<(usize, &ResponseItem)> = items.iter().enumerate().collect();
    assert_eq!(history_cutoff(&list, 1).unwrap(), 2);
    match history_cutoff(&list, 100) {
        Err(WindowError::Unserializable(reason)) => assert_eq!(reason, "key must be a string"),
        Ok(_) => panic!("the broken item was not reached"),
    }
}

#[test]
fn long_runs_of_white_space_cannot_be_counted() {
    assert!(is_countable(""));
    assert!(is_countable(&" ".repeat(999_998)));
    assert!(!is_countable(&" ".repeat(999_999)));
    assert!(!is_countable(&format!("a{}b", "\u{3000}".repeat(1_000_000))));
    assert!(is_countable(&"a ".repeat(1_000_000)));
}

#[test]
fn only_what_is_counted_has_to_be_countable() {
    let blank = other(0, &" ".repeat(999_999));
    let newest = other(1, "x");
    let list = vec![(0, &blank), (1, &newest)];
    assert!(is_newest_countable(&list[1..], 100));
    assert!(!is_newest_countable(&list, 100));
    assert!(is_newest_countable(&list, 0));
    assert_eq!(history_cutoff(&list, 0).unwrap(), 2);
    assert!(is_newest_countable(&[], 5));
}

#[test]
fn a_larger_budget_keeps_more() {
    let items: Vec<ResponseItem> = (0..6).map(|i| other(i, &"word ".repeat(i + 1))).collect();
    let list: Vec<(usize, &ResponseItem)> = items.iter().enumerate().collect();
    let cutoffs: Vec<usize> = (0..40).map(|budget| history_cutoff(&list, budget).unwrap()).collect();
    assert!(cutoffs.windows(2).all(|pair| pair[1] <= pair[0]));
    assert_eq!((cutoffs[0], cutoffs[39]), (6, 0));
}

#[test]
fn protected_items_are_not_counted() {
    let budget = settings(true, 1_000);
    let input = vec![message(0, "developer", &" ".repeat(999_999))];
    let prompt = try_finish(&budget, input, &[]).unwrap().unwrap();
    assert_eq!(prompt_sources(&prompt), vec![Some(0), None]);
}

#[test]
fn the_longest_countable_run_is_counted() {
    let text = format!("a{}b", " ".repeat(999_998));
    let items = vec![other(7, &text)];
    let list: Vec<(usize, &ResponseItem)> = items.iter().map(|item| (7, item)).collect();
    assert_eq!(history_cutoff(&list, usize::MAX).unwrap(), 7);
    assert_eq!(history_cutoff(&list, 10).unwrap(), 8);
}

#[test]
fn the_index_goes_behind_the_latest_message() {
    let history = vec![message(0, "user", "question")];
    let prompt = insert_index(vec![message(0, "user", "q"), other(1, "{}")], &history);
    assert_eq!(prompt_sources(&prompt), vec![Some(0), None, Some(1)]);
    match &prompt[1] {
        PromptItem::Index(WorkingMemoryInstructions(text)) => {
            assert_eq!(text, "indexed_turns=1 (newest first)\nT001 user: question; answer: -\n")
        }
        PromptItem::Item(_) => panic!("no index"),
    }
    let prompt = insert_index(vec![other(5, "{}")], &history);
    assert_eq!(prompt_sources(&prompt), vec![Some(5), None]);
}

#[test]
fn a_disabled_memory_leaves_the_prompt_alone() {
    let input = vec![item(0, ItemBody::Compaction, false, "{}"), other(1, "{}")];
    match begin(&settings(false, 20_000), input) {
        Preparation::Unchanged(same) => assert_eq!(sources(&same), vec![0, 1]),
        Preparation::NeedsHistory(_) => panic!("the memory is disabled"),
    }
}

fn conversation() -> Vec<ResponseItem> {
    vec![
        message(0, "developer", "rules"),
        item(1, ItemBody::Compaction, false, "{}"),
        message(2, "user", "first"),
        other(3, &"word ".repeat(2000)),
        message(4, "user", "second"),
        other(5, "short"),
        message(6, "system", "more rules"),
    ]
}

fn pending(settings: &Settings) -> Vec<ResponseItem> {
    match begin(settings, conversation()) {
        Preparation::NeedsHistory(pending) => pending,
        Preparation::Unchanged(_) => panic!("the memory is enabled"),
    }
}

#[test]
fn a_prompt_keeps_what_the_budget_allows() {
    let small = settings(true, 1_000);
    assert_eq!(sources(&pending(&small)), vec![0, 2, 3, 4, 5, 6]);
    let prompt = finish(&small, pending(&small), &conversation()).unwrap();
    assert_eq!(prompt_sources(&prompt), vec![Some(0), Some(4), None, Some(5), Some(6)]);

    let large = settings(true, 1_000_000);
    let prompt = finish(&large, pending(&large), &conversation()).unwrap();
    assert_eq!(
        prompt_sources(&prompt),
        vec![Some(0), Some(2), Some(3), Some(4), None, Some(5), Some(6)]
    );
}

#[test]
fn a_prompt_without_history_keeps_its_protected_items() {
    let budget = settings(true, 1_000);
    let prompt = finish(&budget, vec![message(0, "developer", "d"), message(1, "user", "u")], &[]).unwrap();
    assert_eq!(prompt_sources(&prompt), vec![Some(0), Some(1), None]);
}

#[test]
fn prompts_that_cannot_be_counted_are_left() {
    let budget = settings(true, 1_000);
    assert!(try_finish(&budget, vec![other(0, &" ".repeat(999_999))], &[]).is_none());
    let prompt = try_finish(&budget, vec![other(0, "x")], &[]).unwrap().unwrap();
    assert_eq!(prompt_sources(&prompt), vec![Some(0), None]);
}

#[test]
fn the_fragment_describes_itself() {
    let fragment = WorkingMemoryInstructions("INDEX".to_string());
    assert_eq!(fragment.content_kind(), "working_memory.instructions");
    assert_eq!(fragment.role(), "developer");
    assert_eq!(fragment.markers(), ("<working_memory>", "</working_memory>"));
    assert_eq!(WorkingMemoryInstructions::type_markers(), fragment.markers());
    assert_eq!(
        fragment.body(),
        "History is bounded. The turn index is only a summary; use history_read with turn IDs (T001, etc.) for missing details. Never invent missing context or repeat completed work solely because it is outside the window.\nINDEX"
    );
}
