//! The turns of a conversation, each with a mechanical summary.

use crate::item::{ContentBody, ContentItem, ItemBody, ResponseItem};
use crate::{item, json, strings};
use vstd::prelude::*;
use vstd::string::*;

verus! {

/// How many characters of a user's message the index shows.
pub const USER_CAP: usize = 80;

/// How many characters of an answer the index shows.
pub const ANSWER_CAP: usize = 120;

/// How many characters of a command the index shows.
pub const COMMAND_CAP: usize = 40;

/// One turn of the conversation.
#[derive(Debug)]
pub struct IndexEntry {
    /// The ordinal of the turn's first item, counted from one.
    pub start: usize,
    /// The ordinal of the turn's last item.
    pub end: usize,
    /// The beginning of the user's message.
    pub user: String,
    /// The tools that were called, in the order of their first call, and how
    /// often each.
    pub tools: Vec<(String, usize)>,
    /// The beginning of the latest answer.
    pub answer: String,
}

/// A turn as a mathematical value.
pub struct EntryView {
    pub start: nat,
    pub end: nat,
    pub user: Seq<char>,
    pub tools: Seq<(Seq<char>, nat)>,
    pub answer: Seq<char>,
}

/// The tool counts of an entry as mathematical values.
pub open spec fn tool_counts(tools: Seq<(String, usize)>) -> Seq<(Seq<char>, nat)> {
    Seq::new(tools.len(), |i: int| (tools[i].0@, tools[i].1 as nat))
}

impl View for IndexEntry {
    type V = EntryView;

    open spec fn view(&self) -> EntryView {
        EntryView {
            start: self.start as nat,
            end: self.end as nat,
            user: self.user@,
            tools: tool_counts(self.tools@),
            answer: self.answer@,
        }
    }
}

/// A list of turns as mathematical values.
pub open spec fn entry_views(entries: Seq<IndexEntry>) -> Seq<EntryView> {
    Seq::new(entries.len(), |i: int| entries[i]@)
}

/// The text of a message part, where it is of the kind that `role` writes.
pub open spec fn role_text(part: ContentItem, role: Seq<char>) -> Option<Seq<char>> {
    match part.body {
        ContentBody::InputText(text) => if role == "user"@ {
            Some(text@)
        } else {
            None
        },
        ContentBody::OutputText(text) => if role == "assistant"@ {
            Some(text@)
        } else {
            None
        },
        ContentBody::Other => None,
    }
}

/// The texts of the message parts that `role` writes, in order.
pub open spec fn role_texts(content: Seq<ContentItem>, role: Seq<char>) -> Seq<Seq<char>>
    decreases content.len(),
{
    if content.len() == 0 {
        Seq::empty()
    } else {
        match role_text(content.last(), role) {
            Some(text) => role_texts(content.drop_last(), role).push(text),
            None => role_texts(content.drop_last(), role),
        }
    }
}

/// The first `cap` characters of what `role` wrote, on one line.
pub open spec fn summary_text(content: Seq<ContentItem>, role: Seq<char>, cap: nat) -> Seq<char> {
    strings::truncated(strings::collapsed(strings::joined(role_texts(content, role), " "@)), cap)
}

/// Shortens what `role` wrote to one line of at most `cap` characters.
pub fn summary(content: &[ContentItem], role: &str, cap: usize) -> (line: String)
    ensures
        line@ == summary_text(content@, role@, cap as nat),
{
    let user = strings::same_text(role, "user");
    let assistant = strings::same_text(role, "assistant");
    let mut parts: Vec<String> = Vec::new();
    let mut i: usize = 0;
    assert(strings::texts(parts@) =~= role_texts(content@.take(0), role@));
    while i < content.len()
        invariant
            i <= content@.len(),
            user == (role@ == "user"@),
            assistant == (role@ == "assistant"@),
            strings::texts(parts@) == role_texts(content@.take(i as int), role@),
        decreases content@.len() - i,
    {
        let ghost before = parts@;
        match &content[i].body {
            ContentBody::InputText(text) => {
                if user {
                    parts.push(text.clone());
                    assert(strings::texts(parts@) =~= strings::texts(before).push(text@));
                }
            },
            ContentBody::OutputText(text) => {
                if assistant {
                    parts.push(text.clone());
                    assert(strings::texts(parts@) =~= strings::texts(before).push(text@));
                }
            },
            ContentBody::Other => {},
        }
        i = i + 1;
        proof {
            let now = content@.take(i as int);
            assert(now.drop_last() =~= content@.take(i - 1));
            assert(now.last() == content@[i - 1]);
        }
    }
    assert(content@.take(content@.len() as int) =~= content@);
    let line = strings::collapse_whitespace(strings::join(parts.as_slice(), " ").as_str());
    strings::truncate(line.as_str(), cap)
}

/// The hint that a command gives: the beginning of its text on one line, unless
/// that line is empty.
pub open spec fn hint_of(command: Option<Seq<char>>) -> Option<Seq<char>> {
    match command {
        Some(text) => if strings::collapsed(text).len() > 0 {
            Some(strings::truncated(strings::collapsed(text), COMMAND_CAP as nat))
        } else {
            None
        },
        None => None,
    }
}

/// The hint of the first of three commands that gives one.
pub open spec fn first_hint(
    cmd: Option<Seq<char>>,
    command: Option<Seq<char>>,
    script: Option<Seq<char>>,
) -> Option<Seq<char>> {
    if hint_of(cmd) is Some {
        hint_of(cmd)
    } else if hint_of(command) is Some {
        hint_of(command)
    } else {
        hint_of(script)
    }
}

/// An optional text as a mathematical value.
pub open spec fn text_view(text: Option<&str>) -> Option<Seq<char>> {
    match text {
        Some(inner) => Some(inner@),
        None => None,
    }
}

/// An optional string as a mathematical value.
pub open spec fn string_view(text: Option<String>) -> Option<Seq<char>> {
    match text {
        Some(inner) => Some(inner@),
        None => None,
    }
}

fn hint(command: Option<&str>) -> (hint: Option<String>)
    ensures
        string_view(hint) == hint_of(text_view(command)),
{
    match command {
        Some(text) => {
            let line = strings::collapse_whitespace(text);
            if line.as_str().is_empty() {
                None
            } else {
                Some(strings::truncate(line.as_str(), COMMAND_CAP))
            }
        },
        None => None,
    }
}

/// Picks the hint of the first of the members `cmd`, `command` and `script` that
/// gives one.
pub fn choose_hint(cmd: Option<&str>, command: Option<&str>, script: Option<&str>) -> (chosen:
    Option<String>)
    ensures
        string_view(chosen) == first_hint(text_view(cmd), text_view(command), text_view(script)),
{
    let from_cmd = hint(cmd);
    if from_cmd.is_some() {
        return from_cmd;
    }
    let from_command = hint(command);
    if from_command.is_some() {
        return from_command;
    }
    hint(script)
}

/// The string member `name` of a JSON document.
pub open spec fn string_member(document: serde_json::Value, name: Seq<char>) -> Option<Seq<char>> {
    if json::json_members(document).contains_key(name) {
        json::json_string(json::json_members(document)[name])
    } else {
        None
    }
}

/// The command that a call's arguments hold, shortened.
pub open spec fn command_hint_text(arguments: Seq<char>) -> Option<Seq<char>> {
    match json::json_of_text(arguments) {
        Some(document) => first_hint(
            string_member(document, "cmd"@),
            string_member(document, "command"@),
            string_member(document, "script"@),
        ),
        None => None,
    }
}

fn text_member<'a>(document: &'a serde_json::Value, name: &str) -> (text: Option<&'a str>)
    ensures
        text_view(text) == string_member(*document, name@),
{
    match json::member(document, name) {
        Some(value) => value.as_str(),
        None => None,
    }
}

/// Finds the command in a call's arguments, where they are a JSON object with a
/// string member `cmd`, `command` or `script` that is not blank.
pub fn command_hint(arguments: &str) -> (hint: Option<String>)
    ensures
        string_view(hint) == command_hint_text(arguments@),
{
    match json::parse_text(arguments) {
        Ok(document) => choose_hint(
            text_member(&document, "cmd"),
            text_member(&document, "command"),
            text_member(&document, "script"),
        ),
        Err(_) => None,
    }
}

/// A function call in the index: its name, and the hint in brackets.
pub open spec fn call_text(name: Seq<char>, hint: Option<Seq<char>>) -> Seq<char> {
    match hint {
        Some(inner) => name + "("@ + inner + ")"@,
        None => name,
    }
}

/// Writes a function call for the index.
pub fn describe_call(name: &str, hint: Option<String>) -> (text: String)
    ensures
        text@ == call_text(name@, string_view(hint)),
{
    let mut text = name.to_owned();
    if let Some(inner) = hint {
        text.append("(");
        text.append(inner.as_str());
        text.append(")");
    }
    text
}

/// A shell command in the index.
pub open spec fn shell_text(command: Seq<Seq<char>>) -> Seq<char> {
    "shell("@ + strings::truncated(strings::joined(command, " "@), COMMAND_CAP as nat) + ")"@
}

/// How the index names the tool that an item calls.
pub open spec fn tool_text(item: ResponseItem) -> Option<Seq<char>> {
    match item.body {
        ItemBody::FunctionCall { name, arguments } => Some(
            call_text(name@, command_hint_text(arguments@)),
        ),
        ItemBody::CustomToolCall { name } => Some(name@),
        ItemBody::LocalShellCall { command } => Some(shell_text(strings::texts(command@))),
        _ => None,
    }
}

/// Names the tool that `item` calls, if it calls one.
pub fn tool_summary(item: &ResponseItem) -> (tool: Option<String>)
    ensures
        string_view(tool) == tool_text(*item),
{
    match &item.body {
        ItemBody::FunctionCall { name, arguments } => Some(
            describe_call(name.as_str(), command_hint(arguments.as_str())),
        ),
        ItemBody::CustomToolCall { name } => Some(name.clone()),
        ItemBody::LocalShellCall { command } => {
            let line = strings::join(command.as_slice(), " ");
            let mut text = "shell(".to_owned();
            text.append(strings::truncate(line.as_str(), COMMAND_CAP).as_str());
            text.append(")");
            Some(text)
        },
        _ => None,
    }
}

/// Whether `tools[at]` is the first count of the tool `name`.
pub open spec fn first_count(tools: Seq<(Seq<char>, nat)>, name: Seq<char>, at: int) -> bool {
    &&& 0 <= at < tools.len()
    &&& tools[at].0 == name
    &&& forall|i: int| 0 <= i < at ==> (#[trigger] tools[i]).0 != name
}

/// The counts after one more call of the tool `name`: its count goes up by one,
/// or a count of one is added at the end.
pub open spec fn counted(tools: Seq<(Seq<char>, nat)>, name: Seq<char>) -> Seq<(Seq<char>, nat)> {
    if exists|at: int| first_count(tools, name, at) {
        let at = choose|at: int| first_count(tools, name, at);
        tools.update(at, (name, tools[at].1 + 1))
    } else {
        tools.push((name, 1))
    }
}

/// Counts one more call of `tool`.
pub fn count_tool(tools: &mut Vec<(String, usize)>, tool: String)
    requires
        forall|i: int| 0 <= i < old(tools)@.len() ==> (#[trigger] old(tools)@[i]).1 < usize::MAX,
    ensures
        tool_counts(final(tools)@) == counted(tool_counts(old(tools)@), tool@),
{
    let ghost before = tool_counts(tools@);
    let mut at: usize = 0;
    while at < tools.len()
        invariant
            at <= tools@.len(),
            tools@ == old(tools)@,
            before == tool_counts(tools@),
            forall|i: int| 0 <= i < old(tools)@.len() ==> (#[trigger] old(tools)@[i]).1 < usize::MAX,
            forall|i: int| 0 <= i < at ==> (#[trigger] before[i]).0 != tool@,
        decreases tools@.len() - at,
    {
        if tools[at].0 == tool {
            let count = tools[at].1;
            proof {
                assert(before[at as int].0 == tool@);
                assert(first_count(before, tool@, at as int));
                let chosen = choose|i: int| first_count(before, tool@, i);
                assert(chosen == at) by {
                    if chosen < at {
                        assert(before[chosen].0 != tool@);
                    }
                }
            }
            tools.set(at, (tool, count + 1));
            assert(tool_counts(tools@) =~= counted(before, tool@));
            return;
        }
        at = at + 1;
    }
    assert forall|i: int| !first_count(before, tool@, i) by {
        if first_count(before, tool@, i) {
            assert(before[i].0 != tool@);
        }
    }
    tools.push((tool, 1));
    assert(tool_counts(tools@) =~= counted(before, tool@));
}

/// The turn that a user's message opens as item `ordinal`.
pub open spec fn opened(content: Seq<ContentItem>, ordinal: nat) -> EntryView {
    EntryView {
        start: ordinal,
        end: ordinal,
        user: summary_text(content, "user"@, USER_CAP as nat),
        tools: Seq::empty(),
        answer: Seq::empty(),
    }
}

/// The answer that a turn shows after `item`: a new one where `item` is a message
/// of the assistant that is not blank.
pub open spec fn answer_after(answer: Seq<char>, item: ResponseItem) -> Seq<char> {
    match item.body {
        ItemBody::Message { role, content } => {
            let latest = summary_text(content@, "assistant"@, ANSWER_CAP as nat);
            if role@ == "assistant"@ && latest.len() > 0 {
                latest
            } else {
                answer
            }
        },
        _ => answer,
    }
}

/// A turn after `item` was added to it as item `ordinal`.
pub open spec fn extended(entry: EntryView, item: ResponseItem, ordinal: nat) -> EntryView {
    EntryView {
        start: entry.start,
        end: ordinal,
        user: entry.user,
        tools: match tool_text(item) {
            Some(tool) => counted(entry.tools, tool),
            None => entry.tools,
        },
        answer: answer_after(entry.answer, item),
    }
}

/// The turns after `item` came in as item `ordinal`. A user's message opens a
/// turn; any other item belongs to the latest turn, if there is one.
pub open spec fn turns_after(
    turns: Seq<EntryView>,
    item: ResponseItem,
    ordinal: nat,
) -> Seq<EntryView> {
    if item::opens_turn(item) {
        match item.body {
            ItemBody::Message { role, content } => turns.push(opened(content@, ordinal)),
            _ => turns,
        }
    } else if turns.len() > 0 {
        turns.update(turns.len() - 1, extended(turns.last(), item, ordinal))
    } else {
        turns
    }
}

/// The turns of a conversation.
pub open spec fn snapshot(items: Seq<ResponseItem>) -> Seq<EntryView>
    decreases items.len(),
{
    if items.len() == 0 {
        Seq::empty()
    } else {
        turns_after(snapshot(items.drop_last()), items.last(), items.len())
    }
}

/// Whether no tool of a turn was counted more than `bound` times.
pub open spec fn counts_within(turns: Seq<EntryView>, bound: nat) -> bool {
    forall|t: int, i: int|
        0 <= t < turns.len() && 0 <= i < turns[t].tools.len() ==> (#[trigger] turns[t].tools[i]).1
            <= bound
}

/// No tool is counted more often than there are items.
pub proof fn counts_are_bounded(items: Seq<ResponseItem>)
    ensures
        counts_within(snapshot(items), items.len()),
    decreases items.len(),
{
    if items.len() > 0 {
        let before = snapshot(items.drop_last());
        let now = snapshot(items);
        counts_are_bounded(items.drop_last());
        assert forall|t: int, i: int|
            0 <= t < now.len() && 0 <= i < now[t].tools.len() implies (#[trigger] now[t].tools[i]).1
            <= items.len() by {
            if t < before.len() {
                assert(forall|j: int|
                    0 <= j < before[t].tools.len() ==> (#[trigger] before[t].tools[j]).1
                        <= items.len() - 1);
                if now[t].tools != before[t].tools {
                    let name = tool_text(items.last())->0;
                    assert(now[t].tools == counted(before[t].tools, name));
                }
            }
        }
    }
}

/// Adds `item` to the turn `entry` as item `ordinal`.
pub fn extend_entry(entry: &mut IndexEntry, item: &ResponseItem, ordinal: usize)
    requires
        forall|i: int|
            0 <= i < old(entry).tools@.len() ==> (#[trigger] old(entry).tools@[i]).1 < usize::MAX,
    ensures
        final(entry)@ == extended(old(entry)@, *item, ordinal as nat),
{
    entry.end = ordinal;
    if let Some(tool) = tool_summary(item) {
        count_tool(&mut entry.tools, tool);
    }
    if let ItemBody::Message { role, content } = &item.body {
        if strings::same_text(role.as_str(), "assistant") {
            let answer = summary(content.as_slice(), "assistant", ANSWER_CAP);
            if !answer.as_str().is_empty() {
                entry.answer = answer;
            }
        }
    }
}

/// Divides a conversation into turns.
pub fn build_snapshot(items: &[ResponseItem]) -> (entries: Vec<IndexEntry>)
    ensures
        entry_views(entries@) == snapshot(items@),
{
    let mut entries: Vec<IndexEntry> = Vec::new();
    let mut index: usize = 0;
    assert(entry_views(entries@) =~= snapshot(items@.take(0)));
    while index < items.len()
        invariant
            index <= items@.len(),
            entry_views(entries@) == snapshot(items@.take(index as int)),
        decreases items@.len() - index,
    {
        let item = &items[index];
        let ordinal: usize = index + 1;
        let ghost turns = snapshot(items@.take(index as int));
        proof {
            let now = items@.take(ordinal as int);
            assert(now.drop_last() =~= items@.take(index as int));
            assert(now.last() == *item);
            counts_are_bounded(items@.take(index as int));
        }
        if item::is_turn_start(item) {
            if let ItemBody::Message { content, .. } = &item.body {
                entries.push(
                    IndexEntry {
                        start: ordinal,
                        end: ordinal,
                        user: summary(content.as_slice(), "user", USER_CAP),
                        tools: Vec::new(),
                        answer: String::new(),
                    },
                );
                assert(entries@.last()@.tools =~= Seq::empty());
            }
        } else if let Some(mut entry) = entries.pop() {
            assert(entry@ == turns.last());
            assert forall|i: int| 0 <= i < entry.tools@.len() implies (#[trigger] entry.tools@[i]).1
                < usize::MAX by {
                assert(turns.last().tools[i].1 <= index);
            }
            extend_entry(&mut entry, item, ordinal);
            entries.push(entry);
        }
        assert(entry_views(entries@) =~= turns_after(turns, *item, ordinal as nat));
        index = index + 1;
    }
    assert(items@.take(items@.len() as int) =~= items@);
    entries
}

/// Every turn is a range of the conversation, and a turn ends before the next one
/// starts.
pub proof fn turns_are_ranges(items: Seq<ResponseItem>)
    ensures
        forall|t: int|
            0 <= t < snapshot(items).len() ==> 1 <= (#[trigger] snapshot(items)[t]).start
                <= snapshot(items)[t].end <= items.len(),
        forall|t: int, u: int|
            0 <= t < u < snapshot(items).len() ==> (#[trigger] snapshot(items)[t]).end < (
            #[trigger] snapshot(items)[u]).start,
    decreases items.len(),
{
    if items.len() > 0 {
        let before = snapshot(items.drop_last());
        let now = snapshot(items);
        turns_are_ranges(items.drop_last());
        assert forall|t: int, u: int| 0 <= t < u < now.len() implies (#[trigger] now[t]).end < (
        #[trigger] now[u]).start by {
            assert(t < before.len());
            assert(before[t].end <= items.len() - 1);
            if u < before.len() {
                assert(before[t].end < before[u].start);
            }
        }
    }
}

/// A turn starts with each message by which the user opens one, and nowhere else.
/// From the first turn on each item belongs to exactly one turn: the next turn
/// starts right behind the end of the one before, and the last one ends with the
/// conversation.
pub proof fn turns_tile_the_conversation(items: Seq<ResponseItem>)
    requires
        forall|i: int| 0 <= i < items.len() ==> (#[trigger] items[i]).wf(),
    ensures
        forall|t: int|
            0 <= t < snapshot(items).len() ==> item::opens_turn(
                items[(#[trigger] snapshot(items)[t]).start - 1],
            ),
        forall|i: int|
            0 <= i < items.len() && item::opens_turn(#[trigger] items[i]) ==> exists|t: int|
                0 <= t < snapshot(items).len() && (#[trigger] snapshot(items)[t]).start == i + 1,
        forall|t: int|
            0 <= t < snapshot(items).len() - 1 ==> (#[trigger] snapshot(items)[t]).end + 1
                == snapshot(items)[t + 1].start,
        snapshot(items).len() > 0 ==> snapshot(items).last().end == items.len(),
    decreases items.len(),
{
    if items.len() > 0 {
        let init = items.drop_last();
        let before = snapshot(init);
        let now = snapshot(items);
        assert forall|i: int| 0 <= i < init.len() implies (#[trigger] init[i]).wf() by {
            assert(items[i].wf());
        }
        assert(items[items.len() - 1].wf());
        turns_tile_the_conversation(init);
        turns_are_ranges(init);
        assert forall|t: int| 0 <= t < now.len() implies item::opens_turn(
            items[(#[trigger] now[t]).start - 1],
        ) by {
            if t < before.len() {
                assert(before[t].start == now[t].start);
                assert(init[before[t].start - 1] == items[now[t].start - 1]);
            }
        }
        assert forall|i: int| 0 <= i < items.len() && item::opens_turn(#[trigger] items[i]) implies exists|
            t: int,
        | 0 <= t < now.len() && (#[trigger] now[t]).start == i + 1 by {
            if i < init.len() {
                assert(item::opens_turn(init[i]));
                let t = choose|t: int| 0 <= t < before.len() && (#[trigger] before[t]).start == i + 1;
                assert(now[t].start == i + 1);
            } else {
                assert(now[now.len() - 1].start == i + 1);
            }
        }
        assert forall|t: int| 0 <= t < now.len() - 1 implies (#[trigger] now[t]).end + 1 == now[t
            + 1].start by {
            if t < before.len() - 1 {
                assert(now[t] == before[t]);
                assert(before[t].end + 1 == before[t + 1].start);
            }
        }
    }
}

/// A turn keeps its number, its start and its message for good: what follows can
/// only lengthen the latest turn and open new ones.
pub proof fn turns_are_stable(items: Seq<ResponseItem>, more: Seq<ResponseItem>)
    ensures
        snapshot(items).len() <= snapshot(items + more).len(),
        forall|t: int|
            0 <= t < snapshot(items).len() - 1 ==> #[trigger] snapshot(items + more)[t] == snapshot(
                items,
            )[t],
        forall|t: int|
            0 <= t < snapshot(items).len() ==> {
                &&& (#[trigger] snapshot(items + more)[t]).start == snapshot(items)[t].start
                &&& snapshot(items + more)[t].user == snapshot(items)[t].user
                &&& snapshot(items + more)[t].end >= snapshot(items)[t].end
            },
    decreases more.len(),
{
    if more.len() == 0 {
        assert(items + more =~= items);
    } else {
        let fewer = more.drop_last();
        turns_are_stable(items, fewer);
        turns_are_ranges(items + fewer);
        assert((items + more).drop_last() =~= items + fewer);
        let before = snapshot(items + fewer);
        let now = snapshot(items + more);
        assert(now == turns_after(before, more.last(), (items + more).len()));
        assert forall|t: int| 0 <= t < snapshot(items).len() implies {
            &&& (#[trigger] now[t]).start == snapshot(items)[t].start
            &&& now[t].user == snapshot(items)[t].user
            &&& now[t].end >= snapshot(items)[t].end
        } by {
            assert(before[t].start == snapshot(items)[t].start);
        }
        assert forall|t: int| 0 <= t < snapshot(items).len() - 1 implies #[trigger] now[t]
            == snapshot(items)[t] by {
            assert(before[t] == snapshot(items)[t]);
        }
    }
}

/// A turn lists each tool once, with a positive count.
pub proof fn tools_are_listed_once(items: Seq<ResponseItem>)
    ensures
        forall|t: int, i: int|
            0 <= t < snapshot(items).len() && 0 <= i < snapshot(items)[t].tools.len() ==> (
            #[trigger] snapshot(items)[t].tools[i]).1 >= 1,
        forall|t: int, i: int, j: int|
            0 <= t < snapshot(items).len() && 0 <= i < j < snapshot(items)[t].tools.len() ==> (
            #[trigger] snapshot(items)[t].tools[i]).0 != (#[trigger] snapshot(items)[t].tools[j]).0,
    decreases items.len(),
{
    if items.len() > 0 {
        let before = snapshot(items.drop_last());
        let now = snapshot(items);
        tools_are_listed_once(items.drop_last());
        assert forall|t: int, i: int, j: int|
            0 <= t < now.len() && 0 <= i < j < now[t].tools.len() implies (
        #[trigger] now[t].tools[i]).0 != (#[trigger] now[t].tools[j]).0 by {
            if t < before.len() {
                lemma_counted_names(before[t].tools, items.last());
            }
        }
        assert forall|t: int, i: int| 0 <= t < now.len() && 0 <= i < now[t].tools.len() implies (
        #[trigger] now[t].tools[i]).1 >= 1 by {
            if t < before.len() {
                lemma_counted_names(before[t].tools, items.last());
            }
        }
    }
}

proof fn lemma_counted_names(tools: Seq<(Seq<char>, nat)>, item: ResponseItem)
    requires
        forall|i: int| 0 <= i < tools.len() ==> (#[trigger] tools[i]).1 >= 1,
        forall|i: int, j: int|
            0 <= i < j < tools.len() ==> (#[trigger] tools[i]).0 != (#[trigger] tools[j]).0,
    ensures
        tool_text(item) matches Some(name) ==> {
            let after = counted(tools, name);
            &&& forall|i: int| 0 <= i < after.len() ==> (#[trigger] after[i]).1 >= 1
            &&& forall|i: int, j: int|
                0 <= i < j < after.len() ==> (#[trigger] after[i]).0 != (#[trigger] after[j]).0
        },
{
    if let Some(name) = tool_text(item) {
        let after = counted(tools, name);
        if exists|at: int| first_count(tools, name, at) {
            let at = choose|at: int| first_count(tools, name, at);
            assert(forall|i: int| 0 <= i < after.len() ==> (#[trigger] after[i]).0 == tools[i].0);
        } else {
            assert forall|i: int| 0 <= i < tools.len() implies (#[trigger] tools[i]).0 != name by {
                if tools[i].0 == name {
                    lemma_first_count_exists(tools, name, i);
                }
            }
        }
    }
}

proof fn lemma_first_count_exists(tools: Seq<(Seq<char>, nat)>, name: Seq<char>, at: int)
    requires
        0 <= at < tools.len(),
        tools[at].0 == name,
    ensures
        exists|i: int| first_count(tools, name, i),
    decreases at,
{
    if exists|i: int| 0 <= i < at && (#[trigger] tools[i]).0 == name {
        let i = choose|i: int| 0 <= i < at && (#[trigger] tools[i]).0 == name;
        lemma_first_count_exists(tools, name, i);
    } else {
        assert(first_count(tools, name, at));
    }
}

/// What a turn shows of the user's message and of the answer is on one line and
/// within its limit.
pub proof fn turn_texts_are_short_lines(items: Seq<ResponseItem>)
    ensures
        forall|t: int|
            0 <= t < snapshot(items).len() ==> {
                &&& (#[trigger] snapshot(items)[t]).user.len() <= USER_CAP
                &&& snapshot(items)[t].answer.len() <= ANSWER_CAP
                &&& strings::is_one_line(snapshot(items)[t].user)
                &&& strings::is_one_line(snapshot(items)[t].answer)
            },
    decreases items.len(),
{
    if items.len() > 0 {
        let before = snapshot(items.drop_last());
        turn_texts_are_short_lines(items.drop_last());
        if let ItemBody::Message { role, content } = items.last().body {
            lemma_summary_is_short_line(content@, "user"@, USER_CAP as nat);
            lemma_summary_is_short_line(content@, "assistant"@, ANSWER_CAP as nat);
        }
        if before.len() > 0 {
            assert(before[before.len() - 1].user.len() <= USER_CAP);
        }
    }
}

proof fn lemma_summary_is_short_line(content: Seq<ContentItem>, role: Seq<char>, cap: nat)
    ensures
        summary_text(content, role, cap).len() <= cap,
        strings::is_one_line(summary_text(content, role, cap)),
{
    let line = strings::collapsed(strings::joined(role_texts(content, role), " "@));
    strings::collapsed_is_one_line(strings::joined(role_texts(content, role), " "@));
    assert(forall|i: int|
        0 <= i < summary_text(content, role, cap).len() ==> summary_text(content, role, cap)[i]
            == line[i]);
}

/// A hint is not empty, on one line and within its limit.
pub proof fn hints_are_short_lines(command: Option<Seq<char>>)
    ensures
        hint_of(command) matches Some(hint) ==> {
            &&& 0 < hint.len() <= COMMAND_CAP
            &&& strings::is_one_line(hint)
        },
{
    if let Some(text) = command {
        strings::collapsed_is_one_line(text);
        if let Some(hint) = hint_of(command) {
            assert(forall|i: int| 0 <= i < hint.len() ==> hint[i] == strings::collapsed(text)[i]);
        }
    }
}

/// How many calls a turn's tools have together.
pub open spec fn call_total(tools: Seq<(Seq<char>, nat)>) -> nat
    decreases tools.len(),
{
    if tools.len() == 0 {
        0
    } else {
        call_total(tools.drop_last()) + tools.last().1
    }
}

/// How many of a list of items call a tool.
pub open spec fn calls(items: Seq<ResponseItem>) -> nat
    decreases items.len(),
{
    if items.len() == 0 {
        0
    } else if tool_text(items.last()) is Some {
        calls(items.drop_last()) + 1
    } else {
        calls(items.drop_last())
    }
}

proof fn lemma_total_update(tools: Seq<(Seq<char>, nat)>, at: int, tool: (Seq<char>, nat))
    requires
        0 <= at < tools.len(),
    ensures
        call_total(tools.update(at, tool)) == call_total(tools) - tools[at].1 + tool.1,
    decreases tools.len(),
{
    let after = tools.update(at, tool);
    if at == tools.len() - 1 {
        assert(after.drop_last() =~= tools.drop_last());
    } else {
        assert(after.drop_last() =~= tools.drop_last().update(at, tool));
        lemma_total_update(tools.drop_last(), at, tool);
    }
}

proof fn lemma_total_counted(tools: Seq<(Seq<char>, nat)>, name: Seq<char>)
    ensures
        call_total(counted(tools, name)) == call_total(tools) + 1,
{
    if exists|at: int| first_count(tools, name, at) {
        let at = choose|at: int| first_count(tools, name, at);
        lemma_total_update(tools, at, (name, tools[at].1 + 1));
    } else {
        assert(tools.push((name, 1)).drop_last() =~= tools);
    }
}

/// A turn counts every call of a tool that follows the user's message in it.
pub proof fn every_call_is_counted(items: Seq<ResponseItem>, t: int)
    requires
        forall|i: int| 0 <= i < items.len() ==> (#[trigger] items[i]).wf(),
        0 <= t < snapshot(items).len(),
    ensures
        1 <= snapshot(items)[t].start <= snapshot(items)[t].end <= items.len(),
        call_total(snapshot(items)[t].tools) == calls(
            items.subrange(snapshot(items)[t].start as int, snapshot(items)[t].end as int),
        ),
    decreases items.len(),
{
    turns_are_ranges(items);
    if items.len() > 0 {
        let init = items.drop_last();
        let before = snapshot(init);
        let now = snapshot(items);
        let last = items.last();
        assert forall|i: int| 0 <= i < init.len() implies (#[trigger] init[i]).wf() by {
            assert(items[i].wf());
        }
        assert(items[items.len() - 1].wf());
        turns_are_ranges(init);
        if t < before.len() {
            every_call_is_counted(init, t);
            let start = before[t].start as int;
            let end = before[t].end as int;
            assert(init.subrange(start, end) =~= items.subrange(start, end));
            if now[t] != before[t] {
                turns_tile_the_conversation(init);
                let part = items.subrange(start, items.len() as int);
                assert(part.drop_last() =~= items.subrange(start, end));
                assert(part.last() == last);
                if let Some(name) = tool_text(last) {
                    lemma_total_counted(before[t].tools, name);
                }
            }
        } else {
            let at = now[t].start as int;
            assert(items.subrange(at, at) =~= Seq::empty());
        }
    }
}

/// The tools that a list of items calls, counted one call after the other.
pub open spec fn tallied(items: Seq<ResponseItem>) -> Seq<(Seq<char>, nat)>
    decreases items.len(),
{
    if items.len() == 0 {
        Seq::empty()
    } else {
        match tool_text(items.last()) {
            Some(tool) => counted(tallied(items.drop_last()), tool),
            None => tallied(items.drop_last()),
        }
    }
}

/// Whether `item` is a message of the assistant that is not blank, so that a turn
/// shows it.
pub open spec fn answers(item: ResponseItem) -> bool {
    match item.body {
        ItemBody::Message { role, content } => role@ == "assistant"@ && summary_text(
            content@,
            "assistant"@,
            ANSWER_CAP as nat,
        ).len() > 0,
        _ => false,
    }
}

/// The last answer of the assistant in a list of items that is not blank, shortened;
/// nothing where there is none.
pub open spec fn last_answer(items: Seq<ResponseItem>) -> Seq<char>
    decreases items.len(),
{
    if items.len() == 0 {
        Seq::empty()
    } else if answers(items.last()) {
        summary_text(items.last().body->content@, "assistant"@, ANSWER_CAP as nat)
    } else {
        last_answer(items.drop_last())
    }
}

/// A turn shows the message that opened it, the tools that the items behind that
/// message call, and the last of their answers that is not blank.
pub proof fn turn_summarizes_its_items(items: Seq<ResponseItem>, t: int)
    requires
        forall|i: int| 0 <= i < items.len() ==> (#[trigger] items[i]).wf(),
        0 <= t < snapshot(items).len(),
    ensures
        ({
            let entry = snapshot(items)[t];
            let behind = items.subrange(entry.start as int, entry.end as int);
            &&& 1 <= entry.start <= entry.end <= items.len()
            &&& items[entry.start - 1].body is Message
            &&& entry.user == summary_text(
                items[entry.start - 1].body->content@,
                "user"@,
                USER_CAP as nat,
            )
            &&& entry.tools == tallied(behind)
            &&& entry.answer == last_answer(behind)
        }),
    decreases items.len(),
{
    turns_are_ranges(items);
    if items.len() > 0 {
        let init = items.drop_last();
        let before = snapshot(init);
        let now = snapshot(items);
        let last = items.last();
        assert forall|i: int| 0 <= i < init.len() implies (#[trigger] init[i]).wf() by {
            assert(items[i].wf());
        }
        assert(items[items.len() - 1].wf());
        turns_are_ranges(init);
        if t < before.len() {
            turn_summarizes_its_items(init, t);
            let start = before[t].start as int;
            let end = before[t].end as int;
            assert(init[start - 1] == items[start - 1]);
            assert(init.subrange(start, end) =~= items.subrange(start, end));
            if now[t] != before[t] {
                turns_tile_the_conversation(init);
                let part = items.subrange(start, items.len() as int);
                assert(part.drop_last() =~= items.subrange(start, end));
                assert(part.last() == last);
            }
        } else {
            let at = now[t].start as int;
            assert(items.subrange(at, at) =~= Seq::empty());
        }
    }
}

/// How many of a list of items call the tool `name`.
pub open spec fn calls_of(items: Seq<ResponseItem>, name: Seq<char>) -> nat
    decreases items.len(),
{
    if items.len() == 0 {
        0
    } else if tool_text(items.last()) == Some(name) {
        calls_of(items.drop_last(), name) + 1
    } else {
        calls_of(items.drop_last(), name)
    }
}

/// Whether `items[at]` is the first of a list of items that calls the tool `name`.
pub open spec fn first_call(items: Seq<ResponseItem>, name: Seq<char>, at: int) -> bool {
    &&& 0 <= at < items.len()
    &&& tool_text(items[at]) == Some(name)
    &&& forall|i: int| 0 <= i < at ==> tool_text(#[trigger] items[i]) != Some(name)
}

/// The count of a tool is the number of its calls, every tool that is called is
/// listed, and none is listed twice.
pub proof fn counts_are_calls(items: Seq<ResponseItem>)
    ensures
        forall|i: int|
            0 <= i < tallied(items).len() ==> (#[trigger] tallied(items)[i]).1 == calls_of(
                items,
                tallied(items)[i].0,
            ) && tallied(items)[i].1 >= 1,
        forall|i: int, j: int|
            0 <= i < j < tallied(items).len() ==> (#[trigger] tallied(items)[i]).0 != (
            #[trigger] tallied(items)[j]).0,
        forall|name: Seq<char>|
            #[trigger] calls_of(items, name) > 0 ==> exists|i: int|
                0 <= i < tallied(items).len() && (#[trigger] tallied(items)[i]).0 == name,
    decreases items.len(),
{
    if items.len() > 0 {
        let init = items.drop_last();
        let before = tallied(init);
        let now = tallied(items);
        counts_are_calls(init);
        lemma_counted_names(before, items.last());
        assert forall|name: Seq<char>| #[trigger] calls_of(items, name) > 0 implies exists|i: int|
            0 <= i < now.len() && (#[trigger] now[i]).0 == name by {
            if calls_of(init, name) > 0 {
                let i = choose|i: int| 0 <= i < before.len() && (#[trigger] before[i]).0 == name;
                assert(now[i].0 == name);
            } else {
                assert(tool_text(items.last()) == Some(name));
                if exists|at: int| first_count(before, name, at) {
                    let at = choose|at: int| first_count(before, name, at);
                    assert(now[at].0 == name);
                } else {
                    assert(now[before.len() as int].0 == name);
                }
            }
        }
        assert forall|i: int| 0 <= i < now.len() implies (#[trigger] now[i]).1 == calls_of(
            items,
            now[i].0,
        ) && now[i].1 >= 1 by {
            if let Some(name) = tool_text(items.last()) {
                if exists|at: int| first_count(before, name, at) {
                    let at = choose|at: int| first_count(before, name, at);
                    assert(before[at].1 == calls_of(init, name));
                    assert(before[i].1 == calls_of(init, before[i].0));
                    if i != at {
                        assert(now[i] == before[i]);
                        assert(now[i].0 != now[at].0);
                    }
                } else if i < before.len() {
                    assert(now[i] == before[i]);
                    assert(now[i].0 != now[before.len() as int].0);
                } else if calls_of(init, name) > 0 {
                    let j = choose|j: int| 0 <= j < before.len() && (#[trigger] before[j]).0 == name;
                    lemma_first_count_exists(before, name, j);
                }
            } else {
                assert(before[i].1 == calls_of(init, before[i].0));
            }
        }
    }
}

/// Tools are listed in the order of their first calls.
pub proof fn tools_follow_first_calls(items: Seq<ResponseItem>)
    ensures
        forall|i: int, j: int, a: int, b: int|
            0 <= i < j < tallied(items).len() && #[trigger] first_call(
                items,
                tallied(items)[i].0,
                a,
            ) && #[trigger] first_call(items, tallied(items)[j].0, b) ==> a < b,
    decreases items.len(),
{
    if items.len() > 0 {
        let init = items.drop_last();
        let before = tallied(init);
        let now = tallied(items);
        tools_follow_first_calls(init);
        counts_are_calls(init);
        assert forall|i: int, j: int, a: int, b: int|
            0 <= i < j < now.len() && #[trigger] first_call(items, now[i].0, a)
                && #[trigger] first_call(items, now[j].0, b) implies a < b by {
            assert(i < before.len());
            assert(now[i].0 == before[i].0);
            lemma_first_call_stays(items, before[i].0, a);
            if j < before.len() {
                assert(now[j].0 == before[j].0);
                lemma_first_call_stays(items, before[j].0, b);
            } else {
                let name = now[j].0;
                assert(tool_text(items.last()) == Some(name));
                if b < init.len() {
                    assert(tool_text(init[b]) == Some(name));
                    lemma_call_is_counted(init, name, b);
                    let k = choose|k: int| 0 <= k < before.len() && (#[trigger] before[k]).0 == name;
                    lemma_first_count_exists(before, name, k);
                }
            }
        }
    }
}

proof fn lemma_call_is_counted(items: Seq<ResponseItem>, name: Seq<char>, at: int)
    requires
        0 <= at < items.len(),
        tool_text(items[at]) == Some(name),
    ensures
        calls_of(items, name) > 0,
    decreases items.len(),
{
    if at < items.len() - 1 {
        lemma_call_is_counted(items.drop_last(), name, at);
    }
}

proof fn lemma_counted_call(items: Seq<ResponseItem>, name: Seq<char>) -> (at: int)
    requires
        calls_of(items, name) > 0,
    ensures
        0 <= at < items.len(),
        tool_text(items[at]) == Some(name),
    decreases items.len(),
{
    if tool_text(items.last()) == Some(name) {
        items.len() - 1
    } else {
        lemma_counted_call(items.drop_last(), name)
    }
}

/// The first call of a tool that was called before the last item lies before it.
proof fn lemma_first_call_stays(items: Seq<ResponseItem>, name: Seq<char>, at: int)
    requires
        items.len() > 0,
        first_call(items, name, at),
        exists|i: int|
            0 <= i < tallied(items.drop_last()).len() && (#[trigger] tallied(
                items.drop_last(),
            )[i]).0 == name,
    ensures
        first_call(items.drop_last(), name, at),
{
    let init = items.drop_last();
    counts_are_calls(init);
    let i = choose|i: int| 0 <= i < tallied(init).len() && (#[trigger] tallied(init)[i]).0 == name;
    assert(calls_of(init, name) >= 1);
    let earlier = lemma_counted_call(init, name);
    assert(tool_text(items[earlier]) == Some(name));
    assert(at <= earlier);
    assert forall|k: int| 0 <= k < at implies tool_text(#[trigger] init[k]) != Some(name) by {
        assert(tool_text(items[k]) != Some(name));
    }
}

/// The answer that a turn shows comes from the last of its items that answers.
pub proof fn last_answer_is_the_last(items: Seq<ResponseItem>, at: int)
    requires
        0 <= at < items.len(),
        answers(items[at]),
        forall|i: int| at < i < items.len() ==> !answers(#[trigger] items[i]),
    ensures
        last_answer(items) == summary_text(
            items[at].body->content@,
            "assistant"@,
            ANSWER_CAP as nat,
        ),
    decreases items.len(),
{
    if at < items.len() - 1 {
        last_answer_is_the_last(items.drop_last(), at);
    }
}

/// A summary reads the input texts of a user and the output texts of the assistant,
/// each whole and in order, and nothing else of a message.
pub proof fn summaries_read_every_text_of_their_role(
    before: Seq<ContentItem>,
    part: ContentItem,
    after: Seq<ContentItem>,
    role: Seq<char>,
)
    ensures
        role_texts(Seq::empty(), role) == Seq::<Seq<char>>::empty(),
        role_texts(before.push(part) + after, role) == role_texts(before, role) + (
        match part.body {
            ContentBody::InputText(text) => if role == seq!['u', 's', 'e', 'r'] {
                seq![text@]
            } else {
                Seq::empty()
            },
            ContentBody::OutputText(text) => if role == seq![
                'a',
                's',
                's',
                'i',
                's',
                't',
                'a',
                'n',
                't',
            ] {
                seq![text@]
            } else {
                Seq::empty()
            },
            ContentBody::Other => Seq::empty(),
        }) + role_texts(after, role),
    decreases after.len(),
{
    reveal_strlit("user");
    reveal_strlit("assistant");
    assert("user"@ =~= seq!['u', 's', 'e', 'r']);
    assert("assistant"@ =~= seq!['a', 's', 's', 'i', 's', 't', 'a', 'n', 't']);
    let all = before.push(part) + after;
    if after.len() == 0 {
        assert(all.drop_last() =~= before);
        assert(all.last() == part);
        assert(role_texts(all, role) =~= role_texts(before, role) + (match role_text(part, role) {
            Some(text) => seq![text],
            None => Seq::empty(),
        }) + role_texts(after, role));
    } else {
        summaries_read_every_text_of_their_role(before, part, after.drop_last(), role);
        assert(all.drop_last() =~= before.push(part) + after.drop_last());
        assert(all.last() == after.last());
        assert(role_texts(all, role) =~= role_texts(before, role) + (match role_text(part, role) {
            Some(text) => seq![text],
            None => Seq::empty(),
        }) + role_texts(after, role));
    }
}

/// A summary is the beginning of what was written, on one line: all of it where that
/// is at most `cap` characters long, and otherwise its first `cap` characters.
pub proof fn summaries_are_beginnings(content: Seq<ContentItem>, role: Seq<char>, cap: nat)
    ensures
        ({
            let line = strings::collapsed(strings::joined(role_texts(content, role), seq![' ']));
            &&& summary_text(content, role, cap).is_prefix_of(line)
            &&& summary_text(content, role, cap).len() <= cap
            &&& summary_text(content, role, cap).len() == cap || summary_text(content, role, cap)
                == line
        }),
{
    reveal_strlit(" ");
    assert(" "@ =~= seq![' ']);
}

/// A local shell call is named by its whole command line: between `shell(` and `)`
/// stand all words of the command, the last one too, with a space between neighbours.
/// Only where that is more than forty characters does the rest of it not stand there.
pub proof fn shell_calls_show_the_command_line(item: ResponseItem, command: Vec<String>)
    requires
        item.body == (ItemBody::LocalShellCall { command }),
    ensures
        ({
            let line = strings::joined(command@.map_values(|word: String| word@), seq![' ']);
            &&& tool_text(item) is Some
            &&& tool_text(item)->0.len() == 7 + if line.len() < 40 {
                line.len() as int
            } else {
                40
            }
            &&& tool_text(item)->0.take(6) == seq!['s', 'h', 'e', 'l', 'l', '(']
            &&& tool_text(item)->0.last() == ')'
            &&& tool_text(item)->0.subrange(6, tool_text(item)->0.len() - 1).is_prefix_of(line)
        }),
{
    reveal_strlit(" ");
    reveal_strlit("shell(");
    reveal_strlit(")");
    assert(" "@ =~= seq![' ']);
    assert(command@.map_values(|word: String| word@) =~= strings::texts(command@));
    let line = strings::joined(strings::texts(command@), seq![' ']);
    let shown = strings::truncated(line, 40);
    assert(tool_text(item)->0.take(6) =~= seq!['s', 'h', 'e', 'l', 'l', '(']);
    assert(tool_text(item)->0.subrange(6, tool_text(item)->0.len() - 1) =~= shown);
}

/// Function calls are named by their name, with the hint of their arguments in
/// brackets where there is one, and calls with free-form input by their name alone.
/// Local shell calls are the only other items that call a tool.
pub proof fn calls_are_named(item: ResponseItem)
    ensures
        match item.body {
            ItemBody::FunctionCall { name, arguments } => tool_text(item) == Some(
                match command_hint_text(arguments@) {
                    Some(hint) => name@ + seq!['('] + hint + seq![')'],
                    None => name@,
                },
            ),
            ItemBody::CustomToolCall { name } => tool_text(item) == Some(name@),
            ItemBody::LocalShellCall { command } => tool_text(item) is Some,
            ItemBody::Message { role, content } => tool_text(item) is None,
            ItemBody::AdditionalTools => tool_text(item) is None,
            ItemBody::ConfigurationUpdate => tool_text(item) is None,
            ItemBody::Compaction => tool_text(item) is None,
            ItemBody::ContextCompaction => tool_text(item) is None,
            ItemBody::CompactionTrigger => tool_text(item) is None,
            ItemBody::Other => tool_text(item) is None,
        },
{
    reveal_strlit("(");
    reveal_strlit(")");
    assert("("@ =~= seq!['(']);
    assert(")"@ =~= seq![')']);
}

/// How a call is written for any name and hint: the name, and the whole hint in
/// brackets where there is one.
pub proof fn described_calls_show_name_and_hint(name: Seq<char>, hint: Seq<char>)
    ensures
        call_text(name, None) == name,
        call_text(name, Some(hint)) == name.push('(') + hint.push(')'),
{
    reveal_strlit("(");
    reveal_strlit(")");
    assert(call_text(name, Some(hint)) =~= name.push('(') + hint.push(')'));
}

/// The hint is that of the first of three commands that is there and not blank: the
/// first forty characters of it on one line, or all of it where it is shorter.
pub proof fn the_first_command_gives_the_hint(commands: Seq<Option<Seq<char>>>)
    requires
        commands.len() == 3,
    ensures
        ({
            let hint = first_hint(commands[0], commands[1], commands[2]);
            &&& hint is None ==> forall|k: int|
                0 <= k < 3 ==> ((#[trigger] commands[k]) matches Some(text) ==> strings::collapsed(
                    text,
                ).len() == 0)
            &&& forall|k: int|
                0 <= k < 3 && (#[trigger] commands[k]) is Some && strings::collapsed(
                    commands[k]->0,
                ).len() > 0 && (forall|j: int|
                    0 <= j < k ==> ((#[trigger] commands[j]) matches Some(text)
                        ==> strings::collapsed(text).len() == 0)) ==> {
                    &&& hint is Some
                    &&& hint->0.is_prefix_of(strings::collapsed(commands[k]->0))
                    &&& hint->0.len() <= 40
                    &&& hint->0.len() == 40 || hint->0 == strings::collapsed(commands[k]->0)
                }
        }),
{
    let hint = first_hint(commands[0], commands[1], commands[2]);
    assert forall|k: int|
        0 <= k < 3 && (#[trigger] commands[k]) is Some && strings::collapsed(
            commands[k]->0,
        ).len() > 0 && (forall|j: int|
            0 <= j < k ==> ((#[trigger] commands[j]) matches Some(text) ==> strings::collapsed(
                text,
            ).len() == 0)) implies hint == hint_of(commands[k]) by {
        if k > 0 {
            assert(commands[0] matches Some(text) ==> strings::collapsed(text).len() == 0);
        }
        if k > 1 {
            assert(commands[1] matches Some(text) ==> strings::collapsed(text).len() == 0);
        }
    }
}

/// The commands that a call can hold are the string members `cmd`, `command` and
/// `script` of its arguments, in this order.
pub proof fn hints_come_from_the_arguments(arguments: Seq<char>)
    ensures
        json::json_of_text(arguments) is None ==> command_hint_text(arguments) is None,
        json::json_of_text(arguments) matches Some(document) ==> command_hint_text(arguments) == ({
            let members = json::json_members(document);
            let text = |name: Seq<char>|
                if members.contains_key(name) {
                    json::json_string(members[name])
                } else {
                    None
                };
            first_hint(
                text(seq!['c', 'm', 'd']),
                text(seq!['c', 'o', 'm', 'm', 'a', 'n', 'd']),
                text(seq!['s', 'c', 'r', 'i', 'p', 't']),
            )
        }),
{
    reveal_strlit("cmd");
    reveal_strlit("command");
    reveal_strlit("script");
    assert("cmd"@ =~= seq!['c', 'm', 'd']);
    assert("command"@ =~= seq!['c', 'o', 'm', 'm', 'a', 'n', 'd']);
    assert("script"@ =~= seq!['s', 'c', 'r', 'i', 'p', 't']);
}

/// Counting a call changes one count by one and nothing else: that of the first entry
/// of the tool, or a new one of the tool behind the others.
pub proof fn counting_adds_one(tools: Seq<(Seq<char>, nat)>, name: Seq<char>, at: int)
    ensures
        (forall|i: int| 0 <= i < tools.len() ==> (#[trigger] tools[i]).0 != name) ==> counted(
            tools,
            name,
        ) == tools.push((name, 1)),
        0 <= at < tools.len() && tools[at].0 == name && (forall|i: int|
            0 <= i < at ==> (#[trigger] tools[i]).0 != name) ==> counted(tools, name)
            == tools.update(at, (name, tools[at].1 + 1)),
{
    if forall|i: int| 0 <= i < tools.len() ==> (#[trigger] tools[i]).0 != name {
        assert forall|i: int| !first_count(tools, name, i) by {
            if first_count(tools, name, i) {
                assert(tools[i].0 != name);
            }
        }
    }
    if first_count(tools, name, at) {
        let chosen = choose|i: int| first_count(tools, name, i);
        assert(chosen == at) by {
            if chosen < at {
                assert(tools[chosen].0 != name);
            } else if at < chosen {
                assert(tools[at].0 != name);
            }
        }
    }
}

/// An item that is added to a turn ends it, and leaves its start and its message as
/// they are. The tools change only where the item calls one, and the answer only
/// where it is a message of the assistant.
pub proof fn added_items_change_little(entry: EntryView, item: ResponseItem, ordinal: nat)
    ensures
        extended(entry, item, ordinal).start == entry.start,
        extended(entry, item, ordinal).end == ordinal,
        extended(entry, item, ordinal).user == entry.user,
        extended(entry, item, ordinal).tools == match tool_text(item) {
            Some(tool) => counted(entry.tools, tool),
            None => entry.tools,
        },
        match item.body {
            ItemBody::Message { role, content } => {
                let latest = summary_text(
                    content@,
                    seq!['a', 's', 's', 'i', 's', 't', 'a', 'n', 't'],
                    120,
                );
                let answer = extended(entry, item, ordinal).answer;
                &&& role@ == seq!['a', 's', 's', 'i', 's', 't', 'a', 'n', 't'] && latest.len() > 0
                    ==> answer == latest
                &&& role@ != seq!['a', 's', 's', 'i', 's', 't', 'a', 'n', 't'] || latest.len() == 0
                    ==> answer == entry.answer
            },
            _ => extended(entry, item, ordinal).answer == entry.answer,
        },
{
    reveal_strlit("assistant");
    assert("assistant"@ =~= seq!['a', 's', 's', 'i', 's', 't', 'a', 'n', 't']);
}

proof fn lemma_calls_are_filtered(items: Seq<ResponseItem>, name: Seq<char>)
    ensures
        calls_of(items, name) == items.filter(
            |item: ResponseItem| tool_text(item) == Some(name),
        ).len(),
    decreases items.len(),
{
    reveal(Seq::filter);
    if items.len() > 0 {
        lemma_calls_are_filtered(items.drop_last(), name);
    }
}

proof fn lemma_first_call_of(items: Seq<ResponseItem>, name: Seq<char>, at: int) -> (first: int)
    requires
        0 <= at < items.len(),
        tool_text(items[at]) == Some(name),
    ensures
        first_call(items, name, first),
    decreases at,
{
    if exists|i: int| 0 <= i < at && tool_text(#[trigger] items[i]) == Some(name) {
        let i = choose|i: int| 0 <= i < at && tool_text(#[trigger] items[i]) == Some(name);
        lemma_first_call_of(items, name, i)
    } else {
        at
    }
}

/// A turn shows the first eighty characters of the message that opened it. It lists
/// the tools that the items behind that message call, each once: all of them, with the
/// number of their calls, in the order of their first ones. It shows the first hundred
/// and twenty characters of the last message of the assistant that is not blank, and
/// no answer where there is none.
pub proof fn turns_tell_what_their_items_do(items: Seq<ResponseItem>, t: int)
    requires
        forall|i: int|
            0 <= i < items.len() && (#[trigger] items[i]).user_authorization
                ==> items[i].body is Message,
        0 <= t < snapshot(items).len(),
    ensures
        ({
            let entry = snapshot(items)[t];
            let behind = items.subrange(entry.start as int, entry.end as int);
            let assistant = seq!['a', 's', 's', 'i', 's', 't', 'a', 'n', 't'];
            let answered = |item: ResponseItem|
                item.body is Message && item.body->Message_role@ == assistant && summary_text(
                    item.body->Message_content@,
                    assistant,
                    120,
                ).len() > 0;
            &&& 1 <= entry.start <= entry.end <= items.len()
            &&& items[entry.start - 1].body is Message
            &&& entry.user == summary_text(
                items[entry.start - 1].body->Message_content@,
                seq!['u', 's', 'e', 'r'],
                80,
            )
            &&& forall|i: int|
                0 <= i < entry.tools.len() ==> (#[trigger] entry.tools[i]).1 == behind.filter(
                    |item: ResponseItem| tool_text(item) == Some(entry.tools[i].0),
                ).len() && entry.tools[i].1 >= 1
            &&& forall|k: int|
                0 <= k < behind.len() && tool_text(#[trigger] behind[k]) is Some ==> exists|i: int|
                    0 <= i < entry.tools.len() && (#[trigger] entry.tools[i]).0 == tool_text(
                        behind[k],
                    )->0
            &&& forall|i: int, j: int|
                0 <= i < j < entry.tools.len() ==> (#[trigger] entry.tools[i]).0 != (
                #[trigger] entry.tools[j]).0 && exists|a: int|
                    0 <= a < behind.len() && tool_text(#[trigger] behind[a]) == Some(
                        entry.tools[i].0,
                    ) && (forall|b: int|
                        0 <= b <= a ==> tool_text(#[trigger] behind[b]) != Some(entry.tools[j].0))
            &&& (forall|k: int| 0 <= k < behind.len() ==> !answered(#[trigger] behind[k]))
                ==> entry.answer.len() == 0
            &&& forall|k: int|
                0 <= k < behind.len() && answered(#[trigger] behind[k]) && (forall|j: int|
                    k < j < behind.len() ==> !answered(#[trigger] behind[j])) ==> entry.answer
                    == summary_text(behind[k].body->Message_content@, assistant, 120)
        }),
{
    reveal_strlit("user");
    reveal_strlit("assistant");
    assert("user"@ =~= seq!['u', 's', 'e', 'r']);
    assert("assistant"@ =~= seq!['a', 's', 's', 'i', 's', 't', 'a', 'n', 't']);
    assert forall|i: int| 0 <= i < items.len() implies (#[trigger] items[i]).wf() by {}
    turn_summarizes_its_items(items, t);
    let entry = snapshot(items)[t];
    let behind = items.subrange(entry.start as int, entry.end as int);
    let assistant = seq!['a', 's', 's', 'i', 's', 't', 'a', 'n', 't'];
    let answered = |item: ResponseItem|
        item.body is Message && item.body->Message_role@ == assistant && summary_text(
            item.body->Message_content@,
            assistant,
            120,
        ).len() > 0;
    counts_are_calls(behind);
    tools_follow_first_calls(behind);
    assert forall|i: int| 0 <= i < entry.tools.len() implies (#[trigger] entry.tools[i]).1
        == behind.filter(
        |item: ResponseItem| tool_text(item) == Some(entry.tools[i].0),
    ).len() && entry.tools[i].1 >= 1 by {
        lemma_calls_are_filtered(behind, entry.tools[i].0);
    }
    assert forall|k: int| 0 <= k < behind.len() && tool_text(#[trigger] behind[k]) is Some implies exists|
        i: int,
    |
        0 <= i < entry.tools.len() && (#[trigger] entry.tools[i]).0 == tool_text(behind[k])->0 by {
        lemma_call_is_counted(behind, tool_text(behind[k])->0, k);
    }
    assert forall|i: int, j: int| 0 <= i < j < entry.tools.len() implies (
    #[trigger] entry.tools[i]).0 != (#[trigger] entry.tools[j]).0 && exists|a: int|
        0 <= a < behind.len() && tool_text(#[trigger] behind[a]) == Some(entry.tools[i].0) && (
        forall|b: int|
            0 <= b <= a ==> tool_text(#[trigger] behind[b]) != Some(entry.tools[j].0)) by {
        let one = entry.tools[i].0;
        let other = entry.tools[j].0;
        let called = lemma_counted_call(behind, one);
        let a = lemma_first_call_of(behind, one, called);
        let also_called = lemma_counted_call(behind, other);
        let b = lemma_first_call_of(behind, other, also_called);
        assert(first_call(behind, tallied(behind)[i].0, a));
        assert(first_call(behind, tallied(behind)[j].0, b));
        assert(a < b);
    }
    assert forall|item: ResponseItem| #[trigger] answers(item) == answered(item) by {}
    if forall|k: int| 0 <= k < behind.len() ==> !answered(#[trigger] behind[k]) {
        assert forall|k: int| 0 <= k < behind.len() implies !answers(#[trigger] behind[k]) by {
            assert(!answered(behind[k]));
        }
        lemma_no_answer(behind);
    }
    assert forall|k: int|
        0 <= k < behind.len() && answered(#[trigger] behind[k]) && (forall|j: int|
            k < j < behind.len() ==> !answered(#[trigger] behind[j])) implies entry.answer
        == summary_text(behind[k].body->Message_content@, assistant, 120) by {
        assert forall|j: int| k < j < behind.len() implies !answers(#[trigger] behind[j]) by {
            assert(!answered(behind[j]));
        }
        last_answer_is_the_last(behind, k);
    }
}

proof fn lemma_no_answer(items: Seq<ResponseItem>)
    requires
        forall|k: int| 0 <= k < items.len() ==> !answers(#[trigger] items[k]),
    ensures
        last_answer(items).len() == 0,
    decreases items.len(),
{
    if items.len() > 0 {
        let init = items.drop_last();
        assert(!answers(items[items.len() - 1]));
        assert forall|k: int| 0 <= k < init.len() implies !answers(#[trigger] init[k]) by {
            assert(!answers(items[k]));
        }
        lemma_no_answer(init);
    }
}

/// There are as many turns as messages by which the user opened one.
pub proof fn every_opening_message_makes_a_turn(items: Seq<ResponseItem>)
    requires
        forall|i: int|
            0 <= i < items.len() && (#[trigger] items[i]).user_authorization
                ==> items[i].body is Message,
    ensures
        snapshot(items).len() == items.filter(
            |item: ResponseItem| item.user_authorization && !item::instructs(item),
        ).len(),
    decreases items.len(),
{
    reveal(Seq::filter);
    if items.len() > 0 {
        let init = items.drop_last();
        assert forall|i: int|
            0 <= i < init.len() && (#[trigger] init[i]).user_authorization implies init[i].body is Message by {
            assert(items[i].user_authorization ==> items[i].body is Message);
        }
        assert(items[items.len() - 1].user_authorization
            ==> items[items.len() - 1].body is Message);
        every_opening_message_makes_a_turn(init);
    }
}

/// An item behind a conversation opens a turn, or belongs to the latest turn. It changes
/// nothing where there is no turn yet, nor where the host takes it as the user's
/// authorization though it is no message.
pub proof fn items_change_the_latest_turn_alone(items: Seq<ResponseItem>, item: ResponseItem)
    ensures
        ({
            let before = snapshot(items);
            let after = snapshot(items.push(item));
            let opens = item.user_authorization && !item::instructs(item);
            &&& forall|t: int| 0 <= t < before.len() - 1 ==> #[trigger] after[t] == before[t]
            &&& opens && item.body is Message ==> {
                &&& after.len() == before.len() + 1
                &&& before.is_prefix_of(after)
                &&& after.last().start == items.len() + 1
                &&& after.last().end == items.len() + 1
                &&& after.last().tools.len() == 0
                &&& after.last().answer.len() == 0
            }
            &&& opens && !(item.body is Message) ==> after == before
            &&& !opens ==> after.len() == before.len()
            &&& !opens && before.len() > 0 ==> after.last().start == before.last().start
                && after.last().end == items.len() + 1
        }),
{
    assert(items.push(item).drop_last() =~= items);
    assert(items.push(item).last() == item);
    let before = snapshot(items);
    let after = snapshot(items.push(item));
    assert(after == turns_after(before, item, items.len() + 1));
}

/// The mathematical value of a turn shows each of its fields as it is.
pub proof fn views_show_every_field(entries: Seq<IndexEntry>, at: int, i: int)
    requires
        0 <= at < entries.len(),
    ensures
        entry_views(entries).len() == entries.len(),
        entry_views(entries)[at].start == entries[at].start,
        entry_views(entries)[at].end == entries[at].end,
        entry_views(entries)[at].user == entries[at].user@,
        entry_views(entries)[at].answer == entries[at].answer@,
        entry_views(entries)[at].tools.len() == entries[at].tools@.len(),
        0 <= i < entries[at].tools@.len() ==> {
            &&& entry_views(entries)[at].tools[i].0 == entries[at].tools@[i].0@
            &&& entry_views(entries)[at].tools[i].1 == entries[at].tools@[i].1
        },
{
}

/// The mathematical value of an optional text is that text.
pub proof fn optional_texts_are_shown(text: String, slice: &str)
    ensures
        string_view(Some(text)) == Some(text@),
        string_view(None) is None,
        text_view(Some(slice)) == Some(slice@),
        text_view(None) is None,
{
}

} // verus!
