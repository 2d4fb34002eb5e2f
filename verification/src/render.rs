//! The turn index as text: one line per turn, newest first, within fixed limits.

use crate::snapshot::{EntryView, IndexEntry};
use crate::{snapshot, strings, turn};
use vstd::prelude::*;
use vstd::string::*;

verus! {

/// How many turns the index lists at most.
pub const MAX_LINES: usize = 200;

/// How many bytes the list of turns takes at most.
pub const MAX_BYTES: usize = 16_000;

/// `text`, or a dash where it is empty.
pub open spec fn or_dash(text: Seq<char>) -> Seq<char> {
    if text.len() == 0 {
        "-"@
    } else {
        text
    }
}

/// Whether `text` holds no line break.
pub open spec fn unbroken(text: Seq<char>) -> bool {
    forall|i: int| 0 <= i < text.len() ==> #[trigger] text[i] != '\n'
}

/// The name of a tool on one line: a name with a line break has its white space
/// collapsed, and any other stays as it is.
pub open spec fn on_one_line(name: Seq<char>) -> Seq<char> {
    if unbroken(name) {
        name
    } else {
        strings::collapsed(name)
    }
}

/// A tool on one line with its number of calls, which is left out where it is one.
pub open spec fn tool_label(tool: (Seq<char>, nat)) -> Seq<char> {
    if tool.1 == 1 {
        on_one_line(tool.0)
    } else {
        on_one_line(tool.0) + "x"@ + turn::decimal(tool.1)
    }
}

/// The labels of a turn's tools.
pub open spec fn tool_labels(tools: Seq<(Seq<char>, nat)>) -> Seq<Seq<char>> {
    Seq::new(tools.len(), |i: int| tool_label(tools[i]))
}

/// The part of a line that lists the tools, empty where none was called.
pub open spec fn tools_part(tools: Seq<(Seq<char>, nat)>) -> Seq<char> {
    if tools.len() == 0 {
        Seq::empty()
    } else {
        "; tools: "@ + strings::joined(tool_labels(tools), ", "@)
    }
}

/// The line of the index for turn `number`.
pub open spec fn line_text(number: nat, entry: EntryView) -> Seq<char> {
    turn::turn_id_text(number) + " user: "@ + or_dash(entry.user) + tools_part(entry.tools)
        + "; answer: "@ + or_dash(entry.answer) + "\n"@
}

/// Whether `text` holds no line break.
fn is_unbroken(text: &str) -> (holds: bool)
    ensures
        holds == unbroken(text@),
{
    for c in it: text.chars()
        invariant
            it.seq() == text@,
            unbroken(text@.take(it.index() as int)),
    {
        if c == '\n' {
            assert(text@[it.index() as int] == '\n');
            return false;
        }
        assert(text@.take(it.index() + 1) =~= text@.take(it.index() as int).push(c));
    }
    assert(text@.take(text@.len() as int) =~= text@);
    true
}

fn label(name: &String, count: usize) -> (label: String)
    ensures
        label@ == tool_label((name@, count as nat)),
{
    let mut label = if is_unbroken(name.as_str()) {
        name.as_str().to_owned()
    } else {
        strings::collapse_whitespace(name.as_str())
    };
    if count != 1 {
        label.append("x");
        turn::push_decimal(&mut label, count);
    }
    label
}

fn append_or_dash(line: &mut String, text: &String)
    ensures
        final(line)@ == old(line)@ + or_dash(text@),
{
    if text.as_str().is_empty() {
        line.append("-");
    } else {
        line.append(text.as_str());
    }
}

/// Writes the line of the index for turn `number`.
pub fn index_line(number: usize, entry: &IndexEntry) -> (line: String)
    ensures
        line@ == line_text(number as nat, entry@),
{
    let mut line = turn::turn_id(number);
    line.append(" user: ");
    append_or_dash(&mut line, &entry.user);
    if entry.tools.len() > 0 {
        let mut labels: Vec<String> = Vec::new();
        let mut i: usize = 0;
        while i < entry.tools.len()
            invariant
                i <= entry.tools@.len(),
                labels@.len() == i,
                forall|j: int| 0 <= j < i ==> (#[trigger] labels@[j])@ == tool_label(entry@.tools[j]),
            decreases entry.tools@.len() - i,
        {
            labels.push(label(&entry.tools[i].0, entry.tools[i].1));
            i = i + 1;
        }
        assert(strings::texts(labels@) =~= tool_labels(entry@.tools));
        line.append("; tools: ");
        line.append(strings::join(labels.as_slice(), ", ").as_str());
    }
    line.append("; answer: ");
    append_or_dash(&mut line, &entry.answer);
    line.append("\n");
    assert(line@ =~= line_text(number as nat, entry@));
    line
}

/// The first line of the index.
pub open spec fn header(turns: nat) -> Seq<char> {
    "indexed_turns="@ + turn::decimal(turns) + " (newest first)\n"@
}

/// The lines of the newest `count` turns, newest first.
pub open spec fn newest_lines(turns: Seq<EntryView>, count: nat) -> Seq<char>
    decreases count,
{
    if count == 0 {
        Seq::empty()
    } else {
        newest_lines(turns, (count - 1) as nat) + line_text(
            (turns.len() - count + 1) as nat,
            turns[turns.len() - count],
        )
    }
}

/// Whether the first line and those of the newest `count` turns keep the limit of
/// bytes.
pub open spec fn fits(turns: Seq<EntryView>, count: nat) -> bool {
    strings::byte_len(header(turns.len()) + newest_lines(turns, count)) <= MAX_BYTES
}

/// How many turns are listed, given that the newest `listed` ones are: the next
/// one is as long as the limits allow it.
pub open spec fn listed_from(turns: Seq<EntryView>, listed: nat) -> nat
    decreases turns.len() - listed,
{
    if listed < turns.len() && listed < MAX_LINES && fits(turns, listed + 1) {
        listed_from(turns, listed + 1)
    } else {
        listed
    }
}

/// The line that stands for the turns `1` to `last`, which are not listed.
pub open spec fn older_line(last: nat) -> Seq<char> {
    if last == 0 {
        Seq::empty()
    } else if last == 1 {
        turn::turn_id_text(1) + " (older; use history_read)\n"@
    } else {
        turn::turn_id_text(1) + "-"@ + turn::turn_id_text(last) + " (older; use history_read)\n"@
    }
}

/// The turn index.
pub open spec fn rendered(turns: Seq<EntryView>) -> Seq<char> {
    let listed = listed_from(turns, 0);
    header(turns.len()) + newest_lines(turns, listed) + older_line((turns.len() - listed) as nat)
}

/// Writes the turn index.
pub fn render(entries: &[IndexEntry]) -> (output: String)
    ensures
        output@ == rendered(snapshot::entry_views(entries@)),
{
    let ghost turns = snapshot::entry_views(entries@);
    let mut output = "indexed_turns=".to_owned();
    turn::push_decimal(&mut output, entries.len());
    output.append(" (newest first)\n");
    let mut listed: usize = 0;
    let mut open: bool = true;
    assert(output@ =~= header(turns.len()) + newest_lines(turns, 0));
    while open && listed < entries.len() && listed < MAX_LINES
        invariant
            turns == snapshot::entry_views(entries@),
            listed <= entries@.len(),
            output@ == header(turns.len()) + newest_lines(turns, listed as nat),
            listed_from(turns, 0) == listed_from(turns, listed as nat),
            !open ==> listed_from(turns, 0) == listed,
        decreases entries@.len() - listed, open as int,
    {
        let number: usize = entries.len() - listed;
        let line = index_line(number, &entries[number - 1]);
        let line_bytes = strings::utf8_len(line.as_str());
        let ghost before = output@;
        assert(header(turns.len()) + newest_lines(turns, (listed + 1) as nat) =~= before + line@);
        proof {
            strings::lemma_byte_len_concat(before, line@);
        }
        if line_bytes > MAX_BYTES || strings::utf8_len(output.as_str()) > MAX_BYTES - line_bytes {
            open = false;
        } else {
            output.append(line.as_str());
            listed = listed + 1;
        }
    }
    let last: usize = entries.len() - listed;
    if last > 0 {
        output.append(turn::turn_id(1).as_str());
        if last > 1 {
            output.append("-");
            output.append(turn::turn_id(last).as_str());
        }
        output.append(" (older; use history_read)\n");
    }
    assert(output@ =~= rendered(turns));
    output
}

/// The list of turns is as long as its limits allow: it ends at the limit of
/// lines, with the last turn, or where one more line would be too many bytes.
pub proof fn listing_is_maximal(turns: Seq<EntryView>, listed: nat)
    requires
        listed <= turns.len(),
        listed <= MAX_LINES,
    ensures
        ({
            let total = listed_from(turns, listed);
            &&& listed <= total <= turns.len()
            &&& total <= MAX_LINES
            &&& total > listed ==> fits(turns, total)
            &&& total == turns.len() || total == MAX_LINES || !fits(turns, total + 1)
        }),
    decreases turns.len() - listed,
{
    if listed < turns.len() && listed < MAX_LINES && fits(turns, listed + 1) {
        listing_is_maximal(turns, listed + 1);
    }
}

proof fn lemma_header_bytes(turns: usize)
    ensures
        strings::byte_len(header(turns as nat)) <= 50,
{
    reveal_strlit("indexed_turns=");
    reveal_strlit(" (newest first)\n");
    turn::decimals_are_short(turns);
    vstd::utf8::is_ascii_chars_encode_utf8(header(turns as nat));
}

proof fn lemma_older_bytes(last: usize)
    ensures
        strings::byte_len(older_line(last as nat)) <= 69,
{
    reveal_strlit(" (older; use history_read)\n");
    reveal_strlit("-");
    turn::turn_ids_are_short(1);
    turn::turn_ids_are_short(last);
    vstd::utf8::is_ascii_chars_encode_utf8(older_line(last as nat));
}

/// However long the conversation is, the index is small: it lists at most
/// `MAX_LINES` turns, and with the line about the older ones it takes at most 69
/// bytes more than `MAX_BYTES`.
pub proof fn index_is_bounded(turns: Seq<EntryView>)
    requires
        turns.len() <= usize::MAX,
    ensures
        listed_from(turns, 0) <= MAX_LINES,
        strings::byte_len(rendered(turns)) <= MAX_BYTES + 69,
{
    let listed = listed_from(turns, 0);
    let list = header(turns.len()) + newest_lines(turns, listed);
    listing_is_maximal(turns, 0);
    lemma_header_bytes(turns.len() as usize);
    lemma_older_bytes((turns.len() - listed) as usize);
    strings::lemma_byte_len_concat(list, older_line((turns.len() - listed) as nat));
    if listed == 0 {
        assert(list =~= header(turns.len()));
    }
}

proof fn lemma_unbroken_joined(parts: Seq<Seq<char>>, sep: Seq<char>)
    requires
        forall|i: int| 0 <= i < parts.len() ==> unbroken(#[trigger] parts[i]),
        unbroken(sep),
    ensures
        unbroken(strings::joined(parts, sep)),
    decreases parts.len(),
{
    if parts.len() > 0 {
        assert(unbroken(parts[parts.len() - 1]));
        assert forall|i: int| 0 <= i < parts.drop_last().len() implies unbroken(
            #[trigger] parts.drop_last()[i],
        ) by {
            assert(unbroken(parts[i]));
        }
        lemma_unbroken_joined(parts.drop_last(), sep);
    }
}

proof fn lemma_one_line_is_unbroken(text: Seq<char>)
    requires
        strings::is_one_line(text),
    ensures
        unbroken(text),
{
    assert(strings::is_white('\n'));
}

/// A turn whose message and answer hold no line break takes one line of the index:
/// the line starts with the id of the turn, and its only line break is the last
/// character.
pub proof fn turn_takes_one_line(number: usize, entry: EntryView)
    requires
        unbroken(entry.user),
        unbroken(entry.answer),
        forall|i: int| 0 <= i < entry.tools.len() ==> (#[trigger] entry.tools[i]).1 <= usize::MAX,
    ensures
        turn::turn_id_text(number as nat).is_prefix_of(line_text(number as nat, entry)),
        line_text(number as nat, entry).last() == '\n',
        unbroken(line_text(number as nat, entry).drop_last()),
{
    reveal_strlit(" user: ");
    reveal_strlit("; answer: ");
    reveal_strlit("; tools: ");
    reveal_strlit(", ");
    reveal_strlit("x");
    reveal_strlit("-");
    reveal_strlit("\n");
    turn::turn_ids_are_short(number);
    let labels = tool_labels(entry.tools);
    assert forall|i: int| 0 <= i < labels.len() implies unbroken(#[trigger] labels[i]) by {
        strings::collapsed_is_one_line(entry.tools[i].0);
        lemma_one_line_is_unbroken(strings::collapsed(entry.tools[i].0));
        turn::decimals_are_short(entry.tools[i].1 as usize);
    }
    lemma_unbroken_joined(labels, ", "@);
    let body = turn::turn_id_text(number as nat) + " user: "@ + or_dash(entry.user) + tools_part(
        entry.tools,
    ) + "; answer: "@ + or_dash(entry.answer);
    assert(unbroken(turn::turn_id_text(number as nat)));
    assert(unbroken(tools_part(entry.tools)));
    assert(unbroken(body));
    assert(line_text(number as nat, entry).drop_last() =~= body);
}

/// Each turn of a conversation takes one line of the index.
pub proof fn turns_take_one_line(items: Seq<crate::item::ResponseItem>, t: int, number: usize)
    requires
        items.len() <= usize::MAX,
        0 <= t < snapshot::snapshot(items).len(),
    ensures
        turn::turn_id_text(number as nat).is_prefix_of(
            line_text(number as nat, snapshot::snapshot(items)[t]),
        ),
        line_text(number as nat, snapshot::snapshot(items)[t]).last() == '\n',
        unbroken(line_text(number as nat, snapshot::snapshot(items)[t]).drop_last()),
{
    let entry = snapshot::snapshot(items)[t];
    snapshot::turn_texts_are_short_lines(items);
    snapshot::counts_are_bounded(items);
    lemma_one_line_is_unbroken(entry.user);
    lemma_one_line_is_unbroken(entry.answer);
    turn_takes_one_line(number, entry);
}

/// How many line breaks `text` holds.
pub open spec fn line_breaks(text: Seq<char>) -> nat
    decreases text.len(),
{
    if text.len() == 0 {
        0
    } else if text.last() == '\n' {
        line_breaks(text.drop_last()) + 1
    } else {
        line_breaks(text.drop_last())
    }
}

proof fn lemma_breaks_concat(a: Seq<char>, b: Seq<char>)
    ensures
        line_breaks(a + b) == line_breaks(a) + line_breaks(b),
    decreases b.len(),
{
    if b.len() == 0 {
        assert(a + b =~= a);
    } else {
        assert((a + b).drop_last() =~= a + b.drop_last());
        lemma_breaks_concat(a, b.drop_last());
    }
}

proof fn lemma_unbroken_has_no_breaks(text: Seq<char>)
    requires
        unbroken(text),
    ensures
        line_breaks(text) == 0,
    decreases text.len(),
{
    if text.len() > 0 {
        lemma_unbroken_has_no_breaks(text.drop_last());
    }
}

proof fn lemma_one_break(text: Seq<char>)
    requires
        text.len() > 0,
        text.last() == '\n',
        unbroken(text.drop_last()),
    ensures
        line_breaks(text) == 1,
{
    lemma_unbroken_has_no_breaks(text.drop_last());
}

proof fn lemma_newest_line_breaks(items: Seq<crate::item::ResponseItem>, count: nat)
    requires
        items.len() <= usize::MAX,
        snapshot::snapshot(items).len() <= usize::MAX,
        count <= snapshot::snapshot(items).len(),
    ensures
        line_breaks(newest_lines(snapshot::snapshot(items), count)) == count,
    decreases count,
{
    let turns = snapshot::snapshot(items);
    if count > 0 {
        let fewer = (count - 1) as nat;
        let t = turns.len() - count;
        let line = line_text((t + 1) as nat, turns[t]);
        lemma_newest_line_breaks(items, fewer);
        turns_take_one_line(items, t, (t + 1) as usize);
        turn::turn_ids_are_short((t + 1) as usize);
        lemma_one_break(line);
        lemma_breaks_concat(newest_lines(turns, fewer), line);
    }
}

proof fn lemma_header_breaks(turns: usize)
    ensures
        line_breaks(header(turns as nat)) == 1,
{
    reveal_strlit("indexed_turns=");
    reveal_strlit(" (newest first)\n");
    turn::decimals_are_short(turns);
    lemma_one_break(header(turns as nat));
}

proof fn lemma_older_breaks(last: usize)
    ensures
        line_breaks(older_line(last as nat)) == if last > 0 {
            1int
        } else {
            0
        },
{
    reveal_strlit(" (older; use history_read)\n");
    reveal_strlit("-");
    turn::turn_ids_are_short(1);
    turn::turn_ids_are_short(last);
    if last > 0 {
        lemma_one_break(older_line(last as nat));
    }
}

/// The index of a conversation has its first line, one line for each turn that is
/// listed, and one line more where turns are left out.
pub proof fn index_has_one_line_per_turn(items: Seq<crate::item::ResponseItem>)
    requires
        items.len() <= usize::MAX,
        snapshot::snapshot(items).len() <= usize::MAX,
    ensures
        ({
            let turns = snapshot::snapshot(items);
            let listed = listed_from(turns, 0);
            line_breaks(rendered(turns)) == 1 + listed + if listed < turns.len() {
                1int
            } else {
                0
            }
        }),
{
    let turns = snapshot::snapshot(items);
    let listed = listed_from(turns, 0);
    let last = (turns.len() - listed) as nat;
    let list = header(turns.len()) + newest_lines(turns, listed);
    listing_is_maximal(turns, 0);
    lemma_newest_line_breaks(items, listed);
    lemma_header_breaks(turns.len() as usize);
    lemma_older_breaks(last as usize);
    lemma_breaks_concat(header(turns.len()), newest_lines(turns, listed));
    lemma_breaks_concat(list, older_line(last));
}

/// The line of a turn shows its id, its message, every one of its tools and its answer.
/// The list of tools has one part for each tool, in order: its name, with an `x` and the
/// number of calls where that is not one. A name stays as it is, unless it holds a line
/// break.
pub proof fn lines_name_every_tool(number: nat, entry: EntryView) -> (labels: Seq<Seq<char>>)
    ensures
        labels.len() == entry.tools.len(),
        forall|i: int|
            0 <= i < labels.len() ==> {
                let (name, count) = entry.tools[i];
                let shown = if name.contains('\n') {
                    strings::collapsed(name)
                } else {
                    name
                };
                #[trigger] labels[i] == if count == 1 {
                    shown
                } else {
                    shown.push('x') + turn::decimal(count)
                }
            },
        line_text(number, entry) == turn::turn_id_text(number) + " user: "@ + (
        if entry.user.len() > 0 {
            entry.user
        } else {
            seq!['-']
        }) + (if labels.len() > 0 {
            "; tools: "@ + strings::joined(labels, seq![',', ' '])
        } else {
            Seq::empty()
        }) + "; answer: "@ + (if entry.answer.len() > 0 {
            entry.answer
        } else {
            seq!['-']
        }) + seq!['\n'],
{
    let labels = tool_labels(entry.tools);
    reveal_strlit("-");
    reveal_strlit("x");
    reveal_strlit(", ");
    reveal_strlit("\n");
    assert("-"@ =~= seq!['-']);
    assert(", "@ =~= seq![',', ' ']);
    assert("\n"@ =~= seq!['\n']);
    assert forall|i: int| 0 <= i < labels.len() implies {
        let (name, count) = entry.tools[i];
        let shown = if name.contains('\n') {
            strings::collapsed(name)
        } else {
            name
        };
        #[trigger] labels[i] == if count == 1 {
            shown
        } else {
            shown.push('x') + turn::decimal(count)
        }
    } by {
        let (name, count) = entry.tools[i];
        assert(unbroken(name) <==> !name.contains('\n'));
        assert(on_one_line(name) + "x"@ =~= on_one_line(name).push('x'));
    }
    labels
}

proof fn lemma_newest_lines_flatten(turns: Seq<EntryView>, count: nat)
    requires
        count <= turns.len(),
    ensures
        newest_lines(turns, count) == Seq::new(
            count,
            |i: int| line_text((turns.len() - i) as nat, turns[turns.len() - 1 - i]),
        ).flatten(),
    decreases count,
{
    let lines = Seq::new(
        count,
        |i: int| line_text((turns.len() - i) as nat, turns[turns.len() - 1 - i]),
    );
    if count > 0 {
        let fewer = (count - 1) as nat;
        let before = Seq::new(
            fewer,
            |i: int| line_text((turns.len() - i) as nat, turns[turns.len() - 1 - i]),
        );
        lemma_newest_lines_flatten(turns, fewer);
        assert(lines =~= before.push(lines.last()));
        before.lemma_flatten_push(lines.last());
    } else {
        assert(lines.flatten() =~= Seq::<char>::empty());
    }
}

/// The index says how many turns there are. Then it lists the newest `listed` ones, the
/// newest first and each with its whole line, and names the range of those that are left
/// out. Turns are left out only where two hundred are listed, or where one more line
/// would bring the list above 16000 bytes.
pub proof fn index_lists_the_newest_turns(turns: Seq<EntryView>) -> (listed: nat)
    ensures
        ({
            let total = turns.len();
            let left = total - listed;
            let head = "indexed_turns="@ + turn::decimal(total) + " (newest first)\n"@;
            let list = |count: nat|
                head + Seq::new(
                    count,
                    |i: int| line_text((total - i) as nat, turns[total - 1 - i]),
                ).flatten();
            &&& listed <= total
            &&& listed <= 200
            &&& listed > 0 ==> vstd::utf8::encode_utf8(list(listed)).len() <= 16_000
            &&& listed < total && listed < 200 ==> vstd::utf8::encode_utf8(
                list(listed + 1),
            ).len() > 16_000
            &&& rendered(turns) == list(listed) + (if left == 0 {
                Seq::empty()
            } else if left == 1 {
                turn::turn_id_text(1) + " (older; use history_read)\n"@
            } else {
                turn::turn_id_text(1).push('-') + turn::turn_id_text(left as nat)
                    + " (older; use history_read)\n"@
            })
        }),
{
    let listed = listed_from(turns, 0);
    reveal_strlit("-");
    listing_is_maximal(turns, 0);
    lemma_newest_lines_flatten(turns, listed);
    if listed < turns.len() {
        lemma_newest_lines_flatten(turns, listed + 1);
    }
    assert(turn::turn_id_text(1) + "-"@ =~= turn::turn_id_text(1).push('-'));
    listed
}

} // verus!
