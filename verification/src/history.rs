//! Reading the complete history back, page by page.

use crate::settings::Settings;
use crate::snapshot::{EntryView, IndexEntry};
use crate::turn::TurnIdError;
use crate::{snapshot, strings, turn};
use vstd::prelude::*;
use vstd::string::*;

verus! {

/// How many turns a page holds at most.
pub const MAX_TURNS: usize = 50;

/// How many bytes the answer with a page takes at most.
pub const MAX_PAGE_BYTES: usize = 24_000;

/// Why history cannot be read.
#[derive(Clone, Copy, Debug, PartialEq, Eq, Structural)]
pub enum HistoryError {
    /// The working memory is not in use.
    Disabled,
    /// The conversation is not recorded on this machine.
    NoRollout,
    /// So many records of the conversation cannot be read.
    Malformed(usize),
    /// A turn id cannot be read.
    TurnId(TurnIdError),
    /// The range ends before it starts.
    StartAfterEnd,
    /// The range ends behind the latest turn, which has this number.
    BeyondLatest(usize),
    /// The first turn of the range is too large for a page.
    TurnTooLarge,
}

impl HistoryError {
    /// The message for the model.
    pub open spec fn text(self) -> Seq<char> {
        match self {
            HistoryError::Disabled => "Working memory is disabled"@,
            HistoryError::NoRollout => "Working memory requires a local rollout"@,
            HistoryError::Malformed(errors) => "Rollout has "@ + turn::decimal(errors as nat)
                + " malformed records"@,
            HistoryError::TurnId(error) => error.text(),
            HistoryError::StartAfterEnd => "start_turn must not be after end_turn"@,
            HistoryError::BeyondLatest(latest) => "Latest turn is "@ + turn::turn_id_text(
                latest as nat,
            ),
            HistoryError::TurnTooLarge => "Turn exceeds the 24000-byte output limit"@,
        }
    }

    /// The message for the model.
    pub fn message(&self) -> (message: String)
        ensures
            message@ == self.text(),
    {
        match self {
            HistoryError::Disabled => "Working memory is disabled".to_owned(),
            HistoryError::NoRollout => "Working memory requires a local rollout".to_owned(),
            HistoryError::Malformed(errors) => {
                let mut message = "Rollout has ".to_owned();
                turn::push_decimal(&mut message, *errors);
                message.append(" malformed records");
                message
            },
            HistoryError::TurnId(error) => error.message(),
            HistoryError::StartAfterEnd => "start_turn must not be after end_turn".to_owned(),
            HistoryError::BeyondLatest(latest) => {
                let mut message = "Latest turn is ".to_owned();
                message.append(turn::turn_id(*latest).as_str());
                message
            },
            HistoryError::TurnTooLarge => "Turn exceeds the 24000-byte output limit".to_owned(),
        }
    }
}

/// One record of a conversation on disk, with its item as the host keeps it.
#[derive(Debug)]
pub enum RolloutItem<T> {
    /// An item of the conversation.
    ResponseItem(T),
    /// Anything else.
    Other,
}

/// The items of a conversation on disk, in order.
pub open spec fn responses<T>(records: Seq<RolloutItem<T>>) -> Seq<T>
    decreases records.len(),
{
    if records.len() == 0 {
        Seq::empty()
    } else {
        match records.last() {
            RolloutItem::ResponseItem(item) => responses(records.drop_last()).push(item),
            RolloutItem::Other => responses(records.drop_last()),
        }
    }
}

/// The place where the conversation is recorded, which has to be on this machine.
pub fn local_rollout<P>(path: Option<P>) -> (rollout: Result<P, HistoryError>)
    ensures
        match path {
            Some(found) => rollout == Ok::<P, HistoryError>(found),
            None => rollout == Err::<P, HistoryError>(HistoryError::NoRollout),
        },
{
    match path {
        Some(found) => Ok(found),
        None => Err(HistoryError::NoRollout),
    }
}

/// The items of a conversation on disk, of which `errors` records could not be
/// read. There must be none of those.
pub fn response_items<T>(records: Vec<RolloutItem<T>>, errors: usize) -> (items: Result<
    Vec<T>,
    HistoryError,
>)
    ensures
        errors == 0 ==> items is Ok && items->Ok_0@ == responses(records@),
        errors > 0 ==> items == Err::<Vec<T>, HistoryError>(HistoryError::Malformed(errors)),
{
    if errors > 0 {
        return Err(HistoryError::Malformed(errors));
    }
    let ghost all = records@;
    let mut items: Vec<T> = Vec::new();
    for record in it: records
        invariant
            it.seq() == all,
            items@ == responses(all.take(it.index() as int)),
    {
        proof {
            let now = all.take(it.index() + 1);
            assert(now.drop_last() =~= all.take(it.index() as int));
            assert(now.last() == record);
        }
        if let RolloutItem::ResponseItem(item) = record {
            items.push(item);
        }
    }
    assert(all.take(all.len() as int) =~= all);
    Ok(items)
}

/// Which turns to read.
#[derive(Debug)]
pub struct Args {
    /// The id of the first turn.
    pub start_turn: Option<String>,
    /// The id of the last turn.
    pub end_turn: Option<String>,
}

/// Whether each turn is a range of `len` items.
pub open spec fn ranges_within(turns: Seq<EntryView>, len: nat) -> bool {
    forall|t: int|
        0 <= t < turns.len() ==> 1 <= (#[trigger] turns[t]).start <= turns[t].end <= len
}

/// Turn `number` as JSON, with its messages.
pub open spec fn turn_record(
    turns: Seq<EntryView>,
    messages: Seq<Seq<char>>,
    number: int,
) -> Seq<char> {
    let entry = turns[number - 1];
    "{\"id\":\""@ + turn::turn_id_text(number as nat) + "\",\"messages\":["@ + strings::joined(
        messages.subrange(entry.start - 1, entry.end as int),
        ","@,
    ) + "]}"@
}

/// A turn id as a JSON string, or `null` where there is none.
pub open spec fn id_or_null(number: Option<int>) -> Seq<char> {
    match number {
        Some(inner) => "\""@ + turn::turn_id_text(inner as nat) + "\""@,
        None => "null"@,
    }
}

/// The turn with which to go on behind a page of `count` turns.
pub open spec fn next_start(start: int, end: int, count: nat) -> Option<int> {
    if start + count <= end {
        Some(start + count)
    } else {
        None
    }
}

/// A page as JSON, with the turn with which to go on.
pub open spec fn page_text(records: Seq<Seq<char>>, next: Option<int>) -> Seq<char> {
    "{\"next_start_turn\":"@ + id_or_null(next) + ",\"turns\":["@ + strings::joined(records, ","@)
        + "]}"@
}

/// The first `count` turns from turn `start` on, as JSON.
pub open spec fn turn_records(
    turns: Seq<EntryView>,
    messages: Seq<Seq<char>>,
    start: int,
    count: nat,
) -> Seq<Seq<char>> {
    Seq::new(count, |i: int| turn_record(turns, messages, start + i))
}

/// The answer that holds the first `count` turns of the range from `start` to `end`.
pub open spec fn page_answer(
    turns: Seq<EntryView>,
    messages: Seq<Seq<char>>,
    start: int,
    end: int,
    count: nat,
) -> Seq<char> {
    page_text(turn_records(turns, messages, start, count), next_start(start, end, count))
}

/// How many turns the page from `start` to `end` holds, given that the first `count`
/// are in it: the next one is as long as there are turns left, the limit of turns
/// is kept and the whole answer keeps the limit of bytes.
pub open spec fn page_len_from(
    turns: Seq<EntryView>,
    messages: Seq<Seq<char>>,
    start: int,
    end: int,
    count: nat,
) -> nat
    decreases end - start + 1 - count,
{
    if start + count <= end && count < MAX_TURNS && strings::byte_len(
        page_answer(turns, messages, start, end, count + 1),
    ) <= MAX_PAGE_BYTES {
        page_len_from(turns, messages, start, end, count + 1)
    } else {
        count
    }
}

/// How many turns the page from `start` to `end` holds.
pub open spec fn page_len(
    turns: Seq<EntryView>,
    messages: Seq<Seq<char>>,
    start: int,
    end: int,
) -> nat {
    page_len_from(turns, messages, start, end, 0)
}

/// The number of turns as JSON, with the id of the latest one.
pub open spec fn overview_text(turns: nat) -> Seq<char> {
    "{\"latest_turn_id\":"@ + id_or_null(
        if turns > 0 {
            Some(turns as int)
        } else {
            None
        },
    ) + ",\"total_turns\":"@ + turn::decimal(turns) + "}"@
}

/// Appends a turn id as a JSON string, or `null`.
fn append_id(text: &mut String, number: Option<usize>)
    ensures
        final(text)@ == old(text)@ + id_or_null(
            match number {
                Some(inner) => Some(inner as int),
                None => None,
            },
        ),
{
    let ghost before = text@;
    match number {
        Some(inner) => {
            text.append("\"");
            text.append(turn::turn_id(inner).as_str());
            text.append("\"");
            assert(text@ =~= before + id_or_null(Some(inner as int)));
        },
        None => {
            text.append("null");
        },
    }
}

/// Writes a page with the turn with which to go on.
pub fn write_answer(records: &[String], next: Option<usize>) -> (text: String)
    ensures
        text@ == page_text(
            strings::texts(records@),
            match next {
                Some(number) => Some(number as int),
                None => None,
            },
        ),
{
    let mut text = "{\"next_start_turn\":".to_owned();
    append_id(&mut text, next);
    text.append(",\"turns\":[");
    text.append(strings::join(records, ",").as_str());
    text.append("]}");
    text
}

/// Writes the number of turns and the id of the latest one.
pub fn overview(turns: usize) -> (text: String)
    ensures
        text@ == overview_text(turns as nat),
{
    let mut text = "{\"latest_turn_id\":".to_owned();
    append_id(
        &mut text,
        if turns > 0 {
            Some(turns)
        } else {
            None
        },
    );
    text.append(",\"total_turns\":");
    turn::push_decimal(&mut text, turns);
    text.append("}");
    text
}

/// Writes turn `number` with its messages, which are JSON already.
pub fn write_turn(entries: &[IndexEntry], messages: &[String], number: usize) -> (record: String)
    requires
        1 <= number <= entries@.len(),
        ranges_within(snapshot::entry_views(entries@), messages@.len()),
    ensures
        record@ == turn_record(
            snapshot::entry_views(entries@),
            strings::texts(messages@),
            number as int,
        ),
{
    let entry = &entries[number - 1];
    assert(snapshot::entry_views(entries@)[number - 1] == entry@);
    let part = &messages[entry.start - 1..entry.end];
    assert(strings::texts(part@) =~= strings::texts(messages@).subrange(
        entry.start - 1,
        entry.end as int,
    ));
    let mut record = "{\"id\":\"".to_owned();
    record.append(turn::turn_id(number).as_str());
    record.append("\",\"messages\":[");
    record.append(strings::join(part, ",").as_str());
    record.append("]}");
    record
}

/// The bytes of an answer are those of its frame and those of its turns.
proof fn lemma_answer_bytes(records: Seq<Seq<char>>, next: Option<int>)
    ensures
        strings::byte_len(page_text(records, next)) == strings::byte_len(
            page_text(Seq::empty(), next),
        ) + strings::byte_len(strings::joined(records, ","@)),
{
    let head = "{\"next_start_turn\":"@ + id_or_null(next) + ",\"turns\":["@;
    let body = strings::joined(records, ","@);
    strings::lemma_byte_len_concat(head + body, "]}"@);
    strings::lemma_byte_len_concat(head, body);
    strings::lemma_byte_len_concat(head + Seq::<char>::empty(), "]}"@);
    assert(head + Seq::<char>::empty() =~= head);
    assert(strings::joined(Seq::<Seq<char>>::empty(), ","@) =~= Seq::<char>::empty());
}

proof fn lemma_records_grow(
    turns: Seq<EntryView>,
    messages: Seq<Seq<char>>,
    start: int,
    count: nat,
)
    ensures
        ({
            let records = turn_records(turns, messages, start, count);
            let record = turn_record(turns, messages, start + count);
            let more = turn_records(turns, messages, start, count + 1);
            &&& more == records.push(record)
            &&& strings::byte_len(strings::joined(more, ","@)) == strings::byte_len(
                strings::joined(records, ","@),
            ) + (if count > 0 {
                1int
            } else {
                0
            }) + strings::byte_len(record)
        }),
{
    let records = turn_records(turns, messages, start, count);
    let record = turn_record(turns, messages, start + count);
    let more = turn_records(turns, messages, start, count + 1);
    assert(more =~= records.push(record));
    assert(more.drop_last() =~= records);
    assert(more.last() == record);
    if count > 0 {
        let init = strings::joined(records, ","@);
        reveal_strlit(",");
        strings::lemma_byte_len_concat(init + ","@, record);
        strings::lemma_byte_len_concat(init, ","@);
        vstd::utf8::is_ascii_chars_encode_utf8(","@);
    } else {
        assert(strings::joined(records, ","@) =~= Seq::<char>::empty());
    }
}

/// The turn with which to go on behind a page of `count` turns.
fn following_turn(start: usize, end: usize, count: usize) -> (next: Option<usize>)
    requires
        start <= end,
    ensures
        match next {
            Some(number) => next_start(start as int, end as int, count as nat) == Some(
                number as int,
            ),
            None => next_start(start as int, end as int, count as nat) is None,
        },
{
    if count <= end - start {
        Some(start + count)
    } else {
        None
    }
}

/// Writes the turns of the page from `start` to `end`.
pub fn write_page(entries: &[IndexEntry], messages: &[String], start: usize, end: usize) -> (records:
    Vec<String>)
    requires
        1 <= start <= end <= entries@.len(),
        ranges_within(snapshot::entry_views(entries@), messages@.len()),
    ensures
        ({
            let turns = snapshot::entry_views(entries@);
            let texts = strings::texts(messages@);
            strings::texts(records@) == turn_records(
                turns,
                texts,
                start as int,
                page_len(turns, texts, start as int, end as int),
            )
        }),
{
    let ghost turns = snapshot::entry_views(entries@);
    let ghost texts = strings::texts(messages@);
    let mut records: Vec<String> = Vec::new();
    let mut count: usize = 0;
    let mut bytes: usize = 0;
    assert(strings::texts(records@) =~= turn_records(turns, texts, start as int, 0));
    assert(strings::joined(turn_records(turns, texts, start as int, 0), ","@) =~= Seq::<
        char,
    >::empty());
    while count <= end - start && count < MAX_TURNS
        invariant
            turns == snapshot::entry_views(entries@),
            texts == strings::texts(messages@),
            1 <= start <= end <= entries@.len(),
            ranges_within(turns, messages@.len()),
            count <= end - start + 1,
            strings::texts(records@) == turn_records(turns, texts, start as int, count as nat),
            bytes == strings::byte_len(
                strings::joined(turn_records(turns, texts, start as int, count as nat), ","@),
            ),
            page_len(turns, texts, start as int, end as int) == page_len_from(
                turns,
                texts,
                start as int,
                end as int,
                count as nat,
            ),
        decreases end - start + 1 - count,
    {
        let record = write_turn(entries, messages, start + count);
        let size = strings::utf8_len(record.as_str());
        let frame = strings::utf8_len(
            write_answer(&[], following_turn(start, end, count + 1)).as_str(),
        );
        let comma: usize = if count > 0 {
            1
        } else {
            0
        };
        proof {
            assert(strings::texts(Seq::<String>::empty()) =~= Seq::<Seq<char>>::empty());
            lemma_records_grow(turns, texts, start as int, count as nat);
            lemma_answer_bytes(
                turn_records(turns, texts, start as int, (count + 1) as nat),
                next_start(start as int, end as int, (count + 1) as nat),
            );
        }
        if size > MAX_PAGE_BYTES || frame > MAX_PAGE_BYTES - size || comma > MAX_PAGE_BYTES - size
            - frame || bytes > MAX_PAGE_BYTES - size - frame - comma {
            return records;
        }
        let ghost before = strings::texts(records@);
        bytes = bytes + comma + size;
        records.push(record);
        count = count + 1;
        assert(strings::texts(records@) =~= before.push(record@));
    }
    records
}

/// The turns that a request asks for, out of `total` ones. A missing start is the
/// first turn, a missing end is the start.
pub open spec fn requested(
    start_turn: Option<Seq<char>>,
    end_turn: Option<Seq<char>>,
    total: nat,
) -> Result<(usize, usize), HistoryError> {
    match turn::read_turn_id(
        match start_turn {
            Some(id) => id,
            None => turn::turn_id_text(1),
        },
    ) {
        Err(error) => Err(HistoryError::TurnId(error)),
        Ok(start) => match match end_turn {
            Some(id) => turn::read_turn_id(id),
            None => Ok(start),
        } {
            Err(error) => Err(HistoryError::TurnId(error)),
            Ok(end) => if start > end {
                Err(HistoryError::StartAfterEnd)
            } else if end > total {
                Err(HistoryError::BeyondLatest(total as usize))
            } else {
                Ok((start, end))
            },
        },
    }
}

/// The answer to a request for history. Without a start and an end it is the number
/// of turns, and otherwise a page of the turns that are asked for.
pub open spec fn answer(
    start_turn: Option<Seq<char>>,
    end_turn: Option<Seq<char>>,
    turns: Seq<EntryView>,
    messages: Seq<Seq<char>>,
) -> Result<Seq<char>, HistoryError> {
    if start_turn is None && end_turn is None {
        Ok(overview_text(turns.len()))
    } else {
        match requested(start_turn, end_turn, turns.len()) {
            Err(error) => Err(error),
            Ok((start, end)) => {
                let count = page_len(turns, messages, start as int, end as int);
                if count == 0 {
                    Err(HistoryError::TurnTooLarge)
                } else {
                    Ok(page_answer(turns, messages, start as int, end as int, count))
                }
            },
        }
    }
}

/// Reads which turns a request asks for.
pub fn requested_turns(args: &Args, total: usize) -> (range: Result<(usize, usize), HistoryError>)
    ensures
        range == requested(
            snapshot::string_view(args.start_turn),
            snapshot::string_view(args.end_turn),
            total as nat,
        ),
{
    let start = match &args.start_turn {
        Some(id) => match turn::parse_turn_id(id.as_str()) {
            Ok(number) => number,
            Err(error) => {
                return Err(HistoryError::TurnId(error));
            },
        },
        None => {
            proof {
                turn::turn_id_round_trip(1);
            }
            1
        },
    };
    let end = match &args.end_turn {
        Some(id) => match turn::parse_turn_id(id.as_str()) {
            Ok(number) => number,
            Err(error) => {
                return Err(HistoryError::TurnId(error));
            },
        },
        None => start,
    };
    if start > end {
        return Err(HistoryError::StartAfterEnd);
    }
    if end > total {
        return Err(HistoryError::BeyondLatest(total));
    }
    Ok((start, end))
}

/// Answers a request for history from the turns and from the messages, which are
/// JSON already.
pub fn read_turns(args: &Args, entries: &[IndexEntry], messages: &[String]) -> (text: Result<
    String,
    HistoryError,
>)
    requires
        ranges_within(snapshot::entry_views(entries@), messages@.len()),
    ensures
        match answer(
            snapshot::string_view(args.start_turn),
            snapshot::string_view(args.end_turn),
            snapshot::entry_views(entries@),
            strings::texts(messages@),
        ) {
            Ok(expected) => text is Ok && text->Ok_0@ == expected,
            Err(error) => text == Err::<String, HistoryError>(error),
        },
        (args.start_turn is Some || args.end_turn is Some) && text is Ok ==> strings::byte_len(
            text->Ok_0@,
        ) <= MAX_PAGE_BYTES,
{
    if args.start_turn.is_none() && args.end_turn.is_none() {
        return Ok(overview(entries.len()));
    }
    let (start, end) = match requested_turns(args, entries.len()) {
        Ok(range) => range,
        Err(error) => {
            return Err(error);
        },
    };
    proof {
        lemma_requested(
            snapshot::string_view(args.start_turn),
            snapshot::string_view(args.end_turn),
            entries@.len(),
        );
    }
    let records = write_page(entries, messages, start, end);
    if records.len() == 0 {
        return Err(HistoryError::TurnTooLarge);
    }
    proof {
        page_is_bounded_and_contiguous(
            snapshot::entry_views(entries@),
            strings::texts(messages@),
            start as int,
            end as int,
        );
        assert(records@.len() == strings::texts(records@).len());
    }
    Ok(write_answer(records.as_slice(), following_turn(start, end, records.len())))
}

/// The last turn that is looked at for the page of `count` turns from `start` to
/// `end`: the first that is not in it, where that was tried, or else the last that
/// is.
pub open spec fn last_reached(start: int, end: int, count: nat) -> int {
    if start + count <= end && count < MAX_TURNS {
        start + count
    } else {
        start + count - 1
    }
}

/// Which messages are looked at to answer a request, from the first of the two places
/// up to the second.
pub open spec fn reached(
    start_turn: Option<Seq<char>>,
    end_turn: Option<Seq<char>>,
    turns: Seq<EntryView>,
    messages: Seq<Seq<char>>,
) -> (int, int) {
    if start_turn is None && end_turn is None {
        (0, 0)
    } else {
        match requested(start_turn, end_turn, turns.len()) {
            Err(_) => (0, 0),
            Ok((start, end)) => {
                let count = page_len(turns, messages, start as int, end as int);
                let last = last_reached(start as int, end as int, count);
                (turns[start - 1].start - 1, turns[last - 1].end as int)
            },
        }
    }
}

/// Finds which messages are looked at to answer a request.
pub fn reached_messages(args: &Args, entries: &[IndexEntry], messages: &[String]) -> (places: (
    usize,
    usize,
))
    requires
        ranges_within(snapshot::entry_views(entries@), messages@.len()),
    ensures
        (places.0 as int, places.1 as int) == reached(
            snapshot::string_view(args.start_turn),
            snapshot::string_view(args.end_turn),
            snapshot::entry_views(entries@),
            strings::texts(messages@),
        ),
        places.1 <= messages@.len(),
{
    if args.start_turn.is_none() && args.end_turn.is_none() {
        return (0, 0);
    }
    let (start, end) = match requested_turns(args, entries.len()) {
        Ok(range) => range,
        Err(_) => {
            return (0, 0);
        },
    };
    let ghost turns = snapshot::entry_views(entries@);
    proof {
        lemma_requested(
            snapshot::string_view(args.start_turn),
            snapshot::string_view(args.end_turn),
            entries@.len(),
        );
        page_is_bounded_and_contiguous(
            turns,
            strings::texts(messages@),
            start as int,
            end as int,
        );
    }
    let records = write_page(entries, messages, start, end);
    let count = records.len();
    assert(count == strings::texts(records@).len());
    let last: usize = if count <= end - start && count < MAX_TURNS {
        start + count
    } else {
        start + (count - 1)
    };
    assert(turns[start - 1] == entries@[start - 1]@);
    assert(turns[last - 1] == entries@[last - 1]@);
    (entries[start - 1].start - 1, entries[last - 1].end)
}

proof fn lemma_requested(start_turn: Option<Seq<char>>, end_turn: Option<Seq<char>>, total: nat)
    ensures
        requested(start_turn, end_turn, total) matches Ok((start, end)) ==> 1 <= start <= end
            <= total,
{
}

/// Whether history may be read.
pub fn admit_request(settings: &Settings) -> (admitted: Result<(), HistoryError>)
    ensures
        settings.enabled ==> admitted == Ok::<(), HistoryError>(()),
        !settings.enabled ==> admitted == Err::<(), HistoryError>(HistoryError::Disabled),
{
    if settings.enabled {
        Ok(())
    } else {
        Err(HistoryError::Disabled)
    }
}

proof fn lemma_page_len(
    turns: Seq<EntryView>,
    messages: Seq<Seq<char>>,
    start: int,
    end: int,
    count: nat,
)
    requires
        count <= MAX_TURNS,
        start + count <= end + 1,
    ensures
        ({
            let total = page_len_from(turns, messages, start, end, count);
            &&& count <= total <= MAX_TURNS
            &&& start + total <= end + 1
            &&& total > count ==> strings::byte_len(
                page_answer(turns, messages, start, end, total),
            ) <= MAX_PAGE_BYTES
            &&& total == MAX_TURNS || start + total == end + 1 || strings::byte_len(
                page_answer(turns, messages, start, end, total + 1),
            ) > MAX_PAGE_BYTES
        }),
    decreases end - start + 1 - count,
{
    if start + count <= end && count < MAX_TURNS && strings::byte_len(
        page_answer(turns, messages, start, end, count + 1),
    ) <= MAX_PAGE_BYTES {
        lemma_page_len(turns, messages, start, end, count + 1);
    }
}

/// A page holds at most `MAX_TURNS` turns, and the whole answer takes at most
/// `MAX_PAGE_BYTES` bytes. The turns follow one another from the first one that is
/// asked for. The page ends only with the range, with the limit of turns or where
/// the answer with the next turn would be too many bytes.
pub proof fn page_is_bounded_and_contiguous(
    turns: Seq<EntryView>,
    messages: Seq<Seq<char>>,
    start: int,
    end: int,
)
    requires
        start <= end,
    ensures
        ({
            let count = page_len(turns, messages, start, end);
            let records = turn_records(turns, messages, start, count);
            &&& count <= MAX_TURNS
            &&& count <= end - start + 1
            &&& records.len() == count
            &&& forall|i: int|
                0 <= i < count ==> #[trigger] records[i] == turn_record(turns, messages, start + i)
            &&& count > 0 ==> strings::byte_len(page_answer(turns, messages, start, end, count))
                <= MAX_PAGE_BYTES
            &&& count == MAX_TURNS || count == end - start + 1 || strings::byte_len(
                page_answer(turns, messages, start, end, count + 1),
            ) > MAX_PAGE_BYTES
        }),
{
    lemma_page_len(turns, messages, start, end, 0);
}

/// Whatever range is asked for, an answer takes at most `MAX_PAGE_BYTES` bytes.
pub proof fn answers_are_bounded(
    start_turn: Option<Seq<char>>,
    end_turn: Option<Seq<char>>,
    turns: Seq<EntryView>,
    messages: Seq<Seq<char>>,
)
    requires
        start_turn is Some || end_turn is Some,
    ensures
        answer(start_turn, end_turn, turns, messages) matches Ok(text) ==> strings::byte_len(text)
            <= MAX_PAGE_BYTES,
{
    lemma_requested(start_turn, end_turn, turns.len());
    if let Ok((start, end)) = requested(start_turn, end_turn, turns.len()) {
        page_is_bounded_and_contiguous(turns, messages, start as int, end as int);
    }
}

/// A page fails for its size only where the whole answer with its first turn alone
/// is too large.
pub proof fn only_a_large_turn_fails(
    turns: Seq<EntryView>,
    messages: Seq<Seq<char>>,
    start: int,
    end: int,
)
    requires
        start <= end,
    ensures
        page_len(turns, messages, start, end) == 0 <==> strings::byte_len(
            page_answer(turns, messages, start, end, 1),
        ) > MAX_PAGE_BYTES,
{
    if strings::byte_len(page_answer(turns, messages, start, end, 1)) <= MAX_PAGE_BYTES {
        lemma_page_len(turns, messages, start, end, 1);
    }
}

/// The turns that come in when pages are read one after the other, each from the
/// turn that the one before names as the next.
pub open spec fn followed(
    turns: Seq<EntryView>,
    messages: Seq<Seq<char>>,
    start: int,
    end: int,
) -> Seq<Seq<char>>
    decreases end - start + 1,
{
    let count = page_len(turns, messages, start, end);
    let records = turn_records(turns, messages, start, count);
    match next_start(start, end, count) {
        Some(next) => if count > 0 {
            records + followed(turns, messages, next, end)
        } else {
            records
        },
        None => records,
    }
}

/// Following the next turn from page to page reads every turn of the range once and
/// in order, where none of them is too large to be answered alone.
pub proof fn following_reads_everything(
    turns: Seq<EntryView>,
    messages: Seq<Seq<char>>,
    start: int,
    end: int,
)
    requires
        start <= end + 1,
        forall|number: int|
            start <= number <= end ==> strings::byte_len(
                #[trigger] page_answer(turns, messages, number, end, 1),
            ) <= MAX_PAGE_BYTES,
    ensures
        followed(turns, messages, start, end) == turn_records(
            turns,
            messages,
            start,
            (end - start + 1) as nat,
        ),
    decreases end - start + 1,
{
    let count = page_len(turns, messages, start, end);
    let records = turn_records(turns, messages, start, count);
    let expected = turn_records(turns, messages, start, (end - start + 1) as nat);
    if start <= end {
        page_is_bounded_and_contiguous(turns, messages, start, end);
        only_a_large_turn_fails(turns, messages, start, end);
        assert(strings::byte_len(page_answer(turns, messages, start, end, 1)) <= MAX_PAGE_BYTES);
        let next = start + count;
        if next <= end {
            following_reads_everything(turns, messages, next, end);
            let rest = followed(turns, messages, next, end);
            assert forall|i: int| 0 <= i < expected.len() implies #[trigger] (records + rest)[i]
                == expected[i] by {
                if i >= count {
                    assert(rest[i - count] == turn_record(turns, messages, next + (i - count)));
                }
            }
            assert(followed(turns, messages, start, end) =~= expected);
        } else {
            assert(followed(turns, messages, start, end) =~= expected);
        }
    } else {
        assert(followed(turns, messages, start, end) =~= expected);
    }
}

proof fn lemma_same_page_len(
    turns: Seq<EntryView>,
    messages: Seq<Seq<char>>,
    others: Seq<Seq<char>>,
    start: int,
    end: int,
    count: nat,
)
    requires
        count <= page_len(turns, messages, start, end),
        page_len(turns, messages, start, end) == page_len_from(turns, messages, start, end, count),
        start + count <= end + 1,
        forall|number: int|
            start <= number <= last_reached(start, end, page_len(turns, messages, start, end))
                ==> #[trigger] turn_record(turns, messages, number) == turn_record(
                turns,
                others,
                number,
            ),
    ensures
        page_len_from(turns, others, start, end, count) == page_len(turns, messages, start, end),
    decreases end - start + 1 - count,
{
    if start + count <= end && count < MAX_TURNS {
        let mine = turn_records(turns, messages, start, count + 1);
        let theirs = turn_records(turns, others, start, count + 1);
        assert forall|i: int| 0 <= i < count + 1 implies #[trigger] mine[i] == theirs[i] by {
            assert(turn_record(turns, messages, start + i) == turn_record(turns, others, start + i));
        }
        assert(mine =~= theirs);
        if strings::byte_len(page_answer(turns, messages, start, end, count + 1))
            <= MAX_PAGE_BYTES {
            lemma_page_len(turns, messages, start, end, count + 1);
            lemma_same_page_len(turns, messages, others, start, end, count + 1);
        }
    }
}

/// Messages that are not looked at have no part in the answer.
pub proof fn other_messages_do_not_matter(
    start_turn: Option<Seq<char>>,
    end_turn: Option<Seq<char>>,
    turns: Seq<EntryView>,
    messages: Seq<Seq<char>>,
    others: Seq<Seq<char>>,
)
    requires
        messages.len() == others.len(),
        ranges_within(turns, messages.len()),
        forall|t: int, u: int|
            0 <= t < u < turns.len() ==> (#[trigger] turns[t]).end < (#[trigger] turns[u]).start,
        ({
            let (from, to) = reached(start_turn, end_turn, turns, messages);
            forall|i: int| from <= i < to ==> #[trigger] messages[i] == others[i]
        }),
    ensures
        answer(start_turn, end_turn, turns, others) == answer(
            start_turn,
            end_turn,
            turns,
            messages,
        ),
        reached(start_turn, end_turn, turns, others) == reached(
            start_turn,
            end_turn,
            turns,
            messages,
        ),
{
    lemma_requested(start_turn, end_turn, turns.len());
    if start_turn is Some || end_turn is Some {
        if let Ok((first, final_turn)) = requested(start_turn, end_turn, turns.len()) {
            let start = first as int;
            let end = final_turn as int;
            let count = page_len(turns, messages, start, end);
            let last = last_reached(start, end, count);
            let (from, to) = reached(start_turn, end_turn, turns, messages);
            page_is_bounded_and_contiguous(turns, messages, start, end);
            assert forall|number: int| start <= number <= last implies #[trigger] turn_record(
                turns,
                messages,
                number,
            ) == turn_record(turns, others, number) by {
                let entry = turns[number - 1];
                assert(1 <= entry.start <= entry.end <= messages.len());
                assert(from <= entry.start - 1) by {
                    if number > start {
                        assert(turns[start - 1].end < turns[number - 1].start);
                    }
                }
                assert(entry.end <= to) by {
                    if number < last {
                        assert(turns[number - 1].end < turns[last - 1].start);
                    }
                }
                let mine = messages.subrange(entry.start - 1, entry.end as int);
                let theirs = others.subrange(entry.start - 1, entry.end as int);
                assert forall|i: int| 0 <= i < mine.len() implies #[trigger] mine[i] == theirs[i] by {
                    assert(messages[entry.start - 1 + i] == others[entry.start - 1 + i]);
                }
                assert(mine =~= theirs);
            }
            lemma_same_page_len(turns, messages, others, start, end, 0);
            assert(turn_records(turns, messages, start, count) =~= turn_records(
                turns,
                others,
                start,
                count,
            )) by {
                assert forall|i: int| 0 <= i < count implies #[trigger] turn_records(
                    turns,
                    messages,
                    start,
                    count,
                )[i] == turn_records(turns, others, start, count)[i] by {
                    assert(turn_record(turns, messages, start + i) == turn_record(
                        turns,
                        others,
                        start + i,
                    ));
                }
            }
        }
    }
}

/// An answer with one more turn takes more bytes, so that a page that is ended for
/// its bytes could not have been longer.
pub proof fn longer_pages_take_more_bytes(
    turns: Seq<EntryView>,
    messages: Seq<Seq<char>>,
    start: usize,
    end: usize,
    count: nat,
)
    requires
        start + count <= end,
    ensures
        strings::byte_len(page_answer(turns, messages, start as int, end as int, count))
            < strings::byte_len(page_answer(turns, messages, start as int, end as int, count + 1)),
{
    let fewer = turn_records(turns, messages, start as int, count);
    let more = turn_records(turns, messages, start as int, count + 1);
    let here = next_start(start as int, end as int, count);
    let there = next_start(start as int, end as int, count + 1);
    let number = start + count;
    lemma_records_grow(turns, messages, start as int, count);
    lemma_answer_bytes(fewer, here);
    lemma_answer_bytes(more, there);
    lemma_frame_bytes(here, end);
    lemma_frame_bytes(there, end);
    lemma_record_bytes(turns, messages, number as usize);
}

proof fn lemma_frame_bytes(next: Option<int>, end: usize)
    requires
        next matches Some(number) ==> 0 <= number <= end,
    ensures
        35 <= strings::byte_len(page_text(Seq::empty(), next)) <= 54,
{
    reveal_strlit("{\"next_start_turn\":");
    reveal_strlit(",\"turns\":[");
    reveal_strlit("]}");
    reveal_strlit("null");
    reveal_strlit("\"");
    if let Some(number) = next {
        turn::turn_ids_are_short(number as usize);
    }
    assert(strings::joined(Seq::<Seq<char>>::empty(), ","@) =~= Seq::<char>::empty());
    vstd::utf8::is_ascii_chars_encode_utf8(page_text(Seq::empty(), next));
}

proof fn lemma_record_bytes(turns: Seq<EntryView>, messages: Seq<Seq<char>>, number: usize)
    ensures
        strings::byte_len(turn_record(turns, messages, number as int)) >= 27,
{
    let entry = turns[number - 1];
    let head = "{\"id\":\""@ + turn::turn_id_text(number as nat) + "\",\"messages\":["@;
    let body = strings::joined(messages.subrange(entry.start - 1, entry.end as int), ","@);
    reveal_strlit("{\"id\":\"");
    reveal_strlit("\",\"messages\":[");
    reveal_strlit("]}");
    turn::turn_ids_are_short(number);
    vstd::utf8::is_ascii_chars_encode_utf8(head);
    vstd::utf8::is_ascii_chars_encode_utf8("]}"@);
    strings::lemma_byte_len_concat(head, body);
    strings::lemma_byte_len_concat(head + body, "]}"@);
}

/// The turn that a page names as the next is accepted as the start of the next
/// request, and lies behind the page and within the range.
pub proof fn next_turn_is_accepted(start: usize, end: usize, count: nat, total: usize)
    requires
        1 <= start <= end <= total,
        count > 0,
        next_start(start as int, end as int, count) is Some,
    ensures
        ({
            let next = next_start(start as int, end as int, count)->0;
            &&& start < next <= end
            &&& requested(
                Some(turn::turn_id_text(next as nat)),
                Some(turn::turn_id_text(end as nat)),
                total as nat,
            ) == Ok::<(usize, usize), HistoryError>((next as usize, end))
        }),
{
    let next = next_start(start as int, end as int, count)->0;
    turn::turn_id_round_trip(next as usize);
    turn::turn_id_round_trip(end);
}

/// The id of each turn is accepted as a request for that turn, and the id of a turn
/// that does not exist is answered with the latest one.
pub proof fn every_turn_can_be_requested(number: usize, total: usize)
    requires
        1 <= number,
    ensures
        requested(Some(turn::turn_id_text(number as nat)), None, total as nat) == if number
            <= total {
            Ok::<(usize, usize), HistoryError>((number, number))
        } else {
            Err::<(usize, usize), HistoryError>(HistoryError::BeyondLatest(total))
        },
{
    turn::turn_id_round_trip(number);
}

/// The record of a turn lists every message from the first to the last of the turn, in
/// order and without a gap: as many messages as the turn has items.
pub proof fn records_hold_every_message(
    turns: Seq<EntryView>,
    messages: Seq<Seq<char>>,
    number: int,
) -> (list: Seq<Seq<char>>)
    requires
        1 <= number <= turns.len(),
        1 <= turns[number - 1].start <= turns[number - 1].end <= messages.len(),
    ensures
        list.len() == turns[number - 1].end - turns[number - 1].start + 1,
        forall|i: int|
            0 <= i < list.len() ==> #[trigger] list[i] == messages[turns[number - 1].start - 1 + i],
        turn_record(turns, messages, number) == "{\"id\":\""@ + turn::turn_id_text(number as nat)
            + "\",\"messages\":["@ + strings::joined(list, seq![',']) + "]}"@,
{
    reveal_strlit(",");
    assert(","@ =~= seq![',']);
    messages.subrange(turns[number - 1].start - 1, turns[number - 1].end as int)
}

/// Without a range the answer is the number of turns with the id of the latest one.
/// Otherwise it holds the first `count` turns of the range, each with its whole record,
/// and the id of the next turn where turns of the range are left. Turns are left only
/// behind fifty of them, or where the answer with one more would be above 24000 bytes;
/// where not even the first one fits, that is the error. What is looked at are the
/// messages of these turns and of the one that did not fit.
pub proof fn answers_hold_the_first_turns_of_the_range(
    start_turn: Option<Seq<char>>,
    end_turn: Option<Seq<char>>,
    turns: Seq<EntryView>,
    messages: Seq<Seq<char>>,
) -> (count: nat)
    ensures
        ({
            let given = answer(start_turn, end_turn, turns, messages);
            if start_turn is None && end_turn is None {
                &&& given == Ok::<Seq<char>, HistoryError>(
                    "{\"latest_turn_id\":"@ + (if turns.len() == 0 {
                        "null"@
                    } else {
                        seq!['"'] + turn::turn_id_text(turns.len()) + seq!['"']
                    }) + ",\"total_turns\":"@ + turn::decimal(turns.len()) + "}"@,
                )
                &&& reached(start_turn, end_turn, turns, messages) == (0int, 0int)
            } else {
                match requested(start_turn, end_turn, turns.len()) {
                    Err(error) => {
                        &&& given == Err::<Seq<char>, HistoryError>(error)
                        &&& reached(start_turn, end_turn, turns, messages) == (0int, 0int)
                    },
                    Ok((start, end)) => {
                        let page = |size: nat|
                            "{\"next_start_turn\":"@ + (if start + size <= end {
                                seq!['"'] + turn::turn_id_text((start + size) as nat) + seq!['"']
                            } else {
                                "null"@
                            }) + ",\"turns\":["@ + strings::joined(
                                Seq::new(size, |i: int| turn_record(turns, messages, start + i)),
                                seq![','],
                            ) + "]}"@;
                        let full = count == 50 || start + count == end + 1;
                        &&& count <= 50
                        &&& start + count <= end + 1
                        &&& full || vstd::utf8::encode_utf8(page(count + 1)).len() > 24_000
                        &&& count == 0 ==> given == Err::<Seq<char>, HistoryError>(
                            HistoryError::TurnTooLarge,
                        )
                        &&& count > 0 ==> given == Ok::<Seq<char>, HistoryError>(page(count))
                            && vstd::utf8::encode_utf8(page(count)).len() <= 24_000
                        &&& reached(start_turn, end_turn, turns, messages).0 == turns[start
                            - 1].start - 1
                        &&& reached(start_turn, end_turn, turns, messages).1 == turns[if full {
                            start + count - 2
                        } else {
                            start + count - 1
                        }].end
                    },
                }
            }
        }),
{
    reveal_strlit(",");
    reveal_strlit("\"");
    assert(","@ =~= seq![',']);
    assert("\""@ =~= seq!['"']);
    lemma_requested(start_turn, end_turn, turns.len());
    match requested(start_turn, end_turn, turns.len()) {
        Err(_) => 0,
        Ok((start, end)) => {
            page_is_bounded_and_contiguous(turns, messages, start as int, end as int);
            page_len(turns, messages, start as int, end as int)
        },
    }
}

/// A request is for the turns from the id that it gives as the start, or from the first
/// one, to the id that it gives as the end, or to the start. The first thing that is
/// wrong is reported: the start, the end, their order, and then that there is no such
/// turn.
pub proof fn requests_are_read_in_order(
    start_turn: Option<Seq<char>>,
    end_turn: Option<Seq<char>>,
    total: usize,
)
    ensures
        ({
            let start = match start_turn {
                Some(id) => turn::read_turn_id(id),
                None => Ok(1),
            };
            let end = match end_turn {
                Some(id) => turn::read_turn_id(id),
                None => start,
            };
            match requested(start_turn, end_turn, total as nat) {
                Ok(range) => {
                    &&& start == Ok::<usize, TurnIdError>(range.0)
                    &&& end == Ok::<usize, TurnIdError>(range.1)
                    &&& 1 <= range.0 <= range.1 <= total
                },
                Err(HistoryError::TurnId(error)) => start == Err::<usize, TurnIdError>(error) || (
                start is Ok && end == Err::<usize, TurnIdError>(error)),
                Err(HistoryError::StartAfterEnd) => start is Ok && end is Ok && start->Ok_0
                    > end->Ok_0,
                Err(HistoryError::BeyondLatest(latest)) => {
                    &&& start is Ok
                    &&& end is Ok
                    &&& start->Ok_0 <= end->Ok_0
                    &&& end->Ok_0 > total
                    &&& latest == total
                },
                _ => false,
            }
        }),
{
    turn::turn_id_round_trip(1);
    lemma_requested(start_turn, end_turn, total as nat);
}

/// Every item of the conversation is taken from its records, in order, and nothing else
/// is.
pub proof fn every_item_is_taken_from_the_records<T>(
    before: Seq<RolloutItem<T>>,
    record: RolloutItem<T>,
    after: Seq<RolloutItem<T>>,
)
    ensures
        responses(Seq::<RolloutItem<T>>::empty()) == Seq::<T>::empty(),
        responses(before.push(record) + after) == responses(before) + (match record {
            RolloutItem::ResponseItem(item) => seq![item],
            RolloutItem::Other => Seq::empty(),
        }) + responses(after),
    decreases after.len(),
{
    let all = before.push(record) + after;
    let middle = match record {
        RolloutItem::ResponseItem(item) => seq![item],
        RolloutItem::Other => Seq::empty(),
    };
    if after.len() == 0 {
        assert(all.drop_last() =~= before);
        assert(all.last() == record);
        assert(responses(all) =~= responses(before) + middle + responses(after));
    } else {
        every_item_is_taken_from_the_records(before, record, after.drop_last());
        assert(all.drop_last() =~= before.push(record) + after.drop_last());
        assert(all.last() == after.last());
        assert(responses(all) =~= responses(before) + middle + responses(after));
    }
}

/// Messages about numbers show the number whole.
pub proof fn messages_show_their_numbers(number: usize)
    ensures
        ({
            let text = HistoryError::Malformed(number).text();
            &&& text.len() >= 30
            &&& text.subrange(12, text.len() - 18) == turn::decimal(number as nat)
        }),
        HistoryError::BeyondLatest(number).text().len() >= 15,
        HistoryError::BeyondLatest(number).text().skip(15) == turn::turn_id_text(number as nat),
{
    reveal_strlit("Rollout has ");
    reveal_strlit(" malformed records");
    reveal_strlit("Latest turn is ");
    let text = HistoryError::Malformed(number).text();
    assert(text.subrange(12, text.len() - 18) =~= turn::decimal(number as nat));
    assert(HistoryError::BeyondLatest(number).text().skip(15) =~= turn::turn_id_text(
        number as nat,
    ));
}

/// A page holds every record that it is given, whole and in order, and the id of the next
/// turn where there is one.
pub proof fn pages_hold_every_record(records: Seq<Seq<char>>, next: nat)
    ensures
        page_text(records, None) == "{\"next_start_turn\":null,\"turns\":["@ + strings::joined(
            records,
            seq![','],
        ) + seq![']', '}'],
        page_text(records, Some(next as int)) == "{\"next_start_turn\":\""@ + turn::turn_id_text(
            next,
        ) + "\",\"turns\":["@ + strings::joined(records, seq![',']) + seq![']', '}'],
{
    reveal_strlit(",");
    reveal_strlit("\"");
    reveal_strlit("null");
    reveal_strlit("{\"next_start_turn\":");
    reveal_strlit("{\"next_start_turn\":\"");
    reveal_strlit("{\"next_start_turn\":null,\"turns\":[");
    reveal_strlit(",\"turns\":[");
    reveal_strlit("\",\"turns\":[");
    reveal_strlit("]}");
    let body = strings::joined(records, seq![',']);
    assert(","@ =~= seq![',']);
    assert(page_text(records, None) =~= "{\"next_start_turn\":null,\"turns\":["@ + body + seq![
        ']',
        '}',
    ]);
    assert(page_text(records, Some(next as int)) =~= "{\"next_start_turn\":\""@
        + turn::turn_id_text(next) + "\",\"turns\":["@ + body + seq![']', '}']);
}

} // verus!
