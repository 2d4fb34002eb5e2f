//! The sliding window: the newest history that fits the token budget, next to
//! what is never dropped.

use crate::instructions::WorkingMemoryInstructions;
use crate::item::ResponseItem;
use crate::settings::Settings;
use crate::{item, render, snapshot, tokens};
use vstd::prelude::*;

verus! {

/// The entries of `items` whose flag is set, in order.
pub open spec fn selected<T>(items: Seq<T>, keep: Seq<bool>) -> Seq<T>
    decreases items.len(),
{
    if items.len() == 0 {
        Seq::empty()
    } else if keep[items.len() - 1] {
        selected(items.drop_last(), keep).push(items.last())
    } else {
        selected(items.drop_last(), keep)
    }
}

/// Keeps the entries whose flag is set.
pub fn select<T>(items: Vec<T>, keep: &[bool]) -> (kept: Vec<T>)
    requires
        items@.len() <= keep@.len(),
    ensures
        kept@ == selected(items@, keep@),
{
    let ghost all = items@;
    let mut kept: Vec<T> = Vec::new();
    let mut position: usize = 0;
    for entry in it: items
        invariant
            it.seq() == all,
            all.len() <= keep@.len(),
            position == it.index(),
            kept@ == selected(all.take(it.index() as int), keep@),
    {
        if keep[position] {
            kept.push(entry);
        }
        position = position + 1;
        proof {
            let now = all.take(it.index() + 1);
            assert(now.drop_last() =~= all.take(it.index() as int));
            assert(now.last() == entry);
        }
    }
    assert(all.take(all.len() as int) =~= all);
    kept
}

/// The items that are not left over from compaction.
pub open spec fn without_compaction(input: Seq<ResponseItem>) -> Seq<ResponseItem> {
    input.filter(|entry: ResponseItem| !item::compacts(entry))
}

/// Drops what is left over from compaction.
pub fn remove_compaction(input: &mut Vec<ResponseItem>)
    ensures
        final(input)@ == without_compaction(old(input)@),
{
    let ghost all = input@;
    let ghost stays = |entry: ResponseItem| !item::compacts(entry);
    let mut taken: Vec<ResponseItem> = Vec::new();
    std::mem::swap(&mut taken, input);
    assert(all.take(0).filter(stays) =~= Seq::empty());
    for entry in it: taken
        invariant
            it.seq() == all,
            stays == |entry: ResponseItem| !item::compacts(entry),
            input@ == all.take(it.index() as int).filter(stays),
    {
        proof {
            let now = all.take(it.index() + 1);
            assert(now.drop_last() =~= all.take(it.index() as int));
            assert(now.last() == entry);
            reveal_with_fuel(Seq::filter, 2);
        }
        if !item::is_compaction(&entry) {
            input.push(entry);
        }
    }
    assert(all.take(all.len() as int) =~= all);
}

/// The place of the message that opened the latest turn.
pub open spec fn latest_start(input: Seq<ResponseItem>) -> Option<int>
    decreases input.len(),
{
    if input.len() == 0 {
        None
    } else if item::opens_turn(input.last()) {
        Some(input.len() - 1)
    } else {
        latest_start(input.drop_last())
    }
}

/// Finds the message that opened the latest turn.
pub fn latest_turn_start(input: &[ResponseItem]) -> (latest: Option<usize>)
    ensures
        match latest {
            Some(at) => latest_start(input@) == Some(at as int),
            None => latest_start(input@) is None,
        },
        latest is Some ==> latest->0 < input@.len(),
{
    let mut left: usize = input.len();
    assert(input@.take(left as int) =~= input@);
    while left > 0
        invariant
            left <= input@.len(),
            latest_start(input@) == latest_start(input@.take(left as int)),
        decreases left,
    {
        assert(input@.take(left as int).last() == input@[left - 1]);
        if item::is_turn_start(&input[left - 1]) {
            return Some(left - 1);
        }
        assert(input@.take(left as int).drop_last() =~= input@.take(left - 1));
        left = left - 1;
    }
    None
}

/// Which items are never dropped: the message that opened the latest turn and the
/// instructions.
pub open spec fn protection(input: Seq<ResponseItem>) -> Seq<bool> {
    Seq::new(
        input.len(),
        |i: int| latest_start(input) == Some(i) || item::instructs(input[i]),
    )
}

/// Marks the items that are never dropped.
pub fn protected_items(input: &[ResponseItem]) -> (protected: Vec<bool>)
    ensures
        protected@ == protection(input@),
{
    let latest = latest_turn_start(input);
    let mut protected: Vec<bool> = Vec::new();
    let mut i: usize = 0;
    while i < input.len()
        invariant
            i <= input@.len(),
            protected@ == protection(input@).take(i as int),
            match latest {
                Some(at) => latest_start(input@) == Some(at as int),
                None => latest_start(input@) is None,
            },
        decreases input@.len() - i,
    {
        let newest = match latest {
            Some(at) => at == i,
            None => false,
        };
        protected.push(newest || item::is_instruction(&input[i]));
        i = i + 1;
        assert(protection(input@).take(i as int) =~= protection(input@).take(i - 1).push(
            protection(input@)[i - 1],
        ));
    }
    assert(protection(input@).take(i as int) =~= protection(input@));
    protected
}

/// The places below `len` that are not protected, in order.
pub open spec fn open_places(protected: Seq<bool>, len: nat) -> Seq<int>
    decreases len,
{
    if len == 0 {
        Seq::empty()
    } else if protected[len - 1] {
        open_places(protected, (len - 1) as nat)
    } else {
        open_places(protected, (len - 1) as nat).push(len - 1)
    }
}

/// The places of a list of items with their places.
pub open spec fn places(items: Seq<(usize, &ResponseItem)>) -> Seq<int> {
    Seq::new(items.len(), |i: int| items[i].0 as int)
}

/// The items of a list of items with their places.
pub open spec fn carried(items: Seq<(usize, &ResponseItem)>) -> Seq<ResponseItem> {
    Seq::new(items.len(), |i: int| *items[i].1)
}

/// Lists the items that are not protected, each with its place.
pub fn historical_items<'a>(input: &'a [ResponseItem], protected: &[bool]) -> (items: Vec<
    (usize, &'a ResponseItem),
>)
    requires
        input@.len() <= protected@.len(),
    ensures
        places(items@) == open_places(protected@, input@.len()),
        forall|i: int|
            0 <= i < items@.len() ==> 0 <= (#[trigger] items@[i]).0 < input@.len() && *items@[i].1
                == input@[items@[i].0 as int],
{
    let mut items: Vec<(usize, &'a ResponseItem)> = Vec::new();
    let mut index: usize = 0;
    assert(places(items@) =~= open_places(protected@, 0));
    while index < input.len()
        invariant
            index <= input@.len(),
            input@.len() <= protected@.len(),
            places(items@) == open_places(protected@, index as nat),
            forall|i: int|
                0 <= i < items@.len() ==> 0 <= (#[trigger] items@[i]).0 < input@.len()
                    && *items@[i].1 == input@[items@[i].0 as int],
        decreases input@.len() - index,
    {
        let ghost before = items@;
        if !protected[index] {
            items.push((index, &input[index]));
            assert(places(items@) =~= places(before).push(index as int));
        }
        index = index + 1;
    }
    items
}

/// What an item costs: its tokens, and one token at least.
pub open spec fn token_cost(text: Seq<char>) -> int {
    if tokens::o200k_token_count(text) == 0 {
        1
    } else {
        tokens::o200k_token_count(text) as int
    }
}

/// How many of the newest items fit the budget together. Items are taken from the
/// newest on until one does not fit; one that cannot be written as JSON ends the
/// count with its reason.
pub open spec fn newest_within(items: Seq<ResponseItem>, budget: int) -> Result<nat, Seq<char>>
    decreases items.len(),
{
    if items.len() == 0 {
        Ok(0)
    } else {
        match items.last().serialized {
            Err(reason) => Err(reason@),
            Ok(text) => if token_cost(text@) > budget {
                Ok(0)
            } else {
                match newest_within(items.drop_last(), budget - token_cost(text@)) {
                    Err(reason) => Err(reason),
                    Ok(count) => Ok(count + 1),
                }
            },
        }
    }
}

/// The place from which on history is kept, given how many of the newest items
/// are.
pub open spec fn cutoff_place(places: Seq<int>, count: nat) -> int {
    if places.len() == 0 {
        0
    } else if count == 0 {
        places.last() + 1
    } else {
        places[places.len() - count]
    }
}

/// Why a prompt cannot be prepared.
#[derive(Debug)]
pub enum WindowError {
    /// An item cannot be written as JSON, for the given reason.
    Unserializable(String),
}

/// Takes `tokens`, and one at least, from a budget of which `used` is spent.
/// Returns what is then spent, or `None` where it does not fit.
pub fn charge(used: usize, budget: usize, tokens: usize) -> (spent: Option<usize>)
    requires
        used <= budget,
    ensures
        ({
            let cost = if tokens == 0 {
                1
            } else {
                tokens as int
            };
            if used + cost > budget {
                spent is None
            } else {
                spent is Some && spent->0 == used + cost
            }
        }),
{
    let cost: usize = if tokens == 0 {
        1
    } else {
        tokens
    };
    if cost > budget - used {
        None
    } else {
        Some(used + cost)
    }
}

/// Whether the tokenizer can count what has to be counted: the newest items, up to
/// and with the first that does not fit the budget.
pub open spec fn newest_countable(items: Seq<ResponseItem>, budget: int) -> bool
    decreases items.len(),
{
    if items.len() == 0 {
        true
    } else {
        match items.last().serialized {
            Err(_) => true,
            Ok(text) => {
                &&& tokens::can_count(text@)
                &&& token_cost(text@) > budget || newest_countable(
                    items.drop_last(),
                    budget - token_cost(text@),
                )
            },
        }
    }
}

/// Whether the tokenizer can count what has to be counted to find the cutoff.
pub fn is_newest_countable(items: &[(usize, &ResponseItem)], budget: usize) -> (countable: bool)
    ensures
        countable == newest_countable(carried(items@), budget as int),
{
    let ghost all = carried(items@);
    let mut left: usize = items.len();
    let mut used: usize = 0;
    assert(all.take(left as int) =~= all);
    while left > 0
        invariant
            all == carried(items@),
            left <= items@.len(),
            used <= budget,
            newest_countable(all, budget as int) == newest_countable(
                all.take(left as int),
                budget - used,
            ),
        decreases left,
    {
        let entry = &items[left - 1];
        proof {
            let now = all.take(left as int);
            assert(now.drop_last() =~= all.take(left - 1));
            assert(now.last() == *entry.1);
        }
        match &entry.1.serialized {
            Err(_) => {
                return true;
            },
            Ok(text) => {
                if !tokens::is_countable(text.as_str()) {
                    return false;
                }
                let tokens = tokens::count_tokens(text.as_str());
                match charge(used, budget, tokens) {
                    None => {
                        return true;
                    },
                    Some(spent) => {
                        used = spent;
                        left = left - 1;
                    },
                }
            },
        }
    }
    true
}

/// Finds the place from which on history is kept: as many of the newest items as
/// fit the budget together.
pub fn history_cutoff(items: &[(usize, &ResponseItem)], budget: usize) -> (cutoff: Result<
    usize,
    WindowError,
>)
    requires
        newest_countable(carried(items@), budget as int),
        items@.len() > 0 ==> items@.last().0 < usize::MAX,
    ensures
        match newest_within(carried(items@), budget as int) {
            Ok(count) => cutoff is Ok && cutoff->Ok_0 == cutoff_place(places(items@), count),
            Err(reason) => cutoff is Err && cutoff->Err_0->Unserializable_0@ == reason,
        },
{
    let ghost all = carried(items@);
    let mut left: usize = items.len();
    let mut used: usize = 0;
    let mut first_kept: usize = if left == 0 {
        0
    } else {
        items[left - 1].0 + 1
    };
    assert(all.take(left as int) =~= all);
    while left > 0
        invariant
            all == carried(items@),
            newest_countable(all.take(left as int), budget - used),
            left <= items@.len(),
            used <= budget,
            first_kept == cutoff_place(places(items@), (items@.len() - left) as nat),
            match newest_within(all.take(left as int), budget - used) {
                Ok(count) => newest_within(all, budget as int) == Ok::<nat, Seq<char>>(
                    (items@.len() - left + count) as nat,
                ),
                Err(reason) => newest_within(all, budget as int) == Err::<nat, Seq<char>>(reason),
            },
        decreases left,
    {
        let entry = &items[left - 1];
        proof {
            let now = all.take(left as int);
            assert(now.drop_last() =~= all.take(left - 1));
            assert(now.last() == all[left - 1]);
            assert(all[left - 1] == *entry.1);
        }
        match &entry.1.serialized {
            Err(reason) => {
                return Err(WindowError::Unserializable(reason.clone()));
            },
            Ok(text) => {
                let tokens = tokens::count_tokens(text.as_str());
                match charge(used, budget, tokens) {
                    None => {
                        return Ok(first_kept);
                    },
                    Some(spent) => {
                        used = spent;
                        first_kept = entry.0;
                        left = left - 1;
                    },
                }
            },
        }
    }
    Ok(first_kept)
}

/// The items that are not protected, in order.
pub open spec fn history_of(input: Seq<ResponseItem>) -> Seq<ResponseItem> {
    let open = open_places(protection(input), input.len());
    Seq::new(open.len(), |i: int| input[open[i]])
}

/// Which items stay: those that are protected and those from the place `cutoff` on.
pub open spec fn window_flags(protected: Seq<bool>, cutoff: int) -> Seq<bool> {
    Seq::new(protected.len(), |i: int| protected[i] || i >= cutoff)
}

/// Which items of a prompt stay, given how many of its newest historical items do.
pub open spec fn kept_flags(input: Seq<ResponseItem>, count: nat) -> Seq<bool> {
    let protected = protection(input);
    window_flags(protected, cutoff_place(open_places(protected, input.len()), count))
}

/// What stays of a prompt, or the reason why that cannot be told.
pub open spec fn windowed(input: Seq<ResponseItem>, budget: int) -> Result<
    Seq<ResponseItem>,
    Seq<char>,
> {
    match newest_within(history_of(input), budget) {
        Ok(count) => Ok(selected(input, kept_flags(input, count))),
        Err(reason) => Err(reason),
    }
}

/// Keeps the items that are protected and those from the place `first_kept` on.
pub fn keep_window(input: Vec<ResponseItem>, protected: &[bool], first_kept: usize) -> (kept: Vec<
    ResponseItem,
>)
    requires
        input@.len() == protected@.len(),
    ensures
        kept@ == selected(input@, window_flags(protected@, first_kept as int)),
{
    let mut flags: Vec<bool> = Vec::new();
    let mut position: usize = 0;
    while position < protected.len()
        invariant
            position <= protected@.len(),
            flags@ == window_flags(protected@, first_kept as int).take(position as int),
        decreases protected@.len() - position,
    {
        flags.push(protected[position] || position >= first_kept);
        position = position + 1;
        proof {
            let all = window_flags(protected@, first_kept as int);
            assert(all.take(position as int) =~= all.take(position - 1).push(all[position - 1]));
        }
    }
    assert(flags@ =~= window_flags(protected@, first_kept as int));
    select(input, flags.as_slice())
}

/// One item of a prompt that is ready to be sent.
#[derive(Debug)]
pub enum PromptItem {
    /// An item of the conversation.
    Item(ResponseItem),
    /// The turn index, which the host renders.
    Index(WorkingMemoryInstructions),
}

/// Where the turn index goes: behind the message that opened the latest turn, and
/// at the end where there is none.
pub open spec fn index_place(input: Seq<ResponseItem>) -> int {
    match latest_start(input) {
        Some(at) => at + 1,
        None => input.len() as int,
    }
}

/// Whether `prompt` is `input` with the turn index `index` at its place.
pub open spec fn indexed(
    prompt: Seq<PromptItem>,
    input: Seq<ResponseItem>,
    index: Seq<char>,
) -> bool {
    let place = index_place(input);
    &&& prompt.len() == input.len() + 1
    &&& prompt[place] is Index
    &&& prompt[place]->Index_0.0@ == index
    &&& forall|i: int| 0 <= i < place ==> #[trigger] prompt[i] == PromptItem::Item(input[i])
    &&& forall|i: int|
        place < i < prompt.len() ==> #[trigger] prompt[i] == PromptItem::Item(input[i - 1])
}

/// Puts the turn index of `history` into a prompt.
pub fn insert_index(input: Vec<ResponseItem>, history: &[ResponseItem]) -> (prompt: Vec<PromptItem>)
    ensures
        indexed(prompt@, input@, render::rendered(snapshot::snapshot(history@))),
{
    let ghost all = input@;
    let turns = snapshot::build_snapshot(history);
    let end = input.len();
    let position = match latest_turn_start(input.as_slice()) {
        Some(at) => at + 1,
        None => end,
    };
    let mut prompt: Vec<PromptItem> = Vec::new();
    for entry in it: input
        invariant
            it.seq() == all,
            prompt@.len() == it.index(),
            forall|i: int| 0 <= i < it.index() ==> #[trigger] prompt@[i] == PromptItem::Item(all[i]),
    {
        prompt.push(PromptItem::Item(entry));
    }
    prompt.insert(
        position,
        PromptItem::Index(WorkingMemoryInstructions(render::render(turns.as_slice()))),
    );
    prompt
}

/// What to do about a prompt next.
#[derive(Debug)]
pub enum Preparation {
    /// The prompt goes out as it is.
    Unchanged(Vec<ResponseItem>),
    /// The prompt is to be finished with the complete history.
    NeedsHistory(Vec<ResponseItem>),
}

/// Begins to prepare a prompt: nothing is done where the working memory is not in
/// use, and otherwise what is left over from compaction is dropped.
pub fn begin(settings: &Settings, input: Vec<ResponseItem>) -> (preparation: Preparation)
    ensures
        match preparation {
            Preparation::Unchanged(same) => !settings.enabled && same == input,
            Preparation::NeedsHistory(pending) => settings.enabled && pending@
                == without_compaction(input@),
        },
{
    if !settings.enabled {
        return Preparation::Unchanged(input);
    }
    let mut pending = input;
    remove_compaction(&mut pending);
    Preparation::NeedsHistory(pending)
}

/// Finishes a prompt: keeps what the budget allows and puts the turn index of
/// `history` in.
pub fn finish(settings: &Settings, pending: Vec<ResponseItem>, history: &[ResponseItem]) -> (prompt:
    Result<Vec<PromptItem>, WindowError>)
    requires
        newest_countable(history_of(pending@), settings.history_token_budget as usize as int),
    ensures
        match windowed(pending@, settings.history_token_budget as usize as int) {
            Ok(kept) => prompt is Ok && indexed(
                prompt->Ok_0@,
                kept,
                render::rendered(snapshot::snapshot(history@)),
            ),
            Err(reason) => prompt is Err && prompt->Err_0->Unserializable_0@ == reason,
        },
{
    let len = pending.len();
    let protected = protected_items(pending.as_slice());
    let items = historical_items(pending.as_slice(), protected.as_slice());
    proof {
        lemma_carried_is_history(pending@, items@);
        assert(items@.len() > 0 ==> items@.last().0 < len);
    }
    let first_kept = match history_cutoff(
        items.as_slice(),
        settings.history_token_budget as usize,
    ) {
        Ok(place) => place,
        Err(error) => {
            return Err(error);
        },
    };
    let kept = keep_window(pending, protected.as_slice(), first_kept);
    Ok(insert_index(kept, history))
}

proof fn lemma_carried_is_history(input: Seq<ResponseItem>, items: Seq<(usize, &ResponseItem)>)
    requires
        places(items) == open_places(protection(input), input.len()),
        forall|i: int|
            0 <= i < items.len() ==> 0 <= (#[trigger] items[i]).0 < input.len() && *items[i].1
                == input[items[i].0 as int],
    ensures
        carried(items) == history_of(input),
{
    assert(items.len() == places(items).len());
    assert forall|i: int| 0 <= i < items.len() implies carried(items)[i] == #[trigger] history_of(
        input,
    )[i] by {
        assert(places(items)[i] == items[i].0);
    }
    assert(carried(items) =~= history_of(input));
}

/// Finishes a prompt; `None` says that the tokenizer cannot count one of the items
/// that have to be counted.
pub fn try_finish(settings: &Settings, pending: Vec<ResponseItem>, history: &[ResponseItem]) -> (outcome:
    Option<Result<Vec<PromptItem>, WindowError>>)
    ensures
        outcome is None <==> !newest_countable(
            history_of(pending@),
            settings.history_token_budget as usize as int,
        ),
        outcome matches Some(prompt) ==> match windowed(
            pending@,
            settings.history_token_budget as usize as int,
        ) {
            Ok(kept) => prompt is Ok && indexed(
                prompt->Ok_0@,
                kept,
                render::rendered(snapshot::snapshot(history@)),
            ),
            Err(reason) => prompt is Err && prompt->Err_0->Unserializable_0@ == reason,
        },
{
    let protected = protected_items(pending.as_slice());
    let items = historical_items(pending.as_slice(), protected.as_slice());
    proof {
        lemma_carried_is_history(pending@, items@);
    }
    if is_newest_countable(items.as_slice(), settings.history_token_budget as usize) {
        Some(finish(settings, pending, history))
    } else {
        None
    }
}

/// A selection holds exactly the entries whose flag is set.
pub proof fn selection_holds_the_flagged<T>(items: Seq<T>, keep: Seq<bool>)
    requires
        items.len() <= keep.len(),
    ensures
        forall|i: int| 0 <= i < items.len() && keep[i] ==> selected(items, keep).contains(items[i]),
        forall|entry: T|
            selected(items, keep).contains(entry) ==> exists|i: int|
                0 <= i < items.len() && keep[i] && #[trigger] items[i] == entry,
        selected(items, keep).len() <= items.len(),
    decreases items.len(),
{
    if items.len() > 0 {
        let init = items.drop_last();
        let kept = selected(init, keep);
        selection_holds_the_flagged(init, keep);
        assert forall|i: int| 0 <= i < items.len() && keep[i] implies selected(
            items,
            keep,
        ).contains(items[i]) by {
            if i < items.len() - 1 {
                assert(init[i] == items[i]);
                let at = choose|at: int| 0 <= at < kept.len() && kept[at] == init[i];
                assert(selected(items, keep)[at] == items[i]);
            } else {
                assert(selected(items, keep)[kept.len() as int] == items[i]);
            }
        }
        assert forall|entry: T| selected(items, keep).contains(entry) implies exists|i: int|
            0 <= i < items.len() && keep[i] && #[trigger] items[i] == entry by {
            let at = choose|at: int|
                0 <= at < selected(items, keep).len() && selected(items, keep)[at] == entry;
            if at < kept.len() {
                assert(kept[at] == entry);
                assert(kept.contains(entry));
                let i = choose|i: int| 0 <= i < init.len() && keep[i] && #[trigger] init[i] == entry;
                assert(items[i] == entry);
            } else {
                assert(items[items.len() - 1] == entry);
            }
        }
    }
}

proof fn lemma_latest_start(input: Seq<ResponseItem>)
    ensures
        match latest_start(input) {
            Some(at) => {
                &&& 0 <= at < input.len()
                &&& item::opens_turn(input[at])
                &&& forall|i: int| at < i < input.len() ==> !item::opens_turn(#[trigger] input[i])
            },
            None => forall|i: int|
                0 <= i < input.len() ==> !item::opens_turn(#[trigger] input[i]),
        },
    decreases input.len(),
{
    if input.len() > 0 {
        lemma_latest_start(input.drop_last());
        assert forall|i: int| 0 <= i < input.len() - 1 implies #[trigger] input[i]
            == input.drop_last()[i] by {}
    }
}

/// Whatever the budget, the instructions and the user's latest message stay.
pub proof fn protected_items_stay(input: Seq<ResponseItem>, count: nat)
    ensures
        forall|i: int|
            0 <= i < input.len() && item::instructs(#[trigger] input[i]) ==> kept_flags(
                input,
                count,
            )[i],
        forall|i: int|
            0 <= i < input.len() && item::opens_turn(#[trigger] input[i]) && (forall|j: int|
                i < j < input.len() ==> !item::opens_turn(#[trigger] input[j])) ==> kept_flags(
                input,
                count,
            )[i],
{
    lemma_latest_start(input);
}

/// After the beginning nothing is left over from compaction, no other item is lost
/// and none is added.
pub proof fn compaction_is_removed(input: Seq<ResponseItem>)
    ensures
        forall|i: int|
            0 <= i < without_compaction(input).len() ==> !item::compacts(
                #[trigger] without_compaction(input)[i],
            ),
        forall|i: int|
            0 <= i < input.len() && !item::compacts(#[trigger] input[i]) ==> without_compaction(
                input,
            ).contains(input[i]),
        forall|i: int|
            0 <= i < without_compaction(input).len() ==> input.contains(
                #[trigger] without_compaction(input)[i],
            ),
    decreases input.len(),
{
    reveal_with_fuel(Seq::filter, 2);
    if input.len() > 0 {
        let init = input.drop_last();
        let before = without_compaction(init);
        compaction_is_removed(init);
        assert forall|i: int| 0 <= i < without_compaction(input).len() implies input.contains(
            #[trigger] without_compaction(input)[i],
        ) by {
            if i < before.len() {
                assert(init.contains(before[i]));
                let at = choose|at: int| 0 <= at < init.len() && init[at] == before[i];
                assert(input[at] == before[i]);
            } else {
                assert(input[input.len() - 1] == without_compaction(input)[i]);
            }
        }
        assert forall|i: int| 0 <= i < input.len() && !item::compacts(#[trigger] input[i]) implies
            without_compaction(input).contains(input[i]) by {
            if i < input.len() - 1 {
                assert(init[i] == input[i]);
                let at = choose|at: int| 0 <= at < before.len() && before[at] == init[i];
                assert(without_compaction(input)[at] == input[i]);
            } else {
                assert(without_compaction(input)[before.len() as int] == input[i]);
            }
        }
    }
}

/// What a list of items costs together.
pub open spec fn total_cost(items: Seq<ResponseItem>) -> int
    decreases items.len(),
{
    if items.len() == 0 {
        0
    } else {
        total_cost(items.drop_last()) + match items.last().serialized {
            Ok(text) => token_cost(text@),
            Err(_) => 0,
        }
    }
}

/// The newest items that fit are the longest such list: together they cost no more
/// than the budget, and with the next older item they would.
pub proof fn newest_within_is_longest(items: Seq<ResponseItem>, budget: int)
    requires
        newest_within(items, budget) is Ok,
        budget >= 0,
    ensures
        ({
            let count = newest_within(items, budget)->Ok_0;
            let len = items.len();
            &&& count <= len
            &&& total_cost(items.skip(len - count)) <= budget
            &&& count < len ==> total_cost(items.skip(len - count - 1)) > budget
        }),
    decreases items.len(),
{
    let len = items.len();
    let count = newest_within(items, budget)->Ok_0;
    if len > 0 {
        let cost = token_cost(items.last().serialized->Ok_0@);
        if cost > budget {
            assert(items.skip(len as int) =~= Seq::empty());
            assert(items.skip(len - 1).drop_last() =~= Seq::empty());
            assert(items.skip(len - 1).last() == items.last());
            reveal_with_fuel(total_cost, 2);
        } else {
            let init = items.drop_last();
            newest_within_is_longest(init, budget - cost);
            assert(items.skip(len - count).drop_last() =~= init.skip(len - count));
            assert(items.skip(len - count).last() == items.last());
            if count < len {
                assert(items.skip(len - count - 1).drop_last() =~= init.skip(len - count - 1));
                assert(items.skip(len - count - 1).last() == items.last());
            }
        }
    } else {
        assert(items.skip(0) =~= Seq::empty());
    }
}

/// Whether places are in ascending order.
pub open spec fn ascending(places: Seq<int>) -> bool {
    forall|i: int, j: int| 0 <= i < j < places.len() ==> #[trigger] places[i] < #[trigger] places[j]
}

/// Whatever the budget, the cutoff is `0` where there is no history, the place
/// behind the last item where that alone is over the budget, and otherwise the
/// place of an item. What lies there or behind is exactly the newest history that
/// fits.
pub proof fn cutoff_is_the_place_of_an_item(
    items: Seq<ResponseItem>,
    places: Seq<int>,
    budget: usize,
)
    requires
        items.len() == places.len(),
        ascending(places),
        newest_within(items, budget as int) is Ok,
    ensures
        ({
            let count = newest_within(items, budget as int)->Ok_0;
            let cutoff = cutoff_place(places, count);
            let len = items.len();
            &&& len == 0 ==> cutoff == 0
            &&& len > 0 ==> (count == 0 <==> token_cost(items.last().serialized->Ok_0@) > budget)
            &&& len > 0 && count == 0 ==> cutoff == places.last() + 1
            &&& len > 0 && count > 0 ==> places.contains(cutoff)
            &&& forall|i: int|
                0 <= i < len ==> (#[trigger] places[i] >= cutoff <==> i >= len - count)
        }),
{
    let count = newest_within(items, budget as int)->Ok_0;
    newest_within_is_longest(items, budget as int);
    if items.len() > 0 && count > 0 {
        assert(places[places.len() - count] == cutoff_place(places, count));
    }
}

/// A larger budget never drops an item that a smaller one keeps.
pub proof fn larger_budget_keeps_more(
    items: Seq<ResponseItem>,
    places: Seq<int>,
    smaller: int,
    larger: int,
)
    requires
        items.len() == places.len(),
        ascending(places),
        0 <= smaller <= larger,
        newest_within(items, smaller) is Ok,
        newest_within(items, larger) is Ok,
    ensures
        newest_within(items, smaller)->Ok_0 <= newest_within(items, larger)->Ok_0,
        cutoff_place(places, newest_within(items, larger)->Ok_0) <= cutoff_place(
            places,
            newest_within(items, smaller)->Ok_0,
        ),
{
    lemma_counts_grow(items, smaller, larger);
    newest_within_is_longest(items, smaller);
    newest_within_is_longest(items, larger);
}

proof fn lemma_counts_grow(items: Seq<ResponseItem>, smaller: int, larger: int)
    requires
        smaller <= larger,
        newest_within(items, smaller) is Ok,
        newest_within(items, larger) is Ok,
    ensures
        newest_within(items, smaller)->Ok_0 <= newest_within(items, larger)->Ok_0,
    decreases items.len(),
{
    if items.len() > 0 {
        let cost = token_cost(items.last().serialized->Ok_0@);
        if cost <= smaller {
            lemma_counts_grow(items.drop_last(), smaller - cost, larger - cost);
        }
    }
}

/// Which of the items that stay are history.
pub open spec fn kept_history_flags(input: Seq<ResponseItem>, count: nat) -> Seq<bool> {
    Seq::new(input.len(), |i: int| kept_flags(input, count)[i] && !protection(input)[i])
}

proof fn lemma_open_places(protected: Seq<bool>, len: nat)
    requires
        len <= protected.len(),
    ensures
        forall|i: int|
            0 <= i < open_places(protected, len).len() ==> 0 <= #[trigger] open_places(
                protected,
                len,
            )[i] < len,
        forall|i: int, j: int|
            0 <= i < j < open_places(protected, len).len() ==> #[trigger] open_places(
                protected,
                len,
            )[i] < #[trigger] open_places(protected, len)[j],
    decreases len,
{
    if len > 0 {
        let before = open_places(protected, (len - 1) as nat);
        lemma_open_places(protected, (len - 1) as nat);
        assert(forall|i: int| 0 <= i < before.len() ==> open_places(protected, len)[i] == before[i]);
        assert(forall|i: int| 0 <= i < before.len() ==> 0 <= #[trigger] before[i] < len - 1);
    }
}

/// The part of the history below the place `len` that lies at `cutoff` or behind
/// is what follows its first `dropped` items.
proof fn lemma_selected_history(
    input: Seq<ResponseItem>,
    protected: Seq<bool>,
    keep: Seq<bool>,
    cutoff: int,
    dropped: int,
    len: nat,
)
    requires
        len <= input.len(),
        input.len() <= protected.len(),
        input.len() <= keep.len(),
        forall|i: int| 0 <= i < input.len() ==> keep[i] == (!protected[i] && i >= cutoff),
        ({
            let open = open_places(protected, input.len());
            &&& 0 <= dropped <= open.len()
            &&& forall|i: int| 0 <= i < dropped ==> #[trigger] open[i] < cutoff
            &&& forall|i: int| dropped <= i < open.len() ==> #[trigger] open[i] >= cutoff
        }),
        open_places(protected, len).is_prefix_of(open_places(protected, input.len())),
    ensures
        ({
            let open = open_places(protected, len);
            let history = Seq::new(open.len(), |i: int| input[open[i]]);
            selected(input.take(len as int), keep) == if dropped <= open.len() {
                history.skip(dropped)
            } else {
                Seq::empty()
            }
        }),
    decreases len,
{
    let open = open_places(protected, len);
    let history = Seq::new(open.len(), |i: int| input[open[i]]);
    if len == 0 {
        assert(selected(input.take(0), keep) =~= Seq::empty());
        assert(dropped == 0 ==> history.skip(0) =~= Seq::empty());
    } else {
        let fewer = (len - 1) as nat;
        let before = open_places(protected, fewer);
        let past = Seq::new(before.len(), |i: int| input[before[i]]);
        assert(before.is_prefix_of(open_places(protected, input.len()))) by {
            assert(forall|i: int| 0 <= i < before.len() ==> before[i] == open[i]);
        }
        lemma_selected_history(input, protected, keep, cutoff, dropped, fewer);
        assert(input.take(len as int).drop_last() =~= input.take(fewer as int));
        assert(input.take(len as int).last() == input[fewer as int]);
        if protected[fewer as int] {
            assert(history =~= past);
        } else {
            assert(open.last() == fewer);
            assert(open[before.len() as int] == open_places(protected, input.len())[before.len() as int]);
            if before.len() >= dropped {
                assert(fewer >= cutoff);
                assert(history.skip(dropped) =~= past.skip(dropped).push(input[fewer as int]));
            } else {
                assert(fewer < cutoff);
                if open.len() == dropped {
                    assert(history.skip(dropped) =~= Seq::empty());
                }
            }
        }
    }
}

/// The history that stays is the newest: as much of it as the budget allows, and
/// no more. Together it costs no more than the budget, and with one more item it
/// would.
pub proof fn newest_history_stays(input: Seq<ResponseItem>, budget: usize, count: nat)
    requires
        newest_within(history_of(input), budget as int) == Ok::<nat, Seq<char>>(count),
    ensures
        ({
            let history = history_of(input);
            let dropped = history.len() - count;
            &&& dropped >= 0
            &&& selected(input, kept_history_flags(input, count)) == history.skip(dropped)
            &&& total_cost(history.skip(dropped)) <= budget
            &&& dropped > 0 ==> total_cost(history.skip(dropped - 1)) > budget
        }),
{
    let history = history_of(input);
    let protected = protection(input);
    let open = open_places(protected, input.len());
    let cutoff = cutoff_place(open, count);
    let dropped = history.len() - count;
    newest_within_is_longest(history, budget as int);
    lemma_open_places(protected, input.len());
    lemma_selected_history(
        input,
        protected,
        kept_history_flags(input, count),
        cutoff,
        dropped,
        input.len(),
    );
    assert(input.take(input.len() as int) =~= input);
}

proof fn lemma_latest_of_selection(input: Seq<ResponseItem>, keep: Seq<bool>)
    requires
        input.len() <= keep.len(),
        latest_start(input) is Some ==> keep[latest_start(input)->0],
    ensures
        match latest_start(input) {
            Some(at) => match latest_start(selected(input, keep)) {
                Some(place) => selected(input, keep)[place] == input[at],
                None => false,
            },
            None => latest_start(selected(input, keep)) is None,
        },
    decreases input.len(),
{
    if input.len() > 0 {
        let init = input.drop_last();
        let kept = selected(init, keep);
        lemma_latest_start(init);
        if !item::opens_turn(input.last()) {
            lemma_latest_of_selection(init, keep);
            lemma_latest_start(kept);
            if keep[input.len() - 1] {
                assert(kept.push(input.last()).drop_last() =~= kept);
            }
        }
    }
}

/// The turn index stands right behind the user's latest message, and at the end of
/// a prompt without one.
pub proof fn index_follows_latest_message(
    prompt: Seq<PromptItem>,
    input: Seq<ResponseItem>,
    count: nat,
    index: Seq<char>,
)
    requires
        indexed(prompt, selected(input, kept_flags(input, count)), index),
    ensures
        match latest_start(input) {
            Some(at) => exists|place: int|
                0 < place < prompt.len() && (#[trigger] prompt[place]) is Index && prompt[place - 1]
                    == PromptItem::Item(input[at]),
            None => prompt.last() is Index,
        },
{
    let keep = kept_flags(input, count);
    let kept = selected(input, keep);
    lemma_latest_start(input);
    lemma_latest_of_selection(input, keep);
    lemma_latest_start(kept);
    let place = index_place(kept);
    assert(prompt[place] is Index);
    if latest_start(input) is Some {
        assert(prompt[place - 1] == PromptItem::Item(kept[place - 1]));
    }
}

/// A prepared prompt holds one turn index. Everything else in it comes from the
/// conversation, nothing of it is left over from compaction, and no instruction
/// is missing.
pub proof fn prepared_prompt_is_faithful(
    prompt: Seq<PromptItem>,
    input: Seq<ResponseItem>,
    kept: Seq<ResponseItem>,
    budget: int,
    index: Seq<char>,
)
    requires
        windowed(without_compaction(input), budget) == Ok::<Seq<ResponseItem>, Seq<char>>(kept),
        indexed(prompt, kept, index),
    ensures
        exists|place: int|
            0 <= place < prompt.len() && (#[trigger] prompt[place]) is Index && (forall|i: int|
                0 <= i < prompt.len() && i != place ==> (#[trigger] prompt[i]) is Item),
        forall|i: int|
            0 <= i < prompt.len() && (#[trigger] prompt[i]) is Item ==> input.contains(
                prompt[i]->Item_0,
            ) && !item::compacts(prompt[i]->Item_0),
        forall|i: int|
            0 <= i < input.len() && item::instructs(#[trigger] input[i]) ==> prompt.contains(
                PromptItem::Item(input[i]),
            ),
{
    let pending = without_compaction(input);
    let count = newest_within(history_of(pending), budget)->Ok_0;
    let keep = kept_flags(pending, count);
    let place = index_place(kept);
    compaction_is_removed(input);
    selection_holds_the_flagged(pending, keep);
    protected_items_stay(pending, count);
    lemma_latest_start(kept);
    assert(prompt[place] is Index);
    assert forall|i: int| 0 <= i < prompt.len() && (#[trigger] prompt[i]) is Item implies input.contains(
        prompt[i]->Item_0,
    ) && !item::compacts(prompt[i]->Item_0) by {
        let entry = prompt[i]->Item_0;
        let from = if i < place {
            i
        } else {
            i - 1
        };
        assert(kept[from] == entry);
        assert(kept.contains(entry));
        let at = choose|at: int| 0 <= at < pending.len() && keep[at] && #[trigger] pending[at] == entry;
        assert(pending[at] == entry);
    }
    assert forall|i: int| 0 <= i < input.len() && item::instructs(#[trigger] input[i]) implies prompt.contains(
        PromptItem::Item(input[i]),
    ) by {
        assert(!item::compacts(input[i]));
        let at = choose|at: int| 0 <= at < pending.len() && pending[at] == input[i];
        assert(item::instructs(pending[at]));
        assert(keep[at]);
        assert(kept.contains(pending[at]));
        let from = choose|from: int| 0 <= from < kept.len() && kept[from] == input[i];
        let to = if from < place {
            from
        } else {
            from + 1
        };
        assert(prompt[to] == PromptItem::Item(kept[from]));
    }
}

/// Only the three kinds of items that compaction leaves are removed. Any other item
/// stays, in its place between what stays in front of it and behind it.
pub proof fn nothing_but_compaction_is_removed(
    before: Seq<ResponseItem>,
    entry: ResponseItem,
    after: Seq<ResponseItem>,
)
    ensures
        without_compaction(Seq::empty()) == Seq::<ResponseItem>::empty(),
        without_compaction(before.push(entry) + after) == without_compaction(before) + (
        match entry.body {
            item::ItemBody::Compaction => Seq::empty(),
            item::ItemBody::ContextCompaction => Seq::empty(),
            item::ItemBody::CompactionTrigger => Seq::empty(),
            item::ItemBody::Message { role, content } => seq![entry],
            item::ItemBody::AdditionalTools => seq![entry],
            item::ItemBody::ConfigurationUpdate => seq![entry],
            item::ItemBody::FunctionCall { name, arguments } => seq![entry],
            item::ItemBody::CustomToolCall { name } => seq![entry],
            item::ItemBody::LocalShellCall { command } => seq![entry],
            item::ItemBody::Other => seq![entry],
        }) + without_compaction(after),
{
    let stays = |entry: ResponseItem| !item::compacts(entry);
    reveal(Seq::filter);
    item::only_compaction_is_left_over(entry);
    Seq::filter_distributes_over_add(before.push(entry), after, stays);
    assert(before.push(entry).drop_last() =~= before);
    assert(without_compaction(before.push(entry)) =~= without_compaction(before) + if stays(
        entry,
    ) {
        seq![entry]
    } else {
        Seq::empty()
    });
}

proof fn lemma_total_cost_is_tokens(items: Seq<ResponseItem>)
    ensures
        total_cost(items) == items.fold_left(
            0,
            |sum: int, entry: ResponseItem|
                sum + match entry.serialized {
                    Ok(text) => if tokens::o200k_token_count(text@) > 1 {
                        tokens::o200k_token_count(text@) as int
                    } else {
                        1
                    },
                    Err(_) => 0,
                },
        ),
    decreases items.len(),
{
    if items.len() > 0 {
        lemma_total_cost_is_tokens(items.drop_last());
    }
}

proof fn lemma_carried_tokens(items: Seq<(usize, &ResponseItem)>)
    ensures
        total_cost(carried(items)) == items.fold_left(
            0,
            |sum: int, entry: (usize, &ResponseItem)|
                sum + match entry.1.serialized {
                    Ok(text) => if tokens::o200k_token_count(text@) > 1 {
                        tokens::o200k_token_count(text@) as int
                    } else {
                        1
                    },
                    Err(_) => 0,
                },
        ),
    decreases items.len(),
{
    if items.len() > 0 {
        lemma_carried_tokens(items.drop_last());
        assert(carried(items).drop_last() =~= carried(items.drop_last()));
        assert(carried(items).last() == *items.last().1);
    }
}

proof fn lemma_newest_within(items: Seq<ResponseItem>, budget: int)
    requires
        budget >= 0,
    ensures
        match newest_within(items, budget) {
            Ok(count) => {
                &&& count <= items.len()
                &&& forall|i: int|
                    0 <= i < items.len() && i >= items.len() - count - 1 ==> (
                    #[trigger] items[i]).serialized is Ok
            },
            Err(reason) => exists|k: int|
                {
                    &&& 0 <= k < items.len()
                    &&& (#[trigger] items[k]).serialized is Err
                    &&& items[k].serialized->Err_0@ == reason
                    &&& forall|i: int| k < i < items.len() ==> (#[trigger] items[i]).serialized is Ok
                    &&& total_cost(items.skip(k + 1)) <= budget
                },
        },
    decreases items.len(),
{
    if items.len() > 0 {
        let init = items.drop_last();
        let len = items.len() as int;
        match items.last().serialized {
            Err(_) => {
                assert(items.skip(len) =~= Seq::empty());
                assert(items[len - 1].serialized is Err);
            },
            Ok(text) => if token_cost(text@) <= budget {
                lemma_newest_within(init, budget - token_cost(text@));
                assert(forall|i: int| 0 <= i < init.len() ==> #[trigger] items[i] == init[i]);
                if let Err(reason) = newest_within(init, budget - token_cost(text@)) {
                    let k = choose|k: int|
                        {
                            &&& 0 <= k < init.len()
                            &&& (#[trigger] init[k]).serialized is Err
                            &&& init[k].serialized->Err_0@ == reason
                            &&& forall|i: int|
                                k < i < init.len() ==> (#[trigger] init[i]).serialized is Ok
                            &&& total_cost(init.skip(k + 1)) <= budget - token_cost(text@)
                        };
                    assert(items.skip(k + 1).drop_last() =~= init.skip(k + 1));
                    assert(items.skip(k + 1).last() == items.last());
                    assert(items[k].serialized is Err);
                }
            },
        }
    }
}

/// The history that is kept fits the budget: counted by the tokenizer, with one token
/// for each item at least, it takes no more tokens than that, and with the next older
/// item it would. The cutoff is the place of its oldest item. An item that has to be
/// counted and cannot be written as JSON is reported instead.
pub proof fn kept_history_fits_the_budget(items: Seq<(usize, &ResponseItem)>, budget: usize)
    ensures
        ({
            let len = items.len();
            let charge = |sum: int, entry: (usize, &ResponseItem)|
                sum + match entry.1.serialized {
                    Ok(text) => if tokens::o200k_token_count(text@) > 1 {
                        tokens::o200k_token_count(text@) as int
                    } else {
                        1
                    },
                    Err(_) => 0,
                };
            match newest_within(carried(items), budget as int) {
                Ok(count) => {
                    &&& count <= len
                    &&& items.skip(len - count).fold_left(0, charge) <= budget
                    &&& count < len ==> items.skip(len - count - 1).fold_left(0, charge) > budget
                    &&& forall|i: int|
                        0 <= i < len && i >= len - count - 1 ==> (#[trigger] items[i]).1.serialized is Ok
                    &&& len == 0 ==> cutoff_place(places(items), count) == 0
                    &&& len > 0 && count == 0 ==> cutoff_place(places(items), count)
                        == items.last().0 + 1
                    &&& count > 0 ==> cutoff_place(places(items), count) == items[len - count].0
                },
                Err(reason) => exists|k: int|
                    {
                        &&& 0 <= k < len
                        &&& (#[trigger] items[k]).1.serialized is Err
                        &&& items[k].1.serialized->Err_0@ == reason
                        &&& forall|i: int|
                            k < i < len ==> (#[trigger] items[i]).1.serialized is Ok
                        &&& items.skip(k + 1).fold_left(0, charge) <= budget
                    },
            }
        }),
{
    let all = carried(items);
    let len = items.len() as int;
    lemma_newest_within(all, budget as int);
    assert(forall|i: int| 0 <= i < len ==> *(#[trigger] items[i]).1 == all[i]);
    match newest_within(all, budget as int) {
        Ok(count) => {
            newest_within_is_longest(all, budget as int);
            lemma_carried_tokens(items.skip(len - count));
            assert(carried(items.skip(len - count)) =~= all.skip(len - count));
            if count < len {
                lemma_carried_tokens(items.skip(len - count - 1));
                assert(carried(items.skip(len - count - 1)) =~= all.skip(len - count - 1));
            }
        },
        Err(reason) => {
            let k = choose|k: int|
                {
                    &&& 0 <= k < all.len()
                    &&& (#[trigger] all[k]).serialized is Err
                    &&& all[k].serialized->Err_0@ == reason
                    &&& forall|i: int| k < i < all.len() ==> (#[trigger] all[i]).serialized is Ok
                    &&& total_cost(all.skip(k + 1)) <= budget
                };
            lemma_carried_tokens(items.skip(k + 1));
            assert(carried(items.skip(k + 1)) =~= all.skip(k + 1));
            assert(items[k].1.serialized is Err);
        },
    }
}

/// The items that have to be counted are those for which the newer ones leave room in
/// the budget: the tokenizer has to be able to count exactly them.
pub proof fn only_what_is_counted_has_to_be_countable(items: Seq<ResponseItem>, budget: usize)
    ensures
        newest_countable(items, budget as int) <==> (forall|k: int|
            0 <= k < items.len() && (forall|i: int|
                k <= i < items.len() ==> (#[trigger] items[i]).serialized is Ok) && items.skip(
                k + 1,
            ).fold_left(
                0,
                |sum: int, entry: ResponseItem|
                    sum + match entry.serialized {
                        Ok(text) => if tokens::o200k_token_count(text@) > 1 {
                            tokens::o200k_token_count(text@) as int
                        } else {
                            1
                        },
                        Err(_) => 0,
                    },
            ) <= budget ==> tokens::can_count((#[trigger] items[k]).serialized->Ok_0@)),
{
    lemma_newest_countable(items, budget as int);
    assert forall|k: int| 0 <= k < items.len() implies total_cost(
        (#[trigger] items.skip(k + 1)),
    ) == items.skip(k + 1).fold_left(
        0,
        |sum: int, entry: ResponseItem|
            sum + match entry.serialized {
                Ok(text) => if tokens::o200k_token_count(text@) > 1 {
                    tokens::o200k_token_count(text@) as int
                } else {
                    1
                },
                Err(_) => 0,
            },
    ) by {
        lemma_total_cost_is_tokens(items.skip(k + 1));
    }
}

spec fn counted_item(items: Seq<ResponseItem>, budget: int, k: int) -> bool {
    &&& 0 <= k < items.len()
    &&& forall|i: int| k <= i < items.len() ==> (#[trigger] items[i]).serialized is Ok
    &&& total_cost(items.skip(k + 1)) <= budget
}

proof fn lemma_newest_countable(items: Seq<ResponseItem>, budget: int)
    requires
        budget >= 0,
    ensures
        newest_countable(items, budget) <==> (forall|k: int|
            counted_item(items, budget, k) ==> tokens::can_count(
                (#[trigger] items[k]).serialized->Ok_0@,
            )),
    decreases items.len(),
{
    if items.len() > 0 {
        let init = items.drop_last();
        let len = items.len() as int;
        if let Ok(text) = items.last().serialized {
            let cost = token_cost(text@);
            assert(items.skip(len) =~= Seq::empty());
            assert(counted_item(items, budget, len - 1));
            assert(forall|i: int| 0 <= i < init.len() ==> #[trigger] items[i] == init[i]);
            assert forall|k: int| 0 <= k < len - 1 implies total_cost(
                #[trigger] items.skip(k + 1),
            ) == total_cost(init.skip(k + 1)) + cost by {
                assert(items.skip(k + 1).drop_last() =~= init.skip(k + 1));
                assert(items.skip(k + 1).last() == items.last());
            }
            if cost <= budget {
                lemma_newest_countable(init, budget - cost);
                assert forall|k: int| 0 <= k < len - 1 implies counted_item(items, budget, k)
                    == #[trigger] counted_item(init, budget - cost, k) by {
                    assert(total_cost(items.skip(k + 1)) == total_cost(init.skip(k + 1)) + cost);
                    if counted_item(items, budget, k) {
                        assert(forall|i: int|
                            k <= i < init.len() ==> (#[trigger] init[i]).serialized
                                == items[i].serialized);
                    }
                }
                assert forall|k: int| 0 <= k < len - 1 implies counted_item(items, budget, k)
                    == counted_item(init, budget - cost, k) && #[trigger] items[k] == init[k] by {
                    assert(counted_item(init, budget - cost, k) == counted_item(items, budget, k));
                }
                if newest_countable(items, budget) {
                    assert forall|k: int| counted_item(items, budget, k) implies tokens::can_count(
                        (#[trigger] items[k]).serialized->Ok_0@,
                    ) by {
                        if k < len - 1 {
                            assert(tokens::can_count(init[k].serialized->Ok_0@));
                        }
                    }
                } else if tokens::can_count(text@) {
                    let k = choose|k: int|
                        counted_item(init, budget - cost, k) && !tokens::can_count(
                            (#[trigger] init[k]).serialized->Ok_0@,
                        );
                    assert(items[k] == init[k]);
                } else {
                    assert(items[len - 1] == items.last());
                }
            } else {
                assert forall|k: int| 0 <= k < len - 1 implies !counted_item(items, budget, k)
                    && #[trigger] items[k] == init[k] by {
                    lemma_costs_are_positive(init.skip(k + 1));
                    assert(total_cost(items.skip(k + 1)) == total_cost(init.skip(k + 1)) + cost);
                }
                assert(items[len - 1] == items.last());
            }
        } else {
            assert forall|k: int| counted_item(items, budget, k) implies false by {
                assert(items[len - 1].serialized is Ok);
            }
        }
    }
}

proof fn lemma_costs_are_positive(items: Seq<ResponseItem>)
    ensures
        total_cost(items) >= 0,
    decreases items.len(),
{
    if items.len() > 0 {
        lemma_costs_are_positive(items.drop_last());
    }
}

/// The turn index is the only thing that is added to a prompt. It goes right behind
/// the latest message by which the user opened a turn, and to the end where there is
/// none.
pub proof fn only_the_index_is_added(
    prompt: Seq<PromptItem>,
    input: Seq<ResponseItem>,
    index: Seq<char>,
) -> (place: int)
    requires
        indexed(prompt, input, index),
    ensures
        0 <= place < prompt.len(),
        prompt[place] is Index,
        prompt[place]->Index_0.0@ == index,
        prompt.remove(place) == input.map_values(|entry: ResponseItem| PromptItem::Item(entry)),
        forall|i: int| place <= i < input.len() ==> !item::opens_turn(#[trigger] input[i]),
        place < input.len() ==> place > 0,
        place > 0 && !item::opens_turn(input[place - 1]) ==> place == input.len() && (forall|i: int|
            0 <= i < input.len() ==> !item::opens_turn(#[trigger] input[i])),
{
    lemma_latest_start(input);
    let place = index_place(input);
    assert(prompt.remove(place) =~= input.map_values(
        |entry: ResponseItem| PromptItem::Item(entry),
    ));
    place
}

proof fn lemma_selection_places<T>(items: Seq<T>, keep: Seq<bool>) -> (at: Seq<int>)
    requires
        items.len() <= keep.len(),
    ensures
        at.len() == selected(items, keep).len(),
        forall|j: int|
            0 <= j < at.len() ==> 0 <= #[trigger] at[j] < items.len() && keep[at[j]] && selected(
                items,
                keep,
            )[j] == items[at[j]],
        forall|i: int, j: int| 0 <= i < j < at.len() ==> #[trigger] at[i] < #[trigger] at[j],
        forall|i: int| 0 <= i < items.len() && keep[i] ==> #[trigger] at.contains(i),
    decreases items.len(),
{
    if items.len() == 0 {
        Seq::empty()
    } else {
        let init = items.drop_last();
        let before = lemma_selection_places(init, keep);
        if keep[items.len() - 1] {
            let at = before.push(items.len() - 1);
            assert forall|i: int| 0 <= i < items.len() && keep[i] implies #[trigger] at.contains(i) by {
                if i < init.len() {
                    assert(before.contains(i));
                    let j = choose|j: int| 0 <= j < before.len() && before[j] == i;
                    assert(at[j] == i);
                } else {
                    assert(at[before.len() as int] == i);
                }
            }
            at
        } else {
            before
        }
    }
}

proof fn lemma_open_places_are_all(protected: Seq<bool>, len: nat)
    requires
        len <= protected.len(),
    ensures
        forall|i: int|
            0 <= i < len ==> (#[trigger] open_places(protected, len).contains(i) <==> !protected[i]),
    decreases len,
{
    if len > 0 {
        let fewer = (len - 1) as nat;
        let before = open_places(protected, fewer);
        let now = open_places(protected, len);
        lemma_open_places_are_all(protected, fewer);
        lemma_open_places(protected, fewer);
        assert forall|i: int| 0 <= i < len implies (#[trigger] now.contains(i) <==> !protected[i]) by {
            if i < fewer {
                assert(before.contains(i) <==> !protected[i]);
                if before.contains(i) {
                    let j = choose|j: int| 0 <= j < before.len() && before[j] == i;
                    assert(now[j] == i);
                }
                if now.contains(i) {
                    let j = choose|j: int| 0 <= j < now.len() && now[j] == i;
                    assert(j < before.len());
                    assert(before[j] == i);
                }
            } else {
                if !protected[i] {
                    assert(now[before.len() as int] == i);
                }
                if now.contains(i) {
                    let j = choose|j: int| 0 <= j < now.len() && now[j] == i;
                    if protected[i] {
                        assert(before[j] < fewer);
                    }
                }
            }
        }
    }
}

proof fn lemma_places_cost(input: Seq<ResponseItem>, open: Seq<int>)
    ensures
        total_cost(Seq::new(open.len(), |i: int| input[open[i]])) == open.fold_left(
            0,
            |sum: int, i: int|
                sum + match input[i].serialized {
                    Ok(text) => if tokens::o200k_token_count(text@) > 1 {
                        tokens::o200k_token_count(text@) as int
                    } else {
                        1
                    },
                    Err(_) => 0,
                },
        ),
    decreases open.len(),
{
    if open.len() > 0 {
        let items = Seq::new(open.len(), |i: int| input[open[i]]);
        let init = open.drop_last();
        lemma_places_cost(input, init);
        assert(items.drop_last() =~= Seq::new(init.len(), |i: int| input[init[i]]));
    }
}

/// What stays of a prompt, by the places `found.0` in order, is every item that is
/// protected and the newest `found.2` of the other ones, whose places are `found.1`.
/// Protected are the instructions and the latest message by which the user opened a
/// turn. The newest of the others take no more tokens than the budget, counted by the
/// tokenizer with one token for each item at least, and with the next older one they
/// would.
pub proof fn window_keeps_the_newest_history(
    input: Seq<ResponseItem>,
    budget: usize,
    kept: Seq<ResponseItem>,
) -> (found: (Seq<int>, Seq<int>, nat))
    requires
        windowed(input, budget as int) == Ok::<Seq<ResponseItem>, Seq<char>>(kept),
    ensures
        ({
            let (at, open, count) = found;
            let len = open.len();
            let charge = |sum: int, i: int|
                sum + match input[i].serialized {
                    Ok(text) => if tokens::o200k_token_count(text@) > 1 {
                        tokens::o200k_token_count(text@) as int
                    } else {
                        1
                    },
                    Err(_) => 0,
                };
            &&& at.len() == kept.len()
            &&& forall|j: int|
                0 <= j < at.len() ==> 0 <= #[trigger] at[j] < input.len() && kept[j] == input[at[j]]
            &&& forall|i: int, j: int| 0 <= i < j < at.len() ==> #[trigger] at[i] < #[trigger] at[j]
            &&& forall|i: int| 0 <= i < len ==> 0 <= #[trigger] open[i] < input.len()
            &&& forall|i: int, j: int| 0 <= i < j < len ==> #[trigger] open[i] < #[trigger] open[j]
            &&& forall|i: int|
                0 <= i < input.len() ==> (#[trigger] open.contains(i) <==> !item::instructs(
                    input[i],
                ) && !(item::opens_turn(input[i]) && (forall|j: int|
                    i < j < input.len() ==> !item::opens_turn(#[trigger] input[j]))))
            &&& count <= len
            &&& forall|i: int|
                0 <= i < input.len() ==> (#[trigger] at.contains(i) <==> !open.contains(i)
                    || open.skip(len - count).contains(i))
            &&& open.skip(len - count).fold_left(0, charge) <= budget
            &&& count < len ==> open.skip(len - count - 1).fold_left(0, charge) > budget
            &&& forall|i: int|
                0 <= i < len && i >= len - count - 1 ==> input[#[trigger] open[i]].serialized is Ok
        }),
{
    let history = history_of(input);
    let protected = protection(input);
    let open = open_places(protected, input.len());
    let count = newest_within(history, budget as int)->Ok_0;
    let cutoff = cutoff_place(open, count);
    let keep = kept_flags(input, count);
    let at = lemma_selection_places(input, keep);
    let len = open.len() as int;
    let newest = open.skip(len - count);
    lemma_open_places(protected, input.len());
    lemma_open_places_are_all(protected, input.len());
    lemma_latest_start(input);
    lemma_newest_within(history, budget as int);
    newest_within_is_longest(history, budget as int);
    lemma_places_cost(input, newest);
    assert(Seq::new(newest.len(), |i: int| input[newest[i]]) =~= history.skip(len - count));
    if count < len {
        let more = open.skip(len - count - 1);
        lemma_places_cost(input, more);
        assert(Seq::new(more.len(), |i: int| input[more[i]]) =~= history.skip(len - count - 1));
    }
    assert forall|i: int| 0 <= i < len && i >= len - count - 1 implies input[
        #[trigger] open[i]
    ].serialized is Ok by {
        assert(history[i] == input[open[i]]);
    }
    assert forall|i: int| 0 <= i < input.len() implies (#[trigger] open.contains(i)
        <==> !item::instructs(input[i]) && !(item::opens_turn(input[i]) && (forall|j: int|
        i < j < input.len() ==> !item::opens_turn(#[trigger] input[j])))) by {
        assert(open.contains(i) <==> !protected[i]);
        if let Some(latest) = latest_start(input) {
            if i < latest {
                assert(item::opens_turn(input[latest]));
            }
        }
    }
    assert forall|i: int| 0 <= i < input.len() implies (#[trigger] at.contains(i)
        <==> !open.contains(i) || newest.contains(i)) by {
        assert(open.contains(i) <==> !protected[i]);
        if at.contains(i) {
            let j = choose|j: int| 0 <= j < at.len() && at[j] == i;
            assert(keep[i]);
            if open.contains(i) {
                let k = choose|k: int| 0 <= k < len && open[k] == i;
                assert(k >= len - count);
                assert(newest[k - (len - count)] == i);
            }
        }
        if newest.contains(i) {
            let k = choose|k: int| 0 <= k < newest.len() && newest[k] == i;
            assert(open[len - count + k] == i);
            assert(open[len - count] <= open[len - count + k]);
            assert(keep[i]);
        }
    }
    (at, open, count)
}

/// A prompt is not prepared only where an item that has to be counted cannot be
/// written as JSON: it is not protected, and the newer items that are not protected
/// can be written and leave room in the budget. Its reason is reported.
pub proof fn only_an_unserializable_item_is_reported(
    input: Seq<ResponseItem>,
    budget: usize,
    reason: Seq<char>,
) -> (found: (Seq<int>, int))
    requires
        windowed(input, budget as int) == Err::<Seq<ResponseItem>, Seq<char>>(reason),
    ensures
        ({
            let (open, k) = found;
            let charge = |sum: int, i: int|
                sum + match input[i].serialized {
                    Ok(text) => if tokens::o200k_token_count(text@) > 1 {
                        tokens::o200k_token_count(text@) as int
                    } else {
                        1
                    },
                    Err(_) => 0,
                };
            &&& forall|i: int| 0 <= i < open.len() ==> 0 <= #[trigger] open[i] < input.len()
            &&& forall|i: int, j: int|
                0 <= i < j < open.len() ==> #[trigger] open[i] < #[trigger] open[j]
            &&& forall|i: int|
                0 <= i < input.len() ==> (#[trigger] open.contains(i) <==> !item::instructs(
                    input[i],
                ) && !(item::opens_turn(input[i]) && (forall|j: int|
                    i < j < input.len() ==> !item::opens_turn(#[trigger] input[j]))))
            &&& 0 <= k < open.len()
            &&& input[open[k]].serialized is Err
            &&& input[open[k]].serialized->Err_0@ == reason
            &&& forall|i: int| k < i < open.len() ==> input[#[trigger] open[i]].serialized is Ok
            &&& open.skip(k + 1).fold_left(0, charge) <= budget
        }),
{
    let history = history_of(input);
    let protected = protection(input);
    let open = open_places(protected, input.len());
    lemma_open_places(protected, input.len());
    lemma_open_places_are_all(protected, input.len());
    lemma_latest_start(input);
    lemma_newest_within(history, budget as int);
    let k = choose|k: int|
        {
            &&& 0 <= k < history.len()
            &&& (#[trigger] history[k]).serialized is Err
            &&& history[k].serialized->Err_0@ == reason
            &&& forall|i: int| k < i < history.len() ==> (#[trigger] history[i]).serialized is Ok
            &&& total_cost(history.skip(k + 1)) <= budget
        };
    let newer = open.skip(k + 1);
    lemma_places_cost(input, newer);
    assert(Seq::new(newer.len(), |i: int| input[newer[i]]) =~= history.skip(k + 1));
    assert forall|i: int| k < i < open.len() implies input[#[trigger] open[i]].serialized is Ok by {
        assert(history[i] == input[open[i]]);
    }
    assert forall|i: int| 0 <= i < input.len() implies (#[trigger] open.contains(i)
        <==> !item::instructs(input[i]) && !(item::opens_turn(input[i]) && (forall|j: int|
        i < j < input.len() ==> !item::opens_turn(#[trigger] input[j])))) by {
        assert(open.contains(i) <==> !protected[i]);
        if let Some(latest) = latest_start(input) {
            if i < latest {
                assert(item::opens_turn(input[latest]));
            }
        }
    }
    (open, k)
}

/// What is kept for a cutoff, by the places `at` in order, are the protected items and
/// those from the cutoff on, and no others.
pub proof fn everything_from_the_cutoff_on_is_kept<T>(
    items: Seq<T>,
    protected: Seq<bool>,
    cutoff: int,
) -> (at: Seq<int>)
    requires
        items.len() == protected.len(),
    ensures
        ({
            let kept = selected(items, window_flags(protected, cutoff));
            &&& at.len() == kept.len()
            &&& forall|j: int|
                0 <= j < at.len() ==> 0 <= #[trigger] at[j] < items.len() && kept[j] == items[at[j]]
            &&& forall|i: int, j: int| 0 <= i < j < at.len() ==> #[trigger] at[i] < #[trigger] at[j]
            &&& forall|i: int|
                0 <= i < items.len() ==> (#[trigger] at.contains(i) <==> protected[i] || i >= cutoff)
        }),
{
    let flags = window_flags(protected, cutoff);
    let at = lemma_selection_places(items, flags);
    assert forall|i: int| 0 <= i < items.len() implies (#[trigger] at.contains(i) <==> protected[i]
        || i >= cutoff) by {
        if at.contains(i) {
            let j = choose|j: int| 0 <= j < at.len() && at[j] == i;
            assert(flags[at[j]]);
        }
    }
    at
}

/// The places of history are all those that are not protected, in order.
pub proof fn history_is_all_that_is_not_protected(protected: Seq<bool>)
    ensures
        ({
            let open = open_places(protected, protected.len());
            &&& forall|i: int| 0 <= i < open.len() ==> 0 <= #[trigger] open[i] < protected.len()
            &&& forall|i: int, j: int|
                0 <= i < j < open.len() ==> #[trigger] open[i] < #[trigger] open[j]
            &&& forall|i: int|
                0 <= i < protected.len() ==> (#[trigger] open.contains(i) <==> !protected[i])
        }),
{
    lemma_open_places(protected, protected.len());
    lemma_open_places_are_all(protected, protected.len());
}

/// The start of the latest turn is the last message by which the user opened one. It
/// and the instructions are protected, and nothing else is.
pub proof fn the_latest_message_is_protected(input: Seq<ResponseItem>, i: int)
    requires
        0 <= i < input.len(),
    ensures
        latest_start(input) == Some(i) <==> item::opens_turn(input[i]) && (forall|j: int|
            i < j < input.len() ==> !item::opens_turn(#[trigger] input[j])),
        protection(input).len() == input.len(),
        protection(input)[i] <==> item::instructs(input[i]) || latest_start(input) == Some(i),
{
    lemma_latest_start(input);
    if let Some(latest) = latest_start(input) {
        if i < latest {
            assert(item::opens_turn(input[latest]));
        }
    }
}

} // verus!
