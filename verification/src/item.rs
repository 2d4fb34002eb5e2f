//! Conversation items, as far as the history logic reads them.

use crate::strings;
use vstd::prelude::*;

verus! {

/// What a part of a message holds.
#[derive(Debug)]
pub enum ContentBody {
    /// Text that went into the model.
    InputText(String),
    /// Text that the model produced.
    OutputText(String),
    /// Anything else, such as an image.
    Other,
}

/// One part of a message.
#[derive(Debug)]
pub struct ContentItem {
    /// What the part holds.
    pub body: ContentBody,
    /// Whether the host recognises the part as a contextual fragment, which it
    /// inserted itself and no user wrote.
    pub contextual: bool,
}

/// What a conversation item is.
#[derive(Debug)]
pub enum ItemBody {
    /// A message of the given role.
    Message { role: String, content: Vec<ContentItem> },
    /// Tools that became available later.
    AdditionalTools,
    /// A change of the configuration.
    ConfigurationUpdate,
    /// A call of a function tool, with its arguments as JSON.
    FunctionCall { name: String, arguments: String },
    /// A call of a tool with free-form input.
    CustomToolCall { name: String },
    /// A command that ran in a local shell.
    LocalShellCall { command: Vec<String> },
    /// A summary that stands for compacted history.
    Compaction,
    /// A summary that stands for compacted context.
    ContextCompaction,
    /// The request to compact.
    CompactionTrigger,
    /// Anything else.
    Other,
}

/// One item of a conversation.
#[derive(Debug)]
pub struct ResponseItem {
    /// What the item is.
    pub body: ItemBody,
    /// Whether the host takes the item as a message by which the user
    /// authorizes work.
    pub user_authorization: bool,
    /// The item as JSON, or the reason why it cannot be written as JSON.
    pub serialized: Result<String, String>,
    /// The place of the item in the host's own list.
    pub source: usize,
}

impl ResponseItem {
    /// Only a message can be a message by which the user authorizes work.
    pub open spec fn wf(self) -> bool {
        self.user_authorization ==> self.body is Message
    }
}

/// Whether every part of a message is a contextual fragment.
pub open spec fn all_contextual(content: Seq<ContentItem>) -> bool {
    forall|i: int| 0 <= i < content.len() ==> (#[trigger] content[i]).contextual
}

/// Whether an item instructs the model rather than being part of the talk.
pub open spec fn instructs(item: ResponseItem) -> bool {
    match item.body {
        ItemBody::Message { role, content } => {
            ||| role@ == "system"@
            ||| role@ == "developer"@
            ||| role@ == "user"@ && content@.len() > 0 && all_contextual(content@)
        },
        ItemBody::AdditionalTools => true,
        ItemBody::ConfigurationUpdate => true,
        _ => false,
    }
}

/// Whether an item opens a turn.
pub open spec fn opens_turn(item: ResponseItem) -> bool {
    item.user_authorization && !instructs(item)
}

/// Whether an item is left over from compaction.
pub open spec fn compacts(item: ResponseItem) -> bool {
    item.body is Compaction || item.body is ContextCompaction || item.body is CompactionTrigger
}

fn is_all_contextual(content: &Vec<ContentItem>) -> (all: bool)
    ensures
        all == all_contextual(content@),
{
    let mut i: usize = 0;
    while i < content.len()
        invariant
            i <= content@.len(),
            forall|j: int| 0 <= j < i ==> (#[trigger] content@[j]).contextual,
        decreases content@.len() - i,
    {
        if !content[i].contextual {
            return false;
        }
        i = i + 1;
    }
    true
}

/// Whether `item` instructs the model: a system or developer message, a user
/// message made of contextual fragments alone, or a change of the set-up.
pub fn is_instruction(item: &ResponseItem) -> (instruction: bool)
    ensures
        instruction == instructs(*item),
{
    match &item.body {
        ItemBody::Message { role, content } => {
            strings::same_text(role.as_str(), "system") || strings::same_text(
                role.as_str(),
                "developer",
            ) || (strings::same_text(role.as_str(), "user") && !content.is_empty()
                && is_all_contextual(content))
        },
        ItemBody::AdditionalTools | ItemBody::ConfigurationUpdate => true,
        _ => false,
    }
}

/// Whether `item` is a message by which the user opens a turn.
pub fn is_turn_start(item: &ResponseItem) -> (start: bool)
    ensures
        start == opens_turn(*item),
{
    item.user_authorization && !is_instruction(item)
}

/// Whether `item` is left over from compaction.
pub fn is_compaction(item: &ResponseItem) -> (compaction: bool)
    ensures
        compaction == compacts(*item),
{
    match &item.body {
        ItemBody::Compaction | ItemBody::ContextCompaction | ItemBody::CompactionTrigger => true,
        _ => false,
    }
}

/// Left over from compaction are summaries and the request for one. Messages, calls,
/// their outputs and everything else are not.
pub proof fn only_compaction_is_left_over(item: ResponseItem)
    ensures
        match item.body {
            ItemBody::Compaction => compacts(item),
            ItemBody::ContextCompaction => compacts(item),
            ItemBody::CompactionTrigger => compacts(item),
            ItemBody::Message { role, content } => !compacts(item),
            ItemBody::AdditionalTools => !compacts(item),
            ItemBody::ConfigurationUpdate => !compacts(item),
            ItemBody::FunctionCall { name, arguments } => !compacts(item),
            ItemBody::CustomToolCall { name } => !compacts(item),
            ItemBody::LocalShellCall { command } => !compacts(item),
            ItemBody::Other => !compacts(item),
        },
{
}

/// A message instructs by its role, whatever it holds; that of a user does so where it
/// holds something and nothing but contextual fragments. Changes of the set-up
/// instruct, and calls, outputs and summaries never do.
pub proof fn instructions_are_told_by_role_and_kind(item: ResponseItem)
    ensures
        item.body is AdditionalTools || item.body is ConfigurationUpdate ==> instructs(item),
        item.body is FunctionCall || item.body is CustomToolCall || item.body is LocalShellCall
            || item.body is Compaction || item.body is ContextCompaction
            || item.body is CompactionTrigger || item.body is Other ==> !instructs(item),
        item.body matches ItemBody::Message { role, content } ==> {
            &&& role@ == seq!['s', 'y', 's', 't', 'e', 'm'] ==> instructs(item)
            &&& role@ == seq!['d', 'e', 'v', 'e', 'l', 'o', 'p', 'e', 'r'] ==> instructs(item)
            &&& role@ == seq!['u', 's', 'e', 'r'] ==> (instructs(item) <==> content@.len() > 0
                && content@.filter(|part: ContentItem| !part.contextual).len() == 0)
            &&& role@ != seq!['s', 'y', 's', 't', 'e', 'm'] && role@ != seq![
                'd',
                'e',
                'v',
                'e',
                'l',
                'o',
                'p',
                'e',
                'r',
            ] && role@ != seq!['u', 's', 'e', 'r'] ==> !instructs(item)
        },
{
    reveal_strlit("system");
    reveal_strlit("developer");
    reveal_strlit("user");
    assert("system"@ =~= seq!['s', 'y', 's', 't', 'e', 'm']);
    assert("developer"@ =~= seq!['d', 'e', 'v', 'e', 'l', 'o', 'p', 'e', 'r']);
    assert("user"@ =~= seq!['u', 's', 'e', 'r']);
    if let ItemBody::Message { role, content } = item.body {
        lemma_none_filtered(content@, |part: ContentItem| !part.contextual);
    }
}

proof fn lemma_none_filtered<A>(items: Seq<A>, wanted: spec_fn(A) -> bool)
    ensures
        items.filter(wanted).len() == 0 <==> (forall|i: int|
            0 <= i < items.len() ==> !wanted(#[trigger] items[i])),
    decreases items.len(),
{
    reveal(Seq::filter);
    if items.len() > 0 {
        let init = items.drop_last();
        lemma_none_filtered(init, wanted);
        assert(forall|i: int| 0 <= i < init.len() ==> #[trigger] init[i] == items[i]);
        if forall|i: int| 0 <= i < init.len() ==> !wanted(#[trigger] init[i]) {
            assert(forall|i: int| 0 <= i < items.len() - 1 ==> #[trigger] items[i] == init[i]);
        } else {
            let i = choose|i: int| 0 <= i < init.len() && wanted(#[trigger] init[i]);
            assert(wanted(items[i]));
        }
    }
}

/// A turn is opened by what the host takes as the user's authorization, unless that
/// instructs the model.
pub proof fn turns_are_opened_by_the_user(item: ResponseItem)
    ensures
        opens_turn(item) ==> item.user_authorization && !instructs(item),
        item.user_authorization ==> (opens_turn(item) || instructs(item)),
        !item.user_authorization ==> !opens_turn(item),
{
}

} // verus!
