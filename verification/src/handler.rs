//! The tool `history_read`, by which the model reads history back.

use crate::history;
use crate::history::{Args, HistoryError};
use crate::item::ResponseItem;
use crate::settings::Settings;
use crate::{snapshot, strings};
use vstd::prelude::*;
use vstd::string::*;

verus! {

/// What a tool is called with.
#[derive(Debug)]
pub enum ToolPayload {
    /// The JSON arguments of a function call.
    Function { arguments: String },
    /// Anything else.
    Other,
}

/// Why a call of a tool fails.
#[derive(Debug)]
pub enum FunctionCallError {
    /// The model is told this.
    RespondToModel(String),
}

/// What a tool hands back.
#[derive(Debug)]
pub struct ToolOutput {
    /// The text for the model.
    pub text: String,
    /// Whether the call succeeded, where that is known.
    pub success: Option<bool>,
}

/// A parameter of a tool.
#[derive(Debug)]
pub struct ParameterSpec {
    /// The name of the parameter.
    pub name: String,
    /// Its JSON type.
    pub kind: String,
    /// What it is for.
    pub description: String,
}

/// A tool as the model sees it.
#[derive(Debug)]
pub struct ToolSpec {
    /// The name of the tool.
    pub name: String,
    /// What it does.
    pub description: String,
    /// Whether the arguments have to follow the schema strictly.
    pub strict: bool,
    /// Whether the tool is loaded later.
    pub defer_loading: Option<bool>,
    /// The parameters.
    pub parameters: Vec<ParameterSpec>,
    /// The names of the parameters that have to be given.
    pub required: Vec<String>,
    /// Whether other parameters are accepted.
    pub additional_properties: bool,
    /// The schema of the output, where there is one.
    pub output_schema: Option<String>,
}

/// The tool `history_read`.
pub struct WorkingMemoryHandler;

impl WorkingMemoryHandler {
    /// The name under which the tool is called.
    pub fn tool_name(&self) -> (name: String)
        ensures
            name@ == "history_read"@,
    {
        "history_read".to_owned()
    }

    /// The tool as the model sees it.
    pub fn tool_spec(&self) -> (tool: ToolSpec)
        ensures
            tool.name@ == "history_read"@,
            tool.description@
                == "Read persisted conversation history by turn ID (T001). No arguments returns the turn count; a range returns at most 50 turns and 24000 bytes. Follow next_start_turn to continue."@,
            !tool.strict,
            tool.defer_loading is None,
            tool.parameters@.len() == 2,
            tool.parameters@[0].name@ == "start_turn"@,
            tool.parameters@[0].kind@ == "string"@,
            tool.parameters@[0].description@ == "First turn ID, inclusive."@,
            tool.parameters@[1].name@ == "end_turn"@,
            tool.parameters@[1].kind@ == "string"@,
            tool.parameters@[1].description@
                == "Last turn ID, inclusive; defaults to start_turn."@,
            tool.required@.len() == 0,
            !tool.additional_properties,
            tool.output_schema is None,
    {
        let mut parameters: Vec<ParameterSpec> = Vec::new();
        parameters.push(
            ParameterSpec {
                name: "start_turn".to_owned(),
                kind: "string".to_owned(),
                description: "First turn ID, inclusive.".to_owned(),
            },
        );
        parameters.push(
            ParameterSpec {
                name: "end_turn".to_owned(),
                kind: "string".to_owned(),
                description: "Last turn ID, inclusive; defaults to start_turn.".to_owned(),
            },
        );
        ToolSpec {
            name: self.tool_name(),
            description:
                "Read persisted conversation history by turn ID (T001). No arguments returns the turn count; a range returns at most 50 turns and 24000 bytes. Follow next_start_turn to continue.".to_owned(),
            strict: false,
            defer_loading: None,
            parameters,
            required: Vec::new(),
            additional_properties: false,
            output_schema: None,
        }
    }

    /// The arguments of a call, which has to be a function call.
    pub fn arguments<'a>(&self, payload: &'a ToolPayload) -> (arguments: Result<
        &'a str,
        FunctionCallError,
    >)
        ensures
            match payload {
                ToolPayload::Function { arguments: given } => arguments is Ok && arguments->Ok_0@
                    == given@,
                ToolPayload::Other => arguments is Err
                    && arguments->Err_0->RespondToModel_0@ == "Expected function arguments"@,
            },
    {
        match payload {
            ToolPayload::Function { arguments } => Ok(arguments.as_str()),
            ToolPayload::Other => Err(
                FunctionCallError::RespondToModel("Expected function arguments".to_owned()),
            ),
        }
    }

    /// Reads history: the records of the conversation, also given as JSON, answer the
    /// request `args`, unless the working memory is not in use.
    pub fn run(
        &self,
        settings: &Settings,
        args: &Args,
        records: &[ResponseItem],
        messages: &[String],
    ) -> (text: Result<String, HistoryError>)
        requires
            records@.len() == messages@.len(),
        ensures
            !settings.enabled ==> text == Err::<String, HistoryError>(HistoryError::Disabled),
            settings.enabled ==> match history::answer(
                snapshot::string_view(args.start_turn),
                snapshot::string_view(args.end_turn),
                snapshot::snapshot(records@),
                strings::texts(messages@),
            ) {
                Ok(expected) => text is Ok && text->Ok_0@ == expected,
                Err(error) => text == Err::<String, HistoryError>(error),
            },
            (args.start_turn is Some || args.end_turn is Some) && text is Ok ==> strings::byte_len(
                text->Ok_0@,
            ) <= history::MAX_PAGE_BYTES,
    {
        if let Err(error) = history::admit_request(settings) {
            return Err(error);
        }
        let entries = snapshot::build_snapshot(records);
        proof {
            snapshot::turns_are_ranges(records@);
        }
        history::read_turns(args, entries.as_slice(), messages)
    }

    /// Hands the outcome of a call to the model: the text, or the reason why there
    /// is none.
    pub fn reply(&self, outcome: Result<String, String>) -> (output: Result<
        ToolOutput,
        FunctionCallError,
    >)
        ensures
            match outcome {
                Ok(text) => output is Ok && output->Ok_0.text == text && output->Ok_0.success
                    == Some(true),
                Err(reason) => output is Err && output->Err_0->RespondToModel_0@
                    == "Working memory: "@ + reason@,
            },
    {
        match outcome {
            Ok(text) => Ok(ToolOutput { text, success: Some(true) }),
            Err(reason) => {
                let mut message = "Working memory: ".to_owned();
                message.append(reason.as_str());
                Err(FunctionCallError::RespondToModel(message))
            },
        }
    }
}

} // verus!
