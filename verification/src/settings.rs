//! The settings of the working memory.

use crate::json;
use vstd::prelude::*;
use vstd::string::*;

verus! {

/// The smallest token budget that may be set.
pub const MIN_TOKEN_BUDGET: i64 = 1_000;

/// The largest token budget that may be set.
pub const MAX_TOKEN_BUDGET: i64 = 1_000_000;

/// The token budget where none is set.
pub const DEFAULT_TOKEN_BUDGET: i64 = 20_000;

/// Whether history is bounded, and to how many tokens.
#[derive(Clone, Copy, Debug, PartialEq, Eq, Structural)]
pub struct Settings {
    /// Whether the working memory is in use.
    pub enabled: bool,
    /// How many tokens the history in a prompt may take.
    pub history_token_budget: i64,
}

impl Settings {
    /// Whether the budget lies within its limits.
    pub open spec fn wf(self) -> bool {
        MIN_TOKEN_BUDGET <= self.history_token_budget <= MAX_TOKEN_BUDGET
    }

    /// What holds where nothing is set.
    pub open spec fn unset() -> Settings {
        Settings { enabled: false, history_token_budget: DEFAULT_TOKEN_BUDGET }
    }
}

impl Default for Settings {
    fn default() -> (settings: Self)
        ensures
            settings == Settings::unset(),
            settings.wf(),
    {
        Settings { enabled: false, history_token_budget: DEFAULT_TOKEN_BUDGET }
    }
}

/// Where the settings file is looked for.
#[derive(Clone, Copy, Debug, PartialEq, Eq, Structural)]
pub enum SettingsFile {
    /// The file that holds for the whole machine.
    System,
    /// The file in the home directory of the program.
    Home,
}

/// Chooses the settings file: the one of the machine where it exists.
pub fn choose_file(system_file_exists: bool) -> (file: SettingsFile)
    ensures
        file == if system_file_exists {
            SettingsFile::System
        } else {
            SettingsFile::Home
        },
{
    if system_file_exists {
        SettingsFile::System
    } else {
        SettingsFile::Home
    }
}

/// Why settings cannot be used.
#[derive(Debug)]
pub enum SettingsError {
    /// The file is not JSON.
    Json(serde_json::Error),
    /// The token budget is outside its limits.
    BudgetOutOfRange,
}

impl SettingsError {
    /// Whether `text` is the message for the user: what a JSON error displays, or what
    /// the limits of the token budget are.
    pub open spec fn says(self, text: String) -> bool {
        match self {
            SettingsError::Json(error) => to_string_from_display_ensures::<serde_json::Error>(
                &error,
                text,
            ),
            SettingsError::BudgetOutOfRange => text@
                == "history_token_budget must be between 1000 and 1000000"@,
        }
    }

    /// The message for the user.
    pub fn message(&self) -> (message: String)
        ensures
            self.says(message),
    {
        match self {
            SettingsError::Json(error) => error.to_string(),
            SettingsError::BudgetOutOfRange => {
                "history_token_budget must be between 1000 and 1000000".to_owned()
            },
        }
    }
}

/// What to do about the settings next.
#[derive(Debug)]
pub enum SettingsStep {
    /// These settings hold.
    Done(Settings),
    /// The settings are to be decoded from this JSON value.
    Decode(serde_json::Value),
}

/// `bytes` without a byte order mark in front.
pub open spec fn without_mark(bytes: Seq<u8>) -> Seq<u8> {
    if bytes.len() >= 3 && bytes[0] == 0xef && bytes[1] == 0xbb && bytes[2] == 0xbf {
        bytes.skip(3)
    } else {
        bytes
    }
}

/// Drops a byte order mark in front of `bytes`.
pub fn strip_mark(bytes: &[u8]) -> (rest: &[u8])
    ensures
        rest@ == without_mark(bytes@),
{
    if bytes.len() >= 3 && bytes[0] == 0xef && bytes[1] == 0xbb && bytes[2] == 0xbf {
        let rest = &bytes[3..bytes.len()];
        assert(rest@ =~= bytes@.skip(3));
        rest
    } else {
        bytes
    }
}

/// What a settings document asks for: its member `codex_memory` is decoded, and
/// without one nothing is set.
pub open spec fn document_step(document: serde_json::Value, step: SettingsStep) -> bool {
    match step {
        SettingsStep::Done(settings) => {
            &&& !json::json_members(document).contains_key("codex_memory"@)
            &&& settings == Settings::unset()
        },
        SettingsStep::Decode(section) => {
            &&& json::json_members(document).contains_key("codex_memory"@)
            &&& section == json::json_members(document)["codex_memory"@]
        },
    }
}

/// Finds the section of a settings document that is about the working memory.
pub fn read_document(document: &serde_json::Value) -> (step: SettingsStep)
    ensures
        document_step(*document, step),
{
    match json::member(document, "codex_memory") {
        Some(section) => SettingsStep::Decode(section.clone()),
        None => SettingsStep::Done(Settings::default()),
    }
}

/// Interprets a settings file, of which `None` says that there is none.
pub fn interpret_file(file: Option<&[u8]>) -> (step: Result<SettingsStep, SettingsError>)
    ensures
        match file {
            None => step == Ok::<SettingsStep, SettingsError>(SettingsStep::Done(Settings::unset())),
            Some(bytes) => match json::json_of_bytes(without_mark(bytes@)) {
                Err(error) => step == Err::<SettingsStep, SettingsError>(
                    SettingsError::Json(error),
                ),
                Ok(document) => step is Ok && document_step(document, step->Ok_0),
            },
        },
{
    match file {
        None => Ok(SettingsStep::Done(Settings::default())),
        Some(bytes) => match json::parse_bytes(strip_mark(bytes)) {
            Ok(document) => Ok(read_document(&document)),
            Err(error) => Err(SettingsError::Json(error)),
        },
    }
}

/// Accepts decoded settings whose token budget lies within its limits.
pub fn accept(settings: Settings) -> (accepted: Result<Settings, SettingsError>)
    ensures
        settings.wf() ==> accepted == Ok::<Settings, SettingsError>(settings),
        !settings.wf() ==> accepted == Err::<Settings, SettingsError>(
            SettingsError::BudgetOutOfRange,
        ),
{
    if MIN_TOKEN_BUDGET <= settings.history_token_budget && settings.history_token_budget
        <= MAX_TOKEN_BUDGET {
        Ok(settings)
    } else {
        Err(SettingsError::BudgetOutOfRange)
    }
}

/// Why settings cannot be loaded.
#[derive(Debug)]
pub enum LoadError<E> {
    /// The file or its budget cannot be used.
    Settings(SettingsError),
    /// The section about the working memory cannot be decoded.
    Decode(E),
}

/// The outcome of loading settings from a section that decodes to `decoded`.
pub open spec fn decoded_outcome<E>(
    decoded: Result<Settings, E>,
    loaded: Result<Settings, LoadError<E>>,
) -> bool {
    match decoded {
        Err(error) => loaded == Err::<Settings, LoadError<E>>(LoadError::Decode(error)),
        Ok(settings) => if settings.wf() {
            loaded == Ok::<Settings, LoadError<E>>(settings)
        } else {
            loaded == Err::<Settings, LoadError<E>>(
                LoadError::Settings(SettingsError::BudgetOutOfRange),
            )
        },
    }
}

impl Settings {
    /// Loads the settings from the bytes of a file, of which `None` says that there
    /// is none. `decode` decodes the section about the working memory.
    pub fn load<E, F: FnOnce(serde_json::Value) -> Result<Settings, E>>(
        file: Option<&[u8]>,
        decode: F,
    ) -> (loaded: Result<Settings, LoadError<E>>)
        requires
            forall|section: serde_json::Value| call_requires(decode, (section,)),
        ensures
            loaded is Ok ==> loaded->Ok_0.wf(),
            match file {
                None => loaded == Ok::<Settings, LoadError<E>>(Settings::unset()),
                Some(bytes) => match json::json_of_bytes(without_mark(bytes@)) {
                    Err(error) => loaded == Err::<Settings, LoadError<E>>(
                        LoadError::Settings(SettingsError::Json(error)),
                    ),
                    Ok(document) => if json::json_members(document).contains_key(
                        "codex_memory"@,
                    ) {
                        exists|decoded: Result<Settings, E>|
                            call_ensures(
                                decode,
                                (json::json_members(document)["codex_memory"@],),
                                decoded,
                            ) && decoded_outcome(decoded, loaded)
                    } else {
                        loaded == Ok::<Settings, LoadError<E>>(Settings::unset())
                    },
                },
            },
    {
        match interpret_file(file) {
            Err(error) => Err(LoadError::Settings(error)),
            Ok(SettingsStep::Done(settings)) => Ok(settings),
            Ok(SettingsStep::Decode(section)) => {
                let decoded = decode(section);
                let ghost outcome = decoded;
                let loaded = match decoded {
                    Err(error) => Err(LoadError::Decode(error)),
                    Ok(settings) => match accept(settings) {
                        Ok(accepted) => Ok(accepted),
                        Err(error) => Err(LoadError::Settings(error)),
                    },
                };
                assert(call_ensures(decode, (section,), outcome));
                assert(decoded_outcome(outcome, loaded));
                loaded
            },
        }
    }
}

/// A budget is accepted from a thousand to a million tokens. Where nothing is set the
/// working memory is not in use, and its budget would be twenty thousand.
pub proof fn budgets_lie_within_their_limits(settings: Settings)
    ensures
        settings.wf() <==> 1_000 <= settings.history_token_budget <= 1_000_000,
        !Settings::unset().enabled,
        Settings::unset().history_token_budget == 20_000,
{
}

/// One byte order mark in front of a file is dropped, and nothing else of it.
pub proof fn only_the_mark_is_dropped(bytes: Seq<u8>)
    ensures
        without_mark(seq![0xefu8, 0xbbu8, 0xbfu8] + bytes) == bytes,
        !seq![0xefu8, 0xbbu8, 0xbfu8].is_prefix_of(bytes) ==> without_mark(bytes) == bytes,
{
    let mark = seq![0xefu8, 0xbbu8, 0xbfu8];
    assert((mark + bytes).skip(3) =~= bytes);
    if bytes.len() >= 3 && bytes[0] == 0xef && bytes[1] == 0xbb && bytes[2] == 0xbf {
        assert(mark =~= bytes.subrange(0, 3));
    }
}

/// A document with a member `codex_memory` asks to decode that member, and any other
/// document asks for what holds where nothing is set.
pub proof fn only_the_section_is_decoded(document: serde_json::Value, step: SettingsStep)
    requires
        document_step(document, step),
    ensures
        ({
            let name = seq!['c', 'o', 'd', 'e', 'x', '_', 'm', 'e', 'm', 'o', 'r', 'y'];
            let members = json::json_members(document);
            &&& members.contains_key(name) ==> step == SettingsStep::Decode(members[name])
            &&& !members.contains_key(name) ==> step == SettingsStep::Done(
                Settings { enabled: false, history_token_budget: 20_000 },
            )
        }),
{
    reveal_strlit("codex_memory");
    assert("codex_memory"@ =~= seq!['c', 'o', 'd', 'e', 'x', '_', 'm', 'e', 'm', 'o', 'r', 'y']);
}

/// Decoded settings are loaded as they are where their budget lies within the limits.
/// They are never changed, and an error of the decoder is handed on.
pub proof fn decoded_settings_are_loaded_unchanged<E>(
    decoded: Result<Settings, E>,
    loaded: Result<Settings, LoadError<E>>,
)
    requires
        decoded_outcome(decoded, loaded),
    ensures
        match loaded {
            Ok(settings) => decoded == Ok::<Settings, E>(settings) && 1_000
                <= settings.history_token_budget <= 1_000_000,
            Err(LoadError::Decode(error)) => decoded == Err::<Settings, E>(error),
            Err(LoadError::Settings(error)) => error is BudgetOutOfRange && decoded is Ok && !(1_000
                <= decoded->Ok_0.history_token_budget <= 1_000_000),
        },
{
}

} // verus!
