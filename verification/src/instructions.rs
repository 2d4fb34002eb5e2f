//! The prompt fragment that carries the turn index.

use vstd::prelude::*;
use vstd::string::*;

verus! {

/// The text in front of the turn index.
pub open spec fn instructions_lead() -> Seq<char> {
    "History is bounded. The turn index is only a summary; use history_read with turn IDs (T001, etc.) for missing details. Never invent missing context or repeat completed work solely because it is outside the window.\n"@
}

/// The rendered turn index, to be shown to the model.
#[derive(Debug)]
pub struct WorkingMemoryInstructions(pub String);

impl WorkingMemoryInstructions {
    /// What kind of content the fragment is.
    pub fn content_kind(&self) -> (kind: String)
        ensures
            kind@ == "working_memory.instructions"@,
    {
        "working_memory.instructions".to_owned()
    }

    /// In whose name the fragment stands in the prompt.
    pub fn role(&self) -> (role: &'static str)
        ensures
            role@ == "developer"@,
    {
        "developer"
    }

    /// The marks around the fragment.
    pub fn markers(&self) -> (marks: (&'static str, &'static str))
        ensures
            marks.0@ == "<working_memory>"@,
            marks.1@ == "</working_memory>"@,
    {
        Self::type_markers()
    }

    /// The marks around every fragment of this type.
    pub fn type_markers() -> (marks: (&'static str, &'static str))
        ensures
            marks.0@ == "<working_memory>"@,
            marks.1@ == "</working_memory>"@,
    {
        ("<working_memory>", "</working_memory>")
    }

    /// The instructions with the turn index behind them.
    pub fn body(&self) -> (body: String)
        ensures
            body@ == instructions_lead() + self.0@,
    {
        let mut body =
            "History is bounded. The turn index is only a summary; use history_read with turn IDs (T001, etc.) for missing details. Never invent missing context or repeat completed work solely because it is outside the window.\n".to_owned();
        body.append(self.0.as_str());
        body
    }
}

} // verus!
