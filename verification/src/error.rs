//! Errors.

use vstd::prelude::*;

use crate::text;

verus! {

/// What can go wrong.
#[derive(Debug)]
pub enum LoopError {
    /// A provider failed or answered what cannot be used.
    Api(String),
    /// A store failed.
    Memory(String),
    /// A tool is not registered.
    ToolNotFound { name: String },
}

/// What an error says.
pub enum ErrorView {
    Api(Seq<char>),
    Memory(Seq<char>),
    ToolNotFound { name: Seq<char> },
}

impl View for LoopError {
    type V = ErrorView;

    open spec fn view(&self) -> ErrorView {
        match self {
            LoopError::Api(m) => ErrorView::Api(m@),
            LoopError::Memory(m) => ErrorView::Memory(m@),
            LoopError::ToolNotFound { name } => ErrorView::ToolNotFound { name: name@ },
        }
    }
}

/// The text of an error.
pub open spec fn error_text(e: ErrorView) -> Seq<char> {
    match e {
        ErrorView::Api(m) => m,
        ErrorView::Memory(m) => m,
        ErrorView::ToolNotFound { name } => "Tool '"@ + name + "' not found"@,
    }
}

impl LoopError {
    /// The text of the error.
    pub fn to_text(&self) -> (out: String)
        ensures
            out@ == error_text(self@),
    {
        match self {
            LoopError::Api(m) => m.clone(),
            LoopError::Memory(m) => m.clone(),
            LoopError::ToolNotFound { name } => {
                let mut out = String::from_str("Tool '");
                text::push_text(&mut out, name.as_str());
                text::push_text(&mut out, "' not found");
                out
            },
        }
    }
}

/// An error is told in its own words; of a missing tool its name is told.
pub proof fn an_error_is_told_in_its_own_words(m: Seq<char>)
    ensures
        error_text(ErrorView::Api(m)) == m,
        error_text(ErrorView::Memory(m)) == m,
        error_text(ErrorView::ToolNotFound { name: m }) == "Tool '"@ + m + "' not found"@,
{
}

} // verus!
