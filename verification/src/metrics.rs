//! The names under which command metrics are recorded.
use vstd::prelude::*;

use crate::text::string_from;

verus! {

/// A command, as a dimension of the command metrics.
#[derive(Debug, Clone, Copy, PartialEq, Eq)]
pub enum CommandDimension {
    Quote,
    QuoteAll,
    GenQuote,
    AddQuote,
    MarkovQuote,
    Status,
    Slap,
    Help,
}

/// The name that a command is recorded under.
pub open spec fn dimension_name(c: CommandDimension) -> Seq<char> {
    match c {
        CommandDimension::Quote => "quote"@,
        CommandDimension::QuoteAll => "quoteall"@,
        CommandDimension::GenQuote => "gen"@,
        CommandDimension::AddQuote => "addquote"@,
        CommandDimension::MarkovQuote => "markov"@,
        CommandDimension::Status => "status"@,
        CommandDimension::Slap => "slap"@,
        CommandDimension::Help => "help"@,
    }
}

impl CommandDimension {
    /// The name that the command is recorded under.
    pub fn to_string(&self) -> (r: String)
        ensures
            r@ == dimension_name(*self),
    {
        match self {
            CommandDimension::Quote => string_from("quote"),
            CommandDimension::QuoteAll => string_from("quoteall"),
            CommandDimension::GenQuote => string_from("gen"),
            CommandDimension::AddQuote => string_from("addquote"),
            CommandDimension::MarkovQuote => string_from("markov"),
            CommandDimension::Status => string_from("status"),
            CommandDimension::Slap => string_from("slap"),
            CommandDimension::Help => string_from("help"),
        }
    }
}

} // verus!
