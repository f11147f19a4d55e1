//! Diagnostics: a sink the lexer and parser hand error messages to.

use vstd::prelude::*;
use crate::lexer::{Token, TokenType};
use crate::text::push_char;
use vstd::string::StringExecFns;

verus! {

/// A sink for diagnostics keyed by source line and an optional location
/// context. The pipeline fires messages at it and never looks at what the
/// sink does with them.
pub trait ErrorReporter {
    /// Receive one diagnostic.
    fn report(&mut self, line: usize, location: String, msg: &str);

    /// A diagnostic without a location context.
    fn error(&mut self, line: usize, msg: &str) {
        self.report(line, String::new(), msg)
    }

    /// A diagnostic at a token: cites the token's lexeme, or the end of the
    /// input for the end-of-input token.
    fn error_token(&mut self, token: &Token, msg: &str) {
        if token.typ == TokenType::Eof {
            self.report(token.line, String::from_str(" at end"), msg)
        } else {
            let mut location = String::from_str(" at '");
            location.append(token.lexeme.as_str());
            push_char(&mut location, '\'');
            self.report(token.line, location, msg)
        }
    }
}

/// A reporter that keeps every diagnostic it receives, for callers that want
/// to look at them afterwards.
pub struct CollectingReporter {
    /// The diagnostics received so far: line, location context, message.
    pub entries: Vec<(usize, String, String)>,
}

impl CollectingReporter {
    /// An empty sink.
    pub fn new() -> (r: CollectingReporter)
        ensures
            r.entries@.len() == 0,
    {
        CollectingReporter { entries: Vec::new() }
    }

    /// How many diagnostics have arrived.
    pub fn count(&self) -> (r: usize)
        ensures
            r == self.entries@.len(),
    {
        self.entries.len()
    }
}

impl ErrorReporter for CollectingReporter {
    fn report(&mut self, line: usize, location: String, msg: &str) {
        let owned = String::from_str(msg);
        self.entries.push((line, location, owned));
    }
}

/// A reporter that drops every diagnostic.
pub struct SilentReporter;

impl ErrorReporter for SilentReporter {
    fn report(&mut self, line: usize, location: String, msg: &str) {
    }
}

} // verus!
