//! The decisions of an interactive session: what each command does to the
//! candidates and what should be shown next.
use vstd::prelude::*;
use crate::command::Command;
use crate::feedback::{FeedbackError, instructions_of, symbol_of, valid_prefix};
use crate::filter::{apply_all, filter_by_guess, reset, words_view};

verus! {

/// What the session asks its caller to do after a command.
#[derive(Debug, Clone, PartialEq, Eq)]
pub enum Action {
    /// Nothing: read the next line.
    Prompt,
    /// Show the help text.
    ShowHelp,
    /// The candidates changed: score and rank them again, and show the top ones.
    Refresh,
    /// Show this many of the current ranking.
    ShowTop(usize),
    /// Show every word of the current ranking.
    ShowEverything,
    /// The argument of `s` was not a count.
    NotANumber(String),
    /// The line was neither a guess nor a command; holds its first token.
    NotACommand(String),
    /// The guess and feedback could not be interpreted; nothing changed.
    Rejected(FeedbackError),
    /// End the session.
    Quit,
}

/// The state of a session: the dictionary, the length of its words, the
/// surviving candidates, and how many ranked words to show each round.
pub struct Session {
    pub dictionary: Vec<String>,
    pub word_len: usize,
    pub words: Vec<String>,
    pub top_n: usize,
}

impl Session {
    /// A session over a dictionary, with every word a candidate.
    pub fn new(dictionary: Vec<String>, word_len: usize, top_n: usize) -> (r: Session)
        ensures
            r.dictionary@ == dictionary@,
            r.word_len == word_len,
            r.words@ == dictionary@,
            r.top_n == top_n,
    {
        let mut words: Vec<String> = Vec::new();
        reset(&mut words, &dictionary);
        Session { dictionary, word_len, words, top_n }
    }

    /// Carries out one command and says what to show next.
    pub fn handle(&mut self, cmd: Command) -> (r: Action)
        ensures
            final(self).dictionary@ == old(self).dictionary@,
            final(self).word_len == old(self).word_len,
            match cmd {
                Command::Empty => r is Prompt && final(self).words@ == old(self).words@
                    && final(self).top_n == old(self).top_n,
                Command::Help => r is ShowHelp && final(self).words@ == old(self).words@
                    && final(self).top_n == old(self).top_n,
                Command::Reset => r is Refresh && final(self).words@ == old(self).dictionary@
                    && final(self).top_n == old(self).top_n,
                Command::ShowAll => r is ShowEverything && final(self).words@ == old(self).words@
                    && final(self).top_n == old(self).top_n,
                Command::SetTopN(n) => r == Action::ShowTop(n) && final(self).words@ == old(self).words@
                    && final(self).top_n == n,
                Command::BadNumber(a) => r == Action::NotANumber(a) && final(self).words@ == old(
                    self,
                ).words@ && final(self).top_n == old(self).top_n,
                Command::Unknown(t) => r == Action::NotACommand(t) && final(self).words@ == old(
                    self,
                ).words@ && final(self).top_n == old(self).top_n,
                Command::Quit => r is Quit && final(self).words@ == old(self).words@
                    && final(self).top_n == old(self).top_n,
                Command::Guess(g, f) => final(self).top_n == old(self).top_n && if g@.len() == old(
                    self,
                ).word_len && f@.len() == old(self).word_len && valid_prefix(f@, f@.len() as int) {
                    r is Refresh && words_view(final(self).words@) == apply_all(
                        words_view(old(self).words@),
                        instructions_of(g@, f@),
                    )
                } else if g@.len() != old(self).word_len || f@.len() != old(self).word_len {
                    r == Action::Rejected(FeedbackError::LengthMismatch) && final(self).words@ == old(
                        self,
                    ).words@
                } else {
                    final(self).words@ == old(self).words@ && exists|k: int|
                        0 <= k < f@.len() && valid_prefix(f@, k) && symbol_of(#[trigger] f@[k]) is None
                            && r == Action::Rejected(FeedbackError::InvalidSymbol(f@[k]))
                },
            },
    {
        match cmd {
            Command::Empty => Action::Prompt,
            Command::Help => Action::ShowHelp,
            Command::Reset => {
                reset(&mut self.words, &self.dictionary);
                Action::Refresh
            },
            Command::ShowAll => Action::ShowEverything,
            Command::SetTopN(n) => {
                self.top_n = n;
                Action::ShowTop(n)
            },
            Command::BadNumber(a) => Action::NotANumber(a),
            Command::Unknown(t) => Action::NotACommand(t),
            Command::Quit => Action::Quit,
            Command::Guess(g, f) => match filter_by_guess(&mut self.words, self.word_len, g.as_str(), f.as_str()) {
                Ok(()) => Action::Refresh,
                Err(e) => Action::Rejected(e),
            },
        }
    }
}

} // verus!
