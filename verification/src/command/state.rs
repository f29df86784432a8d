//! The decoder's per-frame working state: the keyword seen so far and the
//! argument list being assembled. Reset after each complete frame so that
//! pipelined frames decode without residual state.
use vstd::prelude::*;

use crate::command::Command;
use crate::command::CommandModel;
use crate::command::Keyword;
use crate::command::ParseError;
use crate::command::is_mutable_spec;
use crate::command::keyword_from_word;
use crate::command::keyword_of_spec;

verus! {

enum ParseState {
    ParsingCommand,
    ParsingArgs(Keyword, Vec<String>),
}

/// The decoder's working state for one frame.
pub struct State {
    state: ParseState,
}

/// The mathematical value of a [`State`]: `kw` is `None` before the first
/// word of a frame has been seen.
pub ghost struct StateModel {
    pub kw: Option<Keyword>,
    pub args: Seq<Seq<char>>,
}

impl View for State {
    type V = StateModel;

    closed spec fn view(&self) -> StateModel {
        match self.state {
            ParseState::ParsingCommand => StateModel { kw: None, args: Seq::empty() },
            ParseState::ParsingArgs(k, args) => StateModel {
                kw: Some(k),
                args: args.deep_view(),
            },
        }
    }
}

/// The state at the start of a frame: no keyword, no arguments.
pub open spec fn empty_state() -> StateModel {
    StateModel { kw: None, args: Seq::empty() }
}

/// How one word advances the working state: the first word of a frame is
/// the keyword, every later word an argument.
pub open spec fn st_add(st: StateModel, w: Seq<char>) -> StateModel {
    match st.kw {
        None => StateModel { kw: Some(keyword_of_spec(w)), args: Seq::empty() },
        Some(k) => StateModel { kw: Some(k), args: st.args.push(w) },
    }
}

/// The command a completed frame denotes, for a state whose keyword has
/// been seen. The mutability flag is computed here, at construction time.
pub open spec fn st_command(st: StateModel) -> CommandModel {
    CommandModel {
        keyword: st.kw.unwrap(),
        args: st.args,
        mutable: is_mutable_spec(st.kw.unwrap()),
    }
}

impl State {
    /// A fresh working state, expecting the keyword of the next frame.
    pub fn new() -> (s: Self)
        ensures
            s@ == empty_state(),
    {
        State { state: ParseState::ParsingCommand }
    }

    /// Feeds one decoded word into the state.
    pub fn add_word(&mut self, word: &str)
        ensures
            final(self)@ == st_add(old(self)@, word@),
    {
        match &mut self.state {
            ParseState::ParsingCommand => {
                let keyword = keyword_from_word(word);
                self.state = ParseState::ParsingArgs(keyword, Vec::new());
                proof {
                    assert(final(self)@.args =~= st_add(old(self)@, word@).args);
                }
            },
            ParseState::ParsingArgs(_, args) => {
                args.push(String::from_str(word));
                proof {
                    assert(final(self)@.args =~= st_add(old(self)@, word@).args);
                }
            },
        }
    }

    /// The command the state denotes, or an error if no keyword has been
    /// seen yet.
    pub fn as_command(&self) -> (r: Result<Command, ParseError>)
        ensures
            match self@.kw {
                None => r == Err::<Command, ParseError>(ParseError::NoKeyword),
                Some(_) => r is Ok && r->Ok_0@ == st_command(self@),
            },
    {
        match &self.state {
            ParseState::ParsingCommand => Err(ParseError::NoKeyword),
            ParseState::ParsingArgs(keyword, args) => {
                let c = Command {
                    keyword: *keyword,
                    args: args.clone(),
                    mutable: keyword.is_mutable(),
                };
                proof {
                    assert(c@.args =~~= st_command(self@).args);
                }
                Ok(c)
            },
        }
    }
}

} // verus!
