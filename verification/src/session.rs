use crate::analysis::{FindRulesState, FindRulesView};
use crate::change::{change, common};
use crate::error::SearchError;
use crate::laws::search::starts_search;
use crate::span::ChangedSpan;
use vstd::prelude::*;
use vstd::string::*;
use vstd::utf8::*;

verus! {

/// Which version of the code is compiled.
#[derive(PartialEq, Eq, Structural, Debug, Copy, Clone)]
pub enum Version {
    /// The code as it is now.
    Modified,
    /// The code with the original contents of the changed file. Before it is compiled the changed
    /// part was known to be this.
    Original(ChangedSpan),
}

/// A search for the rule of a change. It asks for the modified code to be compiled, with one
/// command line after the other until an expression is found around the change, and then for the
/// original code with the same command line. If the expression that is found there takes in more
/// of the file then the modified code has to be looked at again.
pub struct Session {
    pub state: FindRulesState,
    /// What is to be compiled next.
    pub version: Version,
    /// The command line to compile it with.
    pub args_index: usize,
    /// How many command lines there are.
    pub command_count: usize,
}

/// A search for the rule of a change, whatever holds its parts.
pub struct SessionView {
    pub state: FindRulesView,
    pub version: Version,
    pub args_index: int,
    pub command_count: int,
}

impl View for Session {
    type V = SessionView;

    open spec fn view(&self) -> SessionView {
        SessionView {
            state: self.state@,
            version: self.version,
            args_index: self.args_index as int,
            command_count: self.command_count as int,
        }
    }
}

/// What comes after a version was compiled and analysed.
pub enum Step {
    /// Another version is to be compiled.
    Compile(SessionView),
    /// The search is done, and this is the rule.
    Done(Seq<char>),
    Failed(SearchError),
}

/// What comes after the version that a session asked for was compiled and analysed.
pub open spec fn next_step(session: SessionView) -> Step {
    match session.version {
        Version::Modified => if session.state.changed_side is Some {
            Step::Compile(
                SessionView {
                    version: Version::Original(session.state.changed_span),
                    ..session
                },
            )
        } else if session.args_index + 1 < session.command_count {
            Step::Compile(SessionView { args_index: session.args_index + 1, ..session })
        } else {
            Step::Failed(SearchError::NoModifiedExpression)
        },
        Version::Original(changed_span) => if changed_span == session.state.changed_span {
            Step::Done(session.state.result)
        } else {
            Step::Compile(SessionView { version: Version::Modified, ..session })
        },
    }
}

impl Session {
    /// There is a command line for the next version.
    pub open spec fn wf(self) -> bool {
        self.args_index < self.command_count
    }

    /// Starts the search for the rule that leads from `original_source` to `modified_source`.
    pub fn start(
        modified_file_name: &str,
        modified_source: String,
        original_source: &str,
        command_count: usize,
    ) -> (r: Result<Session, SearchError>)
        requires
            change(encode_utf8(original_source@), encode_utf8(modified_source@)) is Some
                ==> command_count > 0,
        ensures
            match change(encode_utf8(original_source@), encode_utf8(modified_source@)) {
                None => r is Err && r->Err_0 == SearchError::NothingChanged,
                Some(changed_span) => r is Ok && {
                    let session = r->Ok_0;
                    &&& session.wf()
                    &&& session.version == Version::Modified
                    &&& session.args_index == 0
                    &&& session.command_count == command_count
                    &&& session.state.modified_file_name@ == modified_file_name@
                    &&& session.state.modified_source == modified_source
                    &&& session.state.changed_span == changed_span
                    &&& session.state.result@ == Seq::<char>::empty()
                    &&& session.state.changed_side_state is None
                    &&& starts_search(session@, original_source@, modified_source@)
                },
            },
    {
        match common(original_source, modified_source.as_str()) {
            None => Err(SearchError::NothingChanged),
            Some(changed_span) => Ok(
                Session {
                    state: FindRulesState {
                        modified_file_name: modified_file_name.to_owned(),
                        modified_source,
                        changed_span,
                        changed_side_state: None,
                        result: String::new(),
                    },
                    version: Version::Modified,
                    args_index: 0,
                    command_count,
                },
            ),
        }
    }

    /// Goes on after the version that was asked for was compiled and analysed. Gives the rule if
    /// the search is done.
    pub fn compiled(&mut self) -> (r: Result<Option<String>, SearchError>)
        requires
            old(self).wf(),
        ensures
            final(self).wf(),
            match next_step(old(self)@) {
                Step::Compile(session) => r is Ok && r->Ok_0 is None && final(self)@ == session,
                Step::Done(rule) => r is Ok && r->Ok_0 is Some && r->Ok_0->0@ == rule
                    && *final(self) == *old(self),
                Step::Failed(e) => r is Err && r->Err_0 == e && *final(self) == *old(self),
            },
    {
        match self.version {
            Version::Modified => {
                if self.state.changed_side_state.is_some() {
                    self.version = Version::Original(self.state.changed_span);
                    Ok(None)
                } else if self.args_index + 1 < self.command_count {
                    self.args_index = self.args_index + 1;
                    Ok(None)
                } else {
                    Err(SearchError::NoModifiedExpression)
                }
            },
            Version::Original(right_side_changed_span) => {
                if right_side_changed_span == self.state.changed_span {
                    Ok(Some(self.state.result.clone()))
                } else {
                    self.version = Version::Modified;
                    Ok(None)
                }
            },
        }
    }
}

} // verus!
