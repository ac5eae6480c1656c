//! The dispatcher: from a request to the one codec call that serves it.
//!
//! The dispatcher decides and the caller acts. Each step takes the state
//! and what has just happened, and gives the next state and what to do
//! now: look at the archive, invoke the codec, or hand the result on.

use vstd::prelude::*;
use crate::error::ArchiveError;
use crate::format::codec_from_extension;
use crate::format::codec_of_kind;
use crate::format::codec_of_name;
use crate::format::CodecKind;
use crate::format::FormatKind;
use crate::request::Operation;
use crate::request::OperationRequest;

verus! {

/// Where a request stands.
#[derive(Clone, Copy, Debug, PartialEq, Eq, Structural)]
pub enum State {
    /// No request yet.
    Idle,
    /// The format is being made out.
    Resolving { operation: Operation, named: Option<CodecKind>, detect: bool },
    /// The codec is at work.
    Executing { operation: Operation, codec: CodecKind },
    /// The request was served.
    Done,
    /// The request failed, with this error.
    Failed { error: ArchiveError },
}

/// What has just happened.
#[derive(Clone, Copy, Debug, PartialEq, Eq, Structural)]
pub enum Event {
    /// A request came in: its operation, the codec that the archive's name
    /// asks for, and whether the leading bytes are to be looked at anyway.
    Submitted { operation: Operation, named: Option<CodecKind>, reverify: bool },
    /// The archive was looked at: whether it exists, and what its leading
    /// bytes identify, where they were read.
    Probed { present: bool, detected: Option<FormatKind> },
    /// The codec has finished.
    Completed,
    /// The codec has failed.
    Faulted { error: ArchiveError },
}

/// What to do now.
#[derive(Clone, Copy, Debug, PartialEq, Eq, Structural)]
pub enum Action {
    /// See whether the archive exists and, if asked, read its leading bytes.
    Probe { detect: bool },
    /// Make the one codec call of this request.
    Invoke { operation: Operation, codec: CodecKind },
    /// Hand the result to the caller.
    Deliver,
    /// Hand the error to the caller, as it is.
    Report { error: ArchiveError },
    /// Nothing: the event does not belong to the state.
    Ignore,
}

/// Whether the leading bytes are to be read: where the name tells no
/// format, and where the request asks for it.
pub open spec fn wants_detection(named: Option<CodecKind>, reverify: bool) -> bool {
    named.is_none() || reverify
}

/// The codec of what was detected, if the bytes were read and known.
pub open spec fn detected_codec(detected: Option<FormatKind>) -> Option<CodecKind> {
    match detected {
        Some(kind) => codec_of_kind(kind),
        None => None,
    }
}

/// The codec for a request. An archive that does not exist can only be
/// added to, which creates it in the format of its name. For one that
/// exists, the signature decides where it was read and is known, also
/// against the name; else the name decides. Where neither tells a
/// format, the request cannot be served.
pub open spec fn resolved(
    operation: Operation,
    named: Option<CodecKind>,
    present: bool,
    detected: Option<FormatKind>,
) -> Result<CodecKind, ArchiveError> {
    if !present {
        if operation != Operation::Add {
            Err(ArchiveError::NotFound)
        } else {
            match named {
                Some(codec) => Ok(codec),
                None => Err(ArchiveError::UnsupportedFormat),
            }
        }
    } else {
        match detected_codec(detected) {
            Some(codec) => Ok(codec),
            None => match named {
                Some(codec) => Ok(codec),
                None => Err(ArchiveError::UnsupportedFormat),
            },
        }
    }
}

/// One step of the dispatcher: the next state and the action.
pub open spec fn stepped(state: State, event: Event) -> (State, Action) {
    match (state, event) {
        (State::Idle, Event::Submitted { operation, named, reverify }) => (
            State::Resolving { operation, named, detect: wants_detection(named, reverify) },
            Action::Probe { detect: wants_detection(named, reverify) },
        ),
        (State::Resolving { operation, named, detect }, Event::Probed { present, detected }) => {
            let seen = if detect {
                detected
            } else {
                None
            };
            match resolved(operation, named, present, seen) {
                Ok(codec) => (
                    State::Executing { operation, codec },
                    Action::Invoke { operation, codec },
                ),
                Err(error) => (State::Failed { error }, Action::Report { error }),
            }
        },
        (State::Executing { operation, codec }, Event::Completed) => (State::Done, Action::Deliver),
        (State::Executing { operation, codec }, Event::Faulted { error }) => (
            State::Failed { error },
            Action::Report { error },
        ),
        _ => (state, Action::Ignore),
    }
}

/// The state after a run of events.
pub open spec fn state_after(state: State, events: Seq<Event>) -> State
    decreases events.len(),
{
    if events.len() == 0 {
        state
    } else {
        stepped(state_after(state, events.drop_last()), events.last()).0
    }
}

/// How many codec calls a run of events asks for.
pub open spec fn invocations(state: State, events: Seq<Event>) -> nat
    decreases events.len(),
{
    if events.len() == 0 {
        0
    } else {
        let before = invocations(state, events.drop_last());
        match stepped(state_after(state, events.drop_last()), events.last()).1 {
            Action::Invoke { .. } => before + 1,
            _ => before,
        }
    }
}

/// How far a request has come: a step never leads back.
pub open spec fn progress(state: State) -> nat {
    match state {
        State::Idle => 0,
        State::Resolving { .. } => 1,
        State::Executing { .. } => 2,
        State::Done => 3,
        State::Failed { .. } => 3,
    }
}

/// A step never leads back, the codec is invoked exactly on the step into
/// `Executing`, and a finished request stays finished.
pub proof fn lemma_step_forward(state: State, event: Event)
    ensures
        progress(stepped(state, event).0) >= progress(state),
        (stepped(state, event).1 is Invoke) <==> (state is Resolving && stepped(state, event).0
            is Executing),
        progress(state) == 3 ==> stepped(state, event) == (state, Action::Ignore),
{
}

/// Whatever happens, one request leads to at most one codec call; and once
/// the call was asked for, the request has left `Resolving` for good.
pub proof fn lemma_one_invocation(events: Seq<Event>)
    ensures
        invocations(State::Idle, events) <= 1,
        invocations(State::Idle, events) == 1 ==> progress(state_after(State::Idle, events)) >= 2,
        progress(state_after(State::Idle, events)) <= 1 ==> invocations(State::Idle, events) == 0,
    decreases events.len(),
{
    if events.len() > 0 {
        let front = events.drop_last();
        lemma_one_invocation(front);
        lemma_step_forward(state_after(State::Idle, front), events.last());
    }
}

/// Whether the format of the archive is known in this state after this
/// look at the archive: by the archive's name, or by its leading bytes
/// where they were asked for.
pub open spec fn format_known(state: State, event: Event) -> bool {
    match (state, event) {
        (State::Resolving { operation, named, detect }, Event::Probed { present, detected }) => {
            &&& named.is_some() || (detect && detected_codec(detected).is_some())
            &&& present || operation == Operation::Add
        },
        _ => false,
    }
}

/// No codec is invoked unless the format is known, and unless the
/// archive exists or is about to be created by an add.
pub proof fn lemma_invoke_needs_format(state: State, event: Event)
    requires
        stepped(state, event).1 is Invoke,
    ensures
        format_known(state, event),
{
    match (state, event) {
        (State::Resolving { operation, named, detect }, Event::Probed { present, detected }) => {
            let seen = if detect {
                detected
            } else {
                None
            };
            assert(resolved(operation, named, present, seen).is_ok());
        },
        _ => {},
    }
}

/// A codec's error reaches the caller as it is.
pub proof fn lemma_error_unchanged(operation: Operation, codec: CodecKind, error: ArchiveError)
    ensures
        stepped(State::Executing { operation, codec }, Event::Faulted { error }) == (
            State::Failed { error },
            Action::Report { error },
        ),
{
}

/// Where name and signature disagree on an archive that exists and whose
/// leading bytes were read, the signature is trusted; an archive that an
/// add is about to create gets the format of its name.
pub proof fn lemma_tie_break(
    operation: Operation,
    by_name: CodecKind,
    by_bytes: FormatKind,
)
    requires
        codec_of_kind(by_bytes).is_some(),
    ensures
        resolved(operation, Some(by_name), true, Some(by_bytes)) == Ok::<CodecKind, ArchiveError>(
            codec_of_kind(by_bytes).unwrap(),
        ),
        resolved(Operation::Add, Some(by_name), false, None) == Ok::<CodecKind, ArchiveError>(
            by_name,
        ),
{
}

/// The codec for a request.
pub fn resolve(
    operation: Operation,
    named: Option<CodecKind>,
    present: bool,
    detected: Option<FormatKind>,
) -> (result: Result<CodecKind, ArchiveError>)
    ensures
        result == resolved(operation, named, present, detected),
{
    if !present {
        match operation {
            Operation::Add => match named {
                Some(codec) => Ok(codec),
                None => Err(ArchiveError::UnsupportedFormat),
            },
            _ => Err(ArchiveError::NotFound),
        }
    } else {
        let by_bytes = match detected {
            Some(kind) => kind.codec(),
            None => None,
        };
        match by_bytes {
            Some(codec) => Ok(codec),
            None => match named {
                Some(codec) => Ok(codec),
                None => Err(ArchiveError::UnsupportedFormat),
            },
        }
    }
}

/// One step of the dispatcher.
pub fn step(state: State, event: Event) -> (next: (State, Action))
    ensures
        next == stepped(state, event),
{
    match state {
        State::Idle => match event {
            Event::Submitted { operation, named, reverify } => {
                let detect = named.is_none() || reverify;
                (State::Resolving { operation, named, detect }, Action::Probe { detect })
            },
            _ => (state, Action::Ignore),
        },
        State::Resolving { operation, named, detect } => match event {
            Event::Probed { present, detected } => {
                let seen = if detect {
                    detected
                } else {
                    None
                };
                match resolve(operation, named, present, seen) {
                    Ok(codec) => (
                        State::Executing { operation, codec },
                        Action::Invoke { operation, codec },
                    ),
                    Err(error) => (State::Failed { error }, Action::Report { error }),
                }
            },
            _ => (state, Action::Ignore),
        },
        State::Executing { operation, codec } => match event {
            Event::Completed => (State::Done, Action::Deliver),
            Event::Faulted { error } => (State::Failed { error }, Action::Report { error }),
            _ => (state, Action::Ignore),
        },
        _ => (state, Action::Ignore),
    }
}

/// The event that a request starts with.
pub fn submit(request: &OperationRequest) -> (event: Event)
    ensures
        event == (Event::Submitted {
            operation: request@.operation,
            named: codec_of_name(request@.archive_path),
            reverify: request@.reverify,
        }),
{
    Event::Submitted {
        operation: request.operation,
        named: codec_from_extension(request.archive_path.as_str()),
        reverify: request.reverify,
    }
}

} // verus!
