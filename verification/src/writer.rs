//! The privilege-aware write-back path, as a state machine over the outcomes
//! of the filesystem and elevation steps. The surrounding application
//! performs the steps — a direct write, staging to a scratch file, invoking
//! the platform's elevation mechanism — and feeds each outcome back in as an
//! event; the machine decides what happens next and which terminal outcome
//! the operation reports.
use vstd::prelude::*;

use crate::text::{contains_bytes, contains_sub};
use crate::HostsError;

verus! {

/// Where the write-back attempt stands.
#[derive(Clone, Copy, Debug, PartialEq, Eq, Structural)]
pub enum WriteState {
    /// Attempting a full-content overwrite at the target path.
    Direct,
    /// The direct write was denied; writing the content to a scratch file.
    StagingTemp,
    /// Invoking the elevation mechanism to copy the staged file into place.
    Elevating,
    /// The content reached the target path.
    Success,
    /// The operation ended without writing; the reason is reported.
    Failed(HostsError),
}

/// What one step of outside work came back with.
#[derive(Clone, Copy, Debug, PartialEq, Eq, Structural)]
pub enum WriteEvent {
    /// The direct write succeeded.
    DirectOk,
    /// The direct write failed with a permission-denied kind.
    DirectDenied,
    /// The direct write failed with any other I/O error.
    DirectIoError,
    /// The scratch file was written.
    StageOk,
    /// The scratch file could not be written.
    StageIoError,
    /// The elevation mechanism exited with status zero.
    ElevateOk,
    /// It exited non-zero and its diagnostics indicate user cancellation.
    ElevateCancelled,
    /// It exited non-zero for any other reason.
    ElevateFailed,
    /// It could not be launched at all.
    ElevateLaunchFailed,
}

/// The transition relation: which state each event leads to. An event that
/// does not belong to the current state leaves the state unchanged, and the
/// terminal states ignore every event.
pub open spec fn step_spec(s: WriteState, e: WriteEvent) -> WriteState {
    match s {
        WriteState::Direct => match e {
            WriteEvent::DirectOk => WriteState::Success,
            WriteEvent::DirectDenied => WriteState::StagingTemp,
            WriteEvent::DirectIoError => WriteState::Failed(HostsError::Io),
            _ => s,
        },
        WriteState::StagingTemp => match e {
            WriteEvent::StageOk => WriteState::Elevating,
            WriteEvent::StageIoError => WriteState::Failed(HostsError::Io),
            _ => s,
        },
        WriteState::Elevating => match e {
            WriteEvent::ElevateOk => WriteState::Success,
            WriteEvent::ElevateCancelled => WriteState::Failed(HostsError::AuthenticationFailed),
            WriteEvent::ElevateFailed => WriteState::Failed(HostsError::PermissionDenied),
            WriteEvent::ElevateLaunchFailed => WriteState::Failed(HostsError::PermissionDenied),
            _ => s,
        },
        WriteState::Success => s,
        WriteState::Failed(_) => s,
    }
}

/// The machine has reached an outcome.
pub open spec fn is_terminal(s: WriteState) -> bool {
    s is Success || s is Failed
}

/// The event the current state is waiting for.
pub open spec fn event_fits(s: WriteState, e: WriteEvent) -> bool {
    match s {
        WriteState::Direct => e is DirectOk || e is DirectDenied || e is DirectIoError,
        WriteState::StagingTemp => e is StageOk || e is StageIoError,
        WriteState::Elevating => e is ElevateOk || e is ElevateCancelled || e is ElevateFailed
            || e is ElevateLaunchFailed,
        _ => false,
    }
}

/// Advances the write-back machine by one outside outcome.
pub fn writer_step(s: &WriteState, e: &WriteEvent) -> (r: WriteState)
    ensures
        r == step_spec(*s, *e),
{
    match s {
        WriteState::Direct => match e {
            WriteEvent::DirectOk => WriteState::Success,
            WriteEvent::DirectDenied => WriteState::StagingTemp,
            WriteEvent::DirectIoError => WriteState::Failed(HostsError::Io),
            _ => *s,
        },
        WriteState::StagingTemp => match e {
            WriteEvent::StageOk => WriteState::Elevating,
            WriteEvent::StageIoError => WriteState::Failed(HostsError::Io),
            _ => *s,
        },
        WriteState::Elevating => match e {
            WriteEvent::ElevateOk => WriteState::Success,
            WriteEvent::ElevateCancelled => WriteState::Failed(HostsError::AuthenticationFailed),
            WriteEvent::ElevateFailed => WriteState::Failed(HostsError::PermissionDenied),
            WriteEvent::ElevateLaunchFailed => WriteState::Failed(HostsError::PermissionDenied),
            _ => *s,
        },
        WriteState::Success => *s,
        WriteState::Failed(_) => *s,
    }
}

/// `"User canceled"`, one of the diagnostics that mark user cancellation.
pub open spec fn cancel_text_a() -> Seq<u8> {
    seq![
        85u8, 115u8, 101u8, 114u8, 32u8, 99u8, 97u8, 110u8, 99u8, 101u8, 108u8, 101u8, 100u8,
    ]
}

/// `"cancelled"`, the other cancellation diagnostic.
pub open spec fn cancel_text_b() -> Seq<u8> {
    seq![99u8, 97u8, 110u8, 99u8, 101u8, 108u8, 108u8, 101u8, 100u8]
}

fn cancel_text_a_vec() -> (r: Vec<u8>)
    ensures
        r@ == cancel_text_a(),
{
    let mut v: Vec<u8> = Vec::new();
    v.push(85);
    v.push(115);
    v.push(101);
    v.push(114);
    v.push(32);
    v.push(99);
    v.push(97);
    v.push(110);
    v.push(99);
    v.push(101);
    v.push(108);
    v.push(101);
    v.push(100);
    proof {
        assert(v@ =~= cancel_text_a());
    }
    v
}

fn cancel_text_b_vec() -> (r: Vec<u8>)
    ensures
        r@ == cancel_text_b(),
{
    let mut v: Vec<u8> = Vec::new();
    v.push(99);
    v.push(97);
    v.push(110);
    v.push(99);
    v.push(101);
    v.push(108);
    v.push(108);
    v.push(101);
    v.push(100);
    proof {
        assert(v@ =~= cancel_text_b());
    }
    v
}

/// The event an exit of the elevation mechanism maps to: success on a zero
/// status; on a non-zero status, cancellation when the diagnostic output
/// carries either cancellation text, any other failure otherwise.
pub open spec fn elevation_event(exit_ok: bool, diagnostics: Seq<u8>) -> WriteEvent {
    if exit_ok {
        WriteEvent::ElevateOk
    } else if contains_sub(diagnostics, cancel_text_a()) || contains_sub(
        diagnostics,
        cancel_text_b(),
    ) {
        WriteEvent::ElevateCancelled
    } else {
        WriteEvent::ElevateFailed
    }
}

/// Classifies what the elevation mechanism's exit status and diagnostic
/// output mean for the write-back machine.
pub fn classify_elevation(exit_ok: bool, diagnostics: &[u8]) -> (e: WriteEvent)
    ensures
        e == elevation_event(exit_ok, diagnostics@),
{
    if exit_ok {
        return WriteEvent::ElevateOk;
    }
    let a = cancel_text_a_vec();
    let b = cancel_text_b_vec();
    if contains_bytes(diagnostics, a.as_slice()) || contains_bytes(diagnostics, b.as_slice()) {
        WriteEvent::ElevateCancelled
    } else {
        WriteEvent::ElevateFailed
    }
}

/// From the starting state, fitting events drive the machine to a terminal
/// outcome in at most three steps, and only the documented outcomes arise.
pub proof fn lemma_writer_terminates(e1: WriteEvent, e2: WriteEvent, e3: WriteEvent)
    requires
        event_fits(WriteState::Direct, e1),
        !is_terminal(step_spec(WriteState::Direct, e1)) ==> event_fits(
            step_spec(WriteState::Direct, e1),
            e2,
        ),
        !is_terminal(step_spec(step_spec(WriteState::Direct, e1), e2)) ==> event_fits(
            step_spec(step_spec(WriteState::Direct, e1), e2),
            e3,
        ),
    ensures
        is_terminal(step_spec(step_spec(step_spec(WriteState::Direct, e1), e2), e3)),
        step_spec(step_spec(step_spec(WriteState::Direct, e1), e2), e3) matches
            WriteState::Failed(err) ==> err != HostsError::GroupNotFound,
{
}

} // verus!
