use hosts_switcher::writer::{classify_elevation, writer_step, WriteEvent, WriteState};
use hosts_switcher::HostsError;

#[test]
fn direct_write_success_ends_the_run() {
    let s = writer_step(&WriteState::Direct, &WriteEvent::DirectOk);
    assert_eq!(s, WriteState::Success);
}

#[test]
fn direct_denial_falls_back_to_staging() {
    let s = writer_step(&WriteState::Direct, &WriteEvent::DirectDenied);
    assert_eq!(s, WriteState::StagingTemp);
}

#[test]
fn other_direct_io_errors_fail_without_fallback() {
    let s = writer_step(&WriteState::Direct, &WriteEvent::DirectIoError);
    assert_eq!(s, WriteState::Failed(HostsError::Io));
}

#[test]
fn staged_content_moves_to_elevation() {
    let s = writer_step(&WriteState::StagingTemp, &WriteEvent::StageOk);
    assert_eq!(s, WriteState::Elevating);
}

#[test]
fn staging_failure_is_an_io_failure() {
    let s = writer_step(&WriteState::StagingTemp, &WriteEvent::StageIoError);
    assert_eq!(s, WriteState::Failed(HostsError::Io));
}

#[test]
fn elevation_success_ends_the_run() {
    let s = writer_step(&WriteState::Elevating, &WriteEvent::ElevateOk);
    assert_eq!(s, WriteState::Success);
}

#[test]
fn cancelled_elevation_is_authentication_failure() {
    let s = writer_step(&WriteState::Elevating, &WriteEvent::ElevateCancelled);
    assert_eq!(s, WriteState::Failed(HostsError::AuthenticationFailed));
}

#[test]
fn failed_elevation_is_permission_denied() {
    let s = writer_step(&WriteState::Elevating, &WriteEvent::ElevateFailed);
    assert_eq!(s, WriteState::Failed(HostsError::PermissionDenied));
    let s = writer_step(&WriteState::Elevating, &WriteEvent::ElevateLaunchFailed);
    assert_eq!(s, WriteState::Failed(HostsError::PermissionDenied));
}

#[test]
fn terminal_states_ignore_events() {
    let s = writer_step(&WriteState::Success, &WriteEvent::DirectIoError);
    assert_eq!(s, WriteState::Success);
    let f = WriteState::Failed(HostsError::PermissionDenied);
    assert_eq!(writer_step(&f, &WriteEvent::ElevateOk), f);
}

#[test]
fn zero_exit_is_elevation_success() {
    assert_eq!(classify_elevation(true, b""), WriteEvent::ElevateOk);
}

#[test]
fn cancellation_texts_are_recognized() {
    assert_eq!(
        classify_elevation(false, b"execution error: User canceled. (-128)"),
        WriteEvent::ElevateCancelled
    );
    assert_eq!(
        classify_elevation(false, b"operation was cancelled by the user"),
        WriteEvent::ElevateCancelled
    );
}

#[test]
fn other_diagnostics_are_plain_failures() {
    assert_eq!(
        classify_elevation(false, b"sudo: a password is required"),
        WriteEvent::ElevateFailed
    );
}
