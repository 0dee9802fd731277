use litert_lm::handshake::{Handshake, HandshakeStatus};
use litert_lm::supervisor::{Action, ErrorKind, Phase, Supervisor};

fn write_of(a: &Action) -> (u64, Vec<u8>) {
    match a {
        Action::Write { id, bytes } => (*id, bytes.clone()),
        _ => panic!("expected a write action"),
    }
}

fn fail_of(a: &Action) -> (u64, ErrorKind) {
    match a {
        Action::Fail { id, reason, .. } => (*id, *reason),
        _ => panic!("expected a fail action"),
    }
}

fn diag_of(a: &Action) -> Vec<u8> {
    match a {
        Action::Fail { diagnostic, .. } => diagnostic.clone(),
        _ => panic!("expected a fail action"),
    }
}

#[test]
fn handshake_ready_on_marker() {
    let mut h = Handshake::new();
    let s1 = h.on_chunk(b"loading weights...");
    assert_eq!(s1.status, HandshakeStatus::Waiting);
    let s2 = h.on_chunk(b"Model 'gemma' loaded.\n>>>");
    assert_eq!(s2.status, HandshakeStatus::Ready);
    assert!(s2.model_loaded);
}

#[test]
fn handshake_error_vocabulary_is_case_insensitive() {
    let mut h = Handshake::new();
    let s = h.on_chunk(b"ERROR: no device");
    assert_eq!(s.status, HandshakeStatus::Failed);
    let mut h2 = Handshake::new();
    let s2 = h2.on_chunk(b"initialization Failed");
    assert_eq!(s2.status, HandshakeStatus::Failed);
}

#[test]
fn handshake_error_beats_marker() {
    let mut h = Handshake::new();
    let s = h.on_chunk(b"error\n>>>");
    assert_eq!(s.status, HandshakeStatus::Failed);
}

#[test]
fn commands_before_readiness_buffer_and_drain_in_order() {
    // Handshake buffering: submissions before readiness are neither dropped
    // nor executed; they run in submission order once the marker arrives.
    let mut sup = Supervisor::new();
    assert!(matches!(sup.phase, Phase::Starting));
    let a1 = sup.submit(1, b"first".to_vec());
    assert!(a1.is_empty());
    let a2 = sup.submit(2, b"second".to_vec());
    assert!(a2.is_empty());
    let ready = sup.on_stdout(b"Model 'm' loaded.\n>>>");
    assert_eq!(ready.len(), 1);
    assert_eq!(write_of(&ready[0]), (1, b"first\n".to_vec()));
    // Completing the first command starts the second, nothing else.
    let done1 = sup.on_stdout(b"one\n>>>");
    assert_eq!(done1.len(), 3);
    match &done1[0] {
        Action::Emit { id, fragment } => {
            assert_eq!(*id, 1);
            assert_eq!(fragment, &b"one\n".to_vec());
        },
        _ => panic!("expected an emit action"),
    }
    assert!(matches!(done1[1], Action::Complete { id: 1 }));
    assert_eq!(write_of(&done1[2]), (2, b"second\n".to_vec()));
}

#[test]
fn second_submission_is_not_written_while_first_runs() {
    // FIFO serialization: B's write never happens before A completed.
    let mut sup = Supervisor::new();
    sup.on_stdout(b">>>");
    assert!(matches!(sup.phase, Phase::Idle));
    let wa = sup.submit(1, b"2+2".to_vec());
    assert_eq!(write_of(&wa[0]), (1, b"2+2\n".to_vec()));
    let wb = sup.submit(2, b"3+3".to_vec());
    assert!(wb.is_empty());
    // Only after A's terminal marker does B's write appear.
    let acts = sup.on_stdout(b"4\n>>>");
    assert!(matches!(acts[1], Action::Complete { id: 1 }));
    assert_eq!(write_of(&acts[2]), (2, b"3+3\n".to_vec()));
}

#[test]
fn round_trip_stream_yields_one_fragment() {
    // A fake child answering "2+2\n" with "4\n>" then ">>" produces exactly
    // one fragment "4\n" and then a clean completion.
    let mut sup = Supervisor::new();
    sup.on_stdout(b">>>");
    let w = sup.submit(7, b"2+2".to_vec());
    assert_eq!(write_of(&w[0]), (7, b"2+2\n".to_vec()));
    let first = sup.on_stdout(b"4\n>");
    assert_eq!(first.len(), 1);
    match &first[0] {
        Action::Emit { id, fragment } => {
            assert_eq!(*id, 7);
            assert_eq!(fragment, &b"4\n".to_vec());
        },
        _ => panic!("expected an emit action"),
    }
    let rest = sup.on_stdout(b">>");
    assert_eq!(rest.len(), 1);
    assert!(matches!(rest[0], Action::Complete { id: 7 }));
    assert!(matches!(sup.phase, Phase::Idle));
}

#[test]
fn death_fails_in_flight_and_queued_commands() {
    // Death propagation: EOF while A is in flight and B queued fails both.
    let mut sup = Supervisor::new();
    sup.on_stdout(b">>>");
    sup.submit(1, b"a".to_vec());
    sup.submit(2, b"b".to_vec());
    let acts = sup.on_stdout_eof();
    assert_eq!(acts.len(), 3);
    assert_eq!(fail_of(&acts[0]), (1, ErrorKind::StreamClosed));
    assert_eq!(fail_of(&acts[1]), (2, ErrorKind::StreamClosed));
    assert!(matches!(acts[2], Action::Kill));
    assert!(matches!(sup.phase, Phase::Terminated));
    // Later submissions fail at once with the terminal cause.
    let late = sup.submit(3, b"c".to_vec());
    assert_eq!(fail_of(&late[0]), (3, ErrorKind::StreamClosed));
}

#[test]
fn eof_during_handshake_fails_buffered_commands() {
    let mut sup = Supervisor::new();
    sup.submit(1, b"a".to_vec());
    sup.on_stdout(b"booting");
    let acts = sup.on_stdout_eof();
    assert_eq!(fail_of(&acts[0]), (1, ErrorKind::StreamClosed));
    // the failure carries the accumulated startup text
    assert_eq!(diag_of(&acts[0]), b"booting".to_vec());
    assert!(matches!(acts[1], Action::Kill));
}

#[test]
fn handshake_error_fails_buffered_commands() {
    let mut sup = Supervisor::new();
    sup.submit(1, b"a".to_vec());
    sup.submit(2, b"b".to_vec());
    let acts = sup.on_stdout(b"error: no gpu");
    assert_eq!(acts.len(), 3);
    assert_eq!(fail_of(&acts[0]), (1, ErrorKind::HandshakeError));
    assert_eq!(fail_of(&acts[1]), (2, ErrorKind::HandshakeError));
    // every buffered command's failure carries the diagnostic text
    assert_eq!(diag_of(&acts[0]), b"error: no gpu".to_vec());
    assert_eq!(diag_of(&acts[1]), b"error: no gpu".to_vec());
    assert!(matches!(acts[2], Action::Kill));
}

#[test]
fn handshake_timeout_fails_buffered_commands() {
    let mut sup = Supervisor::new();
    sup.submit(1, b"a".to_vec());
    sup.on_stdout(b"still loading");
    let acts = sup.on_handshake_timeout();
    assert_eq!(fail_of(&acts[0]), (1, ErrorKind::HandshakeTimeout));
    assert_eq!(diag_of(&acts[0]), b"still loading".to_vec());
    assert!(matches!(acts[1], Action::Kill));
    assert!(matches!(sup.phase, Phase::Terminated));
}

#[test]
fn write_failure_fails_only_the_affected_command() {
    let mut sup = Supervisor::new();
    sup.on_stdout(b">>>");
    sup.submit(1, b"a".to_vec());
    sup.submit(2, b"b".to_vec());
    let acts = sup.on_write_failed();
    assert_eq!(fail_of(&acts[0]), (1, ErrorKind::WriteFailure));
    // The process lives on and serves the next command.
    assert_eq!(write_of(&acts[1]), (2, b"b\n".to_vec()));
    assert!(matches!(sup.phase, Phase::Serving));
}

#[test]
fn shutdown_drains_remaining_work_then_kills() {
    let mut sup = Supervisor::new();
    sup.on_stdout(b">>>");
    sup.submit(1, b"a".to_vec());
    let none = sup.on_shutdown();
    assert!(none.is_empty());
    let acts = sup.on_stdout(b"done\n>>>");
    // The in-flight command still completes, then the child is killed.
    assert!(matches!(acts[1], Action::Complete { id: 1 }));
    assert!(matches!(acts[2], Action::Kill));
    assert!(matches!(sup.phase, Phase::Terminated));
    let late = sup.submit(9, b"z".to_vec());
    assert_eq!(fail_of(&late[0]), (9, ErrorKind::ShutDown));
}

#[test]
fn idle_shutdown_kills_at_once() {
    let mut sup = Supervisor::new();
    sup.on_stdout(b">>>");
    let acts = sup.on_shutdown();
    assert!(matches!(acts[0], Action::Kill));
    assert!(matches!(sup.phase, Phase::Terminated));
}
