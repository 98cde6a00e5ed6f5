use whats_running::events::{
    capability_error, get32, get64, native_byte_order, parse, parse_at, put16, put32,
    subscription_message, CaptureError, CaptureState, CaptureStep, Event, Kind, OsError, Receipt,
};
use whats_running::field::IoFailure;
use whats_running::recording::{recording_lines, RecordingError};

#[test]
fn parses_exec() {
    let order = native_byte_order();
    let mut b = [0_u8; 68];
    put32(&mut b, 36, 2, order);
    put32(&mut b, 40, 3, order);
    b[44..52].copy_from_slice(&99_u64.to_ne_bytes());
    put32(&mut b, 52, 42, order);
    assert_eq!(parse(&b, order).unwrap().kind, Kind::Exec { pid: 42 });
}

#[test]
fn subscription_is_well_formed() {
    let order = native_byte_order();
    let b = subscription_message(7, true, order);
    assert_eq!(get32(&b, 0, order), Some(40));
    assert_eq!(get32(&b, 36, order), Some(1));
}

#[test]
fn native_order_matches_the_machine() {
    let order = native_byte_order();
    let mut b = [0_u8; 4];
    put32(&mut b, 0, 0x0102_0304, order);
    assert_eq!(b, 0x0102_0304_u32.to_ne_bytes());
    let mut c = [0_u8; 2];
    put16(&mut c, 0, 0x0102, order);
    assert_eq!(c, 0x0102_u16.to_ne_bytes());
}

#[test]
fn subscription_fields_read_back() {
    let order = native_byte_order();
    let b = subscription_message(1234, false, order);
    assert_eq!(get32(&b, 12, order), Some(1234));
    assert_eq!(get32(&b, 36, order), Some(0));
    assert_eq!(get32(&b, 16, order), Some(1));
    assert_eq!(get32(&b, 38, order), None);
    assert_eq!(get64(&b, 32, order), Some(u64::from_ne_bytes(b[32..40].try_into().unwrap())));
}

fn message(what: u32, payload: &[u32]) -> Vec<u8> {
    let order = native_byte_order();
    let mut b = vec![0_u8; 52 + 4 * payload.len()];
    put32(&mut b, 24, 17, order);
    put32(&mut b, 36, what, order);
    put32(&mut b, 40, 2, order);
    b[44..52].copy_from_slice(&5_u64.to_ne_bytes());
    for (i, v) in payload.iter().enumerate() {
        put32(&mut b, 52 + 4 * i, *v, order);
    }
    b
}

#[test]
fn decodes_each_kind() {
    let order = native_byte_order();
    let fork = parse_at(&message(1, &[10, 0, 11, 0]), order, 9).unwrap();
    assert_eq!(fork.kind, Kind::Fork { parent: 10, child: 11 });
    assert_eq!(fork.sequence, 17);
    assert_eq!(fork.cpu, 2);
    assert_eq!(fork.timestamp_ns, 5);
    assert_eq!(fork.received_unix_ms, 9);
    let exit = parse_at(&message(0x8000_0000, &[10, 0, 3, 9]), order, 0).unwrap();
    assert_eq!(exit.kind, Kind::Exit { pid: 10, code: 3, signal: 9 });
    assert_eq!(parse_at(&message(7, &[]), order, 0).unwrap().kind, Kind::Other(7));
    assert!(parse_at(&message(0, &[1]), order, 0).is_none());
    assert!(parse_at(&message(1, &[10]), order, 0).is_none());
    assert!(parse_at(&[0_u8; 51], order, 0).is_none());
}

fn event(sequence: u32, cpu: u32) -> Event {
    Event { sequence, timestamp_ns: 1, received_unix_ms: 2, cpu, kind: Kind::Exec { pid: 4 } }
}

#[test]
fn event_text_and_json() {
    let e = Event { sequence: 0, timestamp_ns: 1, received_unix_ms: 2, cpu: 3, kind: Kind::Exec { pid: 4 } };
    assert_eq!(
        e.json(),
        "{\"schema_version\":1,\"sequence\":0,\"received_unix_ms\":2,\"kernel_timestamp_ns\":1,\"cpu\":3,\"kind\":\"exec\",\"pid\":4}"
    );
    assert_eq!(e.display_text(), "sequence=0 received_ms=2 kernel_ns=1 cpu=3 kind=Exec { pid: 4 }");
    let f = Event { kind: Kind::Fork { parent: 1, child: 22 }, ..e.clone() };
    assert_eq!(f.display_text(), "sequence=0 received_ms=2 kernel_ns=1 cpu=3 kind=Fork { parent: 1, child: 22 }");
    let x = Event { kind: Kind::Exit { pid: 5, code: 0, signal: 17 }, ..e.clone() };
    assert!(x.json().ends_with("\"kind\":\"exit\",\"pid\":5,\"code\":0,\"signal\":17}"));
    let o = Event { kind: Kind::Other(8), ..e };
    assert_eq!(o.display_text(), "sequence=0 received_ms=2 kernel_ns=1 cpu=3 kind=Other(8)");
}

#[test]
fn sequence_gaps_are_counted_per_cpu() {
    let mut state = CaptureState::new(100);
    state.record(event(5, 0));
    state.record(event(6, 0));
    state.record(event(9, 0));
    state.record(event(100, 1));
    state.record(event(101, 1));
    state.record(event(3, 0));
    assert_eq!(state.sequence_gaps(), 2);
    assert_eq!(state.len(), 6);
    assert_eq!(state.gap_of(&event(10, 1)), 0);
    assert_eq!(state.gap_of(&event(110, 1)), 8);
    let capture = state.finish();
    assert_eq!(capture.events.len(), 6);
    assert_eq!(capture.sequence_gaps, 2);
}

#[test]
fn sequence_at_the_top_counts_no_gap() {
    let mut state = CaptureState::new(100);
    state.record(event(u32::MAX, 0));
    assert_eq!(state.gap_of(&event(u32::MAX, 0)), 0);
}

#[test]
fn denials_are_reported_as_such() {
    assert_eq!(
        capability_error(OsError { kind: IoFailure::PermissionDenied, raw_os_error: Some(13) }),
        CaptureError::Denied
    );
    assert_eq!(
        capability_error(OsError { kind: IoFailure::Other, raw_os_error: Some(1) }),
        CaptureError::Denied
    );
    let other = OsError { kind: IoFailure::Other, raw_os_error: Some(22) };
    assert_eq!(capability_error(other), CaptureError::Os(other));
}

#[test]
fn recording_is_bounded() {
    let e = Event { sequence: 0, timestamp_ns: 1, received_unix_ms: 2, cpu: 3, kind: Kind::Exec { pid: 4 } };
    let rec = recording_lines(&[e.clone(), e.clone()], 180).unwrap();
    assert!(rec.bytes <= 180);
    assert_eq!(rec.lines[0], "{\"record_type\":\"whats-running-events\",\"schema_version\":1,\"commands_included\":false}\n");
    assert_eq!(rec.count, 0);
    assert_eq!(rec.bytes, 84);
    let roomy = recording_lines(&[e.clone(), e.clone()], 1000).unwrap();
    assert_eq!(roomy.count, 2);
    assert_eq!(roomy.lines.len(), 3);
    assert_eq!(roomy.lines[1], format!("{}\n", e.json()));
    let total: usize = roomy.lines.iter().map(|l| l.len()).sum();
    assert_eq!(roomy.bytes as usize, total);
    let one = recording_lines(&[e.clone(), e.clone()], 84 + 109).unwrap();
    assert_eq!(one.count, 1);
    assert!(matches!(recording_lines(&[e], 10), Err(RecordingError::TooSmall)));
}

#[test]
fn capture_steps_stop_at_the_limit_and_on_timeouts() {
    let mut state = CaptureState::new(2);
    assert_eq!(state.step(), CaptureStep::Receive);
    assert_eq!(state.take(Receipt::Message(None)), CaptureStep::Receive);
    assert_eq!(state.take(Receipt::Message(Some(event(1, 0)))), CaptureStep::Receive);
    assert_eq!(state.take(Receipt::Message(Some(event(5, 0)))), CaptureStep::Done);
    assert_eq!(state.step(), CaptureStep::Done);
    assert_eq!(state.sequence_gaps(), 3);
    let capture = state.finish();
    assert_eq!(capture.events.len(), 2);
    let mut quiet = CaptureState::new(5);
    assert_eq!(quiet.take(Receipt::TimedOut), CaptureStep::Done);
    assert_eq!(quiet.take(Receipt::WouldBlock), CaptureStep::Done);
    let error = OsError { kind: IoFailure::Other, raw_os_error: Some(5) };
    assert_eq!(quiet.take(Receipt::Error(error)), CaptureStep::Fail(error));
    assert_eq!(quiet.len(), 0);
    assert_eq!(CaptureState::new(0).step(), CaptureStep::Done);
}
