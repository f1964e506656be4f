use nbserve::conn::{response_payload, ConnState, Phase, ReadStep, WriteStep, BUF_CAPACITY};
use nbserve::registry::Registry;

const RESPONSE: &[u8] = b"HTTP/1.1 200 OK\r\nContent-Length: 12\nConnection: close\r\n\r\nHello world!";

#[test]
fn response_payload_is_the_fixed_text() {
    let payload = response_payload();
    assert_eq!(payload, RESPONSE.to_vec());
    assert!(payload.starts_with(b"HTTP/1.1 200 OK"));
    assert!(payload.ends_with(b"Hello world!"));
}

#[test]
fn full_request_in_one_write_is_answered_and_closed() {
    // A client connects, sends a whole request in one write, and reads:
    // it gets the full fixed response and its entry is then removed.
    let mut reg: Registry<u32> = Registry::new();
    reg.accept(7);
    assert_eq!(reg.len(), 1);
    assert_eq!(reg.phase_at(0), Phase::Reading);

    let request = b"GET / HTTP/1.1\r\nHost: x\r\n\r\n".to_vec();
    assert!(request.len() <= reg.read_remaining(0));
    let step = reg.apply_read_at(0, &request);
    assert_eq!(step, ReadStep::Complete);
    assert_eq!(reg.phase_at(0), Phase::Writing);

    let out = reg.pending_output(0);
    assert_eq!(out, RESPONSE.to_vec());
    let wstep = reg.apply_write_at(0, out.len());
    assert_eq!(wstep, WriteStep::SentAll);
    assert_eq!(reg.phase_at(0), Phase::Flushing);

    // The flush succeeds, so the tick records the entry and removes it.
    let completed = vec![0usize];
    reg.remove_completed(&completed);
    assert_eq!(reg.len(), 0);
}

#[test]
fn early_disconnect_gets_no_response() {
    // A client sends only part of a request and closes: the server
    // observes a zero-length read, removes the entry, and never
    // reaches the writing phase.
    let mut reg: Registry<u32> = Registry::new();
    reg.accept(9);

    let partial = b"GET / HTTP/1.1\r\n".to_vec();
    assert_eq!(reg.apply_read_at(0, &partial), ReadStep::NeedMore);
    assert_eq!(reg.phase_at(0), Phase::Reading);
    assert_eq!(reg.read_cursor_at(0), partial.len());

    let closed: Vec<u8> = Vec::new();
    assert_eq!(reg.apply_read_at(0, &closed), ReadStep::Disconnected);
    // Still reading: no response payload was ever prepared.
    assert_eq!(reg.phase_at(0), Phase::Reading);

    let completed = vec![0usize];
    reg.remove_completed(&completed);
    assert_eq!(reg.len(), 0);
}

#[test]
fn terminator_split_across_reads_is_detected() {
    // The terminator arrives one byte at a time, with a would-block
    // between the reads; the saved cursor carries the progress across
    // ticks and the request still completes.
    let mut state = ConnState::initial();
    assert_eq!(state.apply_read(&b"GET /".to_vec()), ReadStep::NeedMore);
    assert_eq!(state.apply_read(&b"\r".to_vec()), ReadStep::NeedMore);
    assert_eq!(state.apply_read(&b"\n".to_vec()), ReadStep::NeedMore);
    assert_eq!(state.apply_read(&b"\r".to_vec()), ReadStep::NeedMore);
    assert_eq!(state.apply_read(&b"\n".to_vec()), ReadStep::Complete);
    assert_eq!(state.phase(), Phase::Writing);
}

#[test]
fn terminator_must_end_exactly_at_the_cursor() {
    // A terminator buried in the middle of one read does not complete
    // the request: only the four bytes ending at the cursor count.
    let mut state = ConnState::initial();
    assert_eq!(state.apply_read(&b"GET /\r\n\r\nmore".to_vec()), ReadStep::NeedMore);
    assert_eq!(state.phase(), Phase::Reading);
    // A later read that puts the terminator at the cursor completes it.
    assert_eq!(state.apply_read(&b"\r\n\r\n".to_vec()), ReadStep::Complete);
}

#[test]
fn overlong_request_is_rejected_not_overflowed() {
    let mut reg: Registry<u32> = Registry::new();
    reg.accept(1);
    assert_eq!(reg.read_remaining(0), BUF_CAPACITY);

    let big = vec![b'a'; BUF_CAPACITY];
    assert_eq!(reg.apply_read_at(0, &big), ReadStep::NeedMore);
    assert_eq!(reg.read_cursor_at(0), BUF_CAPACITY);
    assert_eq!(reg.read_remaining(0), 0);

    // One more byte has nowhere to go: the read is rejected and the
    // cursor is unchanged.
    assert_eq!(reg.apply_read_at(0, &b"b".to_vec()), ReadStep::TooLarge);
    assert_eq!(reg.read_cursor_at(0), BUF_CAPACITY);
}

#[test]
fn zero_length_write_means_disconnect() {
    let mut state = ConnState::initial();
    assert_eq!(state.apply_read(&b"GET / HTTP/1.1\r\nHost: x\r\n\r\n".to_vec()), ReadStep::Complete);
    assert_eq!(state.apply_write(0), WriteStep::Disconnected);
    // The state is left as it was, for the caller to remove the entry.
    assert_eq!(state.phase(), Phase::Writing);
}

#[test]
fn blocked_writer_keeps_its_slot_and_cursor_while_others_are_served() {
    // Client A's write blocks partway; client B arrives later, is
    // served completely in its own slot, and is removed; A's partial
    // progress survives and A completes on a later tick.
    let mut reg: Registry<u32> = Registry::new();
    reg.accept(1); // A at position 0
    reg.accept(2); // B at position 1

    let request = b"GET / HTTP/1.1\r\nHost: x\r\n\r\n".to_vec();
    assert_eq!(reg.apply_read_at(0, &request), ReadStep::Complete);
    // A writes 10 bytes, then the next attempt would block: the tick
    // leaves the entry exactly as it is.
    assert_eq!(reg.apply_write_at(0, 10), WriteStep::NeedMore);
    assert_eq!(reg.write_cursor_at(0), 10);

    // B is serviced in full during a later pass.
    assert_eq!(reg.apply_read_at(1, &request), ReadStep::Complete);
    let out_b = reg.pending_output(1);
    assert_eq!(out_b, RESPONSE.to_vec());
    assert_eq!(reg.apply_write_at(1, out_b.len()), WriteStep::SentAll);
    assert_eq!(reg.phase_at(1), Phase::Flushing);
    let completed = vec![1usize];
    reg.remove_completed(&completed);

    // A still sits in its own slot with its cursor preserved.
    assert_eq!(reg.len(), 1);
    assert_eq!(*reg.conn_at(0), 1);
    assert_eq!(reg.write_cursor_at(0), 10);
    let rest = reg.pending_output(0);
    assert_eq!(rest, RESPONSE[10..].to_vec());
    assert_eq!(reg.apply_write_at(0, rest.len()), WriteStep::SentAll);
    let completed_a = vec![0usize];
    reg.remove_completed(&completed_a);
    assert_eq!(reg.len(), 0);
}

#[test]
fn batch_removal_in_descending_order_keeps_survivors() {
    // Five connections; the ones at positions 1 and 3 disconnect in
    // the same tick. After the batch removal the survivors keep their
    // order and their identities.
    let mut reg: Registry<u32> = Registry::new();
    for id in 10..15u32 {
        reg.accept(id);
    }
    let closed: Vec<u8> = Vec::new();
    assert_eq!(reg.apply_read_at(1, &closed), ReadStep::Disconnected);
    assert_eq!(reg.apply_read_at(3, &closed), ReadStep::Disconnected);

    let completed = vec![1usize, 3usize];
    reg.remove_completed(&completed);
    assert_eq!(reg.len(), 3);
    assert_eq!(*reg.conn_at(0), 10);
    assert_eq!(*reg.conn_at(1), 12);
    assert_eq!(*reg.conn_at(2), 14);
}

#[test]
fn connections_are_registered_in_arrival_order() {
    let mut reg: Registry<u8> = Registry::new();
    reg.accept(3);
    reg.accept(1);
    reg.accept(2);
    assert_eq!(reg.len(), 3);
    assert_eq!(*reg.conn_at(0), 3);
    assert_eq!(*reg.conn_at(1), 1);
    assert_eq!(*reg.conn_at(2), 2);
}

#[test]
fn empty_removal_batch_changes_nothing() {
    let mut reg: Registry<u32> = Registry::new();
    assert_eq!(reg.len(), 0);
    reg.accept(5);
    reg.accept(6);
    let completed: Vec<usize> = Vec::new();
    reg.remove_completed(&completed);
    assert_eq!(reg.len(), 2);
    assert_eq!(*reg.conn_at(0), 5);
    assert_eq!(*reg.conn_at(1), 6);
}

#[test]
fn write_progress_accumulates_byte_by_byte() {
    let mut state = ConnState::initial();
    assert_eq!(state.apply_read(&b"x\r\n\r\n".to_vec()), ReadStep::Complete);
    let total = RESPONSE.len();
    for _ in 0..total - 1 {
        assert_eq!(state.apply_write(1), WriteStep::NeedMore);
    }
    assert_eq!(state.apply_write(1), WriteStep::SentAll);
    assert_eq!(state.phase(), Phase::Flushing);
}
