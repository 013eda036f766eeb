use mio_echo_server::conn::{Client, Interest, IoOutcome, ReadStep, WriteStep};
use mio_echo_server::DEFAULT_BUF_SIZE;

fn transfer_buf(data: &[u8]) -> Vec<u8> {
    let mut buf = vec![0u8; DEFAULT_BUF_SIZE];
    buf[..data.len()].copy_from_slice(data);
    buf
}

fn drain_writes(c: &mut Client, chunk: usize) -> Vec<u8> {
    let mut out = Vec::new();
    while let Some(front) = c.pending_front() {
        let n = front.len().min(chunk);
        out.extend_from_slice(&front[..n]);
        c.write(IoOutcome::Transferred(n));
    }
    out
}

#[test]
fn ping_is_echoed() {
    let mut c = Client::new();
    let buf = transfer_buf(b"ping");
    assert_eq!(c.read(IoOutcome::Transferred(4), &buf), ReadStep::Drained);
    assert_eq!(c.pending_front(), Some(&b"ping"[..]));
    assert_eq!(c.write(IoOutcome::Transferred(4)), WriteStep::Done);
    assert_eq!(c.pending_front(), None);
    assert_eq!(c.wanted_interest(), None);
}

#[test]
fn full_buffer_read_continues() {
    let mut c = Client::new();
    let buf = vec![7u8; DEFAULT_BUF_SIZE];
    assert_eq!(c.read(IoOutcome::Transferred(DEFAULT_BUF_SIZE), &buf), ReadStep::Continue);
    assert_eq!(c.pending_front().map(|b| b.len()), Some(DEFAULT_BUF_SIZE));
}

#[test]
fn read_outcomes_map_to_steps() {
    let mut c = Client::new();
    let buf = transfer_buf(b"");
    assert_eq!(c.read(IoOutcome::Transferred(0), &buf), ReadStep::Closed);
    assert_eq!(c.read(IoOutcome::WouldBlock, &buf), ReadStep::Drained);
    assert_eq!(c.read(IoOutcome::Failed, &buf), ReadStep::Failed);
    assert_eq!(c.pending_front(), None);
}

#[test]
fn chunks_are_echoed_in_order() {
    let mut c = Client::new();
    c.read(IoOutcome::Transferred(3), &transfer_buf(b"abc"));
    c.read(IoOutcome::Transferred(2), &transfer_buf(b"de"));
    assert_eq!(c.pending_front(), Some(&b"abc"[..]));
    assert_eq!(c.write(IoOutcome::Transferred(3)), WriteStep::Continue);
    assert_eq!(c.pending_front(), Some(&b"de"[..]));
    assert_eq!(c.write(IoOutcome::Transferred(2)), WriteStep::Done);
    assert_eq!(c.pending_front(), None);
}

#[test]
fn partial_writes_lose_and_repeat_nothing() {
    let mut c = Client::new();
    let mut sent = Vec::new();
    for i in 0..5u8 {
        let data: Vec<u8> = (0..(10 + i)).map(|b| b.wrapping_mul(i + 1)).collect();
        c.read(IoOutcome::Transferred(data.len()), &transfer_buf(&data));
        sent.extend_from_slice(&data);
    }
    let echoed = drain_writes(&mut c, 3);
    assert_eq!(echoed, sent);
}

#[test]
fn partial_write_advances_cursor() {
    let mut c = Client::new();
    c.read(IoOutcome::Transferred(5), &transfer_buf(b"hello"));
    assert_eq!(c.write(IoOutcome::Transferred(2)), WriteStep::Done);
    assert_eq!(c.pending_front(), Some(&b"llo"[..]));
    assert_eq!(c.write(IoOutcome::Transferred(0)), WriteStep::Done);
    assert_eq!(c.pending_front(), Some(&b"llo"[..]));
}

#[test]
fn write_would_block_and_error_keep_queue() {
    let mut c = Client::new();
    c.read(IoOutcome::Transferred(2), &transfer_buf(b"hi"));
    assert_eq!(c.write(IoOutcome::WouldBlock), WriteStep::Done);
    assert_eq!(c.write(IoOutcome::Failed), WriteStep::Failed);
    assert_eq!(c.pending_front(), Some(&b"hi"[..]));
}

#[test]
fn interest_follows_queue() {
    let mut c = Client::new();
    assert_eq!(c.wanted_interest(), None);
    c.read(IoOutcome::Transferred(3), &transfer_buf(b"xyz"));
    c.write(IoOutcome::WouldBlock);
    assert_eq!(c.wanted_interest(), Some(Interest::ReadWrite));
    assert_eq!(c.wanted_interest(), Some(Interest::ReadWrite));
    c.reregister(Interest::ReadWrite, true);
    assert_eq!(c.wanted_interest(), None);
    c.write(IoOutcome::Transferred(1));
    assert_eq!(c.wanted_interest(), None);
    c.write(IoOutcome::Transferred(2));
    assert_eq!(c.wanted_interest(), Some(Interest::Read));
    c.reregister(Interest::Read, true);
    assert_eq!(c.wanted_interest(), None);
}

#[test]
fn failed_registration_keeps_interest() {
    let mut c = Client::new();
    c.read(IoOutcome::Transferred(3), &transfer_buf(b"xyz"));
    assert_eq!(c.wanted_interest(), Some(Interest::ReadWrite));
    c.reregister(Interest::ReadWrite, false);
    assert_eq!(c.wanted_interest(), Some(Interest::ReadWrite));
}

#[test]
fn close_marks_closing_and_keeps_queue() {
    let mut c = Client::new();
    assert!(!c.is_closing());
    c.read(IoOutcome::Transferred(2), &transfer_buf(b"ok"));
    assert_eq!(c.read(IoOutcome::Transferred(0), &transfer_buf(b"")), ReadStep::Closed);
    assert!(c.is_closing());
    assert_eq!(c.pending_front(), Some(&b"ok"[..]));
}

#[test]
fn large_burst_is_queued_intact() {
    let total = 10 * 1024 * 1024;
    let mut c = Client::new();
    let mut sent = Vec::with_capacity(total);
    let mut buf = vec![0u8; DEFAULT_BUF_SIZE];
    let mut k: u32 = 1;
    while sent.len() < total {
        for b in buf.iter_mut() {
            k = k.wrapping_mul(1103515245).wrapping_add(12345);
            *b = (k >> 16) as u8;
        }
        assert_eq!(c.read(IoOutcome::Transferred(buf.len()), &buf), ReadStep::Continue);
        sent.extend_from_slice(&buf);
    }
    assert_eq!(c.read(IoOutcome::Transferred(0), &buf), ReadStep::Closed);
    let echoed = drain_writes(&mut c, 4096);
    assert_eq!(echoed.len(), total);
    assert!(echoed == sent);
}
