use reactor::allocator::Allocator;
use reactor::events::{
    classify, process, step_after_error, EventSource, IoErrorKind, LoopStep, ReadDrain,
    CONNECTION_START_ID, SERVER_TOKEN, WAKER_TOKEN,
};
use reactor::table::{ConnectionTable, TableError};

#[test]
fn allocator_starts_at_given_value() {
    let mut a = Allocator::new(1000);
    assert_eq!(a.next(), 1000);
    assert_eq!(a.next(), 1001);
    assert_eq!(a.next(), 1002);
}

#[test]
fn allocator_ids_strictly_increase() {
    let mut a = Allocator::new(7);
    let mut prev = a.next();
    for _ in 0..100 {
        let id = a.next();
        assert!(id > prev);
        prev = id;
    }
}

#[test]
fn allocator_reports_exhaustion() {
    let mut a = Allocator::new(usize::MAX - 1);
    assert!(a.can_issue());
    assert_eq!(a.next(), usize::MAX - 1);
    assert!(!a.can_issue());
}

#[test]
fn classify_reserved_and_connection_tokens() {
    assert_eq!(classify(SERVER_TOKEN), EventSource::Listener);
    assert_eq!(classify(WAKER_TOKEN), EventSource::Wake);
    assert_eq!(classify(CONNECTION_START_ID), EventSource::Connection(1000));
    assert_eq!(classify(4242), EventSource::Connection(4242));
    assert_eq!(classify(2), EventSource::Unknown);
    assert_eq!(classify(999), EventSource::Unknown);
}

#[test]
fn error_steps() {
    assert_eq!(step_after_error(IoErrorKind::WouldBlock), LoopStep::Stop);
    assert_eq!(step_after_error(IoErrorKind::Interrupted), LoopStep::Continue);
    assert_eq!(step_after_error(IoErrorKind::Other), LoopStep::Fatal);
}

#[test]
fn read_drain_keeps_only_bytes_read() {
    let mut d = ReadDrain::new();
    let mut chunk = vec![0u8; 128];
    chunk[0] = b'h';
    chunk[1] = b'i';
    assert_eq!(d.on_read(&chunk, 2), LoopStep::Continue);
    chunk[0] = b'!';
    assert_eq!(d.on_read(&chunk, 1), LoopStep::Continue);
    let (bytes, eof) = d.finish();
    assert_eq!(bytes, b"hi!".to_vec());
    assert!(!eof);
}

#[test]
fn read_drain_zero_read_is_half_close() {
    let mut d = ReadDrain::new();
    assert_eq!(d.on_read(b"abc", 3), LoopStep::Continue);
    assert_eq!(d.on_read(b"zzz", 0), LoopStep::Stop);
    let (bytes, eof) = d.finish();
    assert_eq!(bytes, b"abc".to_vec());
    assert!(eof);
}

#[test]
fn read_drain_empty() {
    let (bytes, eof) = ReadDrain::new().finish();
    assert!(bytes.is_empty());
    assert!(!eof);
}

#[test]
fn echo_round_trip() {
    let b = b"hello reactor".to_vec();
    assert_eq!(process(&b), b);
    assert_eq!(process(&Vec::new()), Vec::<u8>::new());
}

#[test]
fn accept_burst_is_drained() {
    let mut t = ConnectionTable::new(CONNECTION_START_ID);
    let mut tokens = Vec::new();
    for _ in 0..5 {
        let (step, tok) = t.on_accept(Ok(()));
        assert_eq!(step, LoopStep::Continue);
        tokens.push(tok.unwrap());
    }
    let (step, tok) = t.on_accept(Err(IoErrorKind::WouldBlock));
    assert_eq!(step, LoopStep::Stop);
    assert_eq!(tok, None);
    assert_eq!(tokens, vec![1000, 1001, 1002, 1003, 1004]);
    for tok in tokens {
        assert!(t.contains(tok));
    }
}

#[test]
fn accept_interrupted_and_fatal() {
    let mut t = ConnectionTable::new(CONNECTION_START_ID);
    assert_eq!(t.on_accept(Err(IoErrorKind::Interrupted)), (LoopStep::Continue, None));
    assert_eq!(t.on_accept(Err(IoErrorKind::Other)), (LoopStep::Fatal, None));
    assert!(!t.contains(1000));
    assert_eq!(t.register(), 1000);
}

#[test]
fn busy_closed_connection_is_kept() {
    let mut t = ConnectionTable::new(CONNECTION_START_ID);
    let a = t.register();
    assert_eq!(t.dispatch(a, true), Ok(()));
    assert!(t.reclaim().is_empty());
    assert!(t.contains(a));
    assert_eq!(t.complete(a), Ok(()));
    assert_eq!(t.reclaim(), vec![a]);
    assert!(!t.contains(a));
}

#[test]
fn open_idle_connection_is_kept() {
    let mut t = ConnectionTable::new(CONNECTION_START_ID);
    let a = t.register();
    assert_eq!(t.dispatch(a, false), Ok(()));
    assert_eq!(t.complete(a), Ok(()));
    assert!(t.reclaim().is_empty());
    assert!(t.contains(a));
}

#[test]
fn reclaim_only_closed_idle_in_order() {
    let mut t = ConnectionTable::new(CONNECTION_START_ID);
    let a = t.register();
    let b = t.register();
    let c = t.register();
    let d = t.register();
    assert_eq!(t.dispatch(a, true), Ok(()));
    assert_eq!(t.dispatch(b, true), Ok(()));
    assert_eq!(t.dispatch(c, false), Ok(()));
    assert_eq!(t.dispatch(d, true), Ok(()));
    assert_eq!(t.dispatch(d, false), Ok(()));
    assert_eq!(t.complete(a), Ok(()));
    assert_eq!(t.complete(c), Ok(()));
    assert_eq!(t.complete(d), Ok(()));
    assert_eq!(t.reclaim(), vec![a]);
    assert_eq!(t.complete(d), Ok(()));
    assert_eq!(t.reclaim(), vec![d]);
    assert!(!t.contains(a));
    assert!(t.contains(b));
    assert!(t.contains(c));
    assert!(!t.contains(d));
    assert_eq!(t.complete(b), Ok(()));
    assert_eq!(t.reclaim(), vec![b]);
    assert!(t.contains(c));
    // the token of a reclaimed connection is never issued again
    assert_eq!(t.register(), 1004);
}

#[test]
fn reclaim_reports_several_in_ascending_order() {
    let mut t = ConnectionTable::new(10);
    let a = t.register();
    let b = t.register();
    let c = t.register();
    for x in [c, a, b] {
        assert_eq!(t.dispatch(x, true), Ok(()));
        assert_eq!(t.complete(x), Ok(()));
    }
    assert_eq!(t.reclaim(), vec![10, 11, 12]);
    assert!(t.reclaim().is_empty());
}

#[test]
fn table_errors() {
    let mut t = ConnectionTable::new(CONNECTION_START_ID);
    assert_eq!(t.dispatch(1000, false), Err(TableError::UnknownToken));
    assert_eq!(t.complete(1000), Err(TableError::UnknownToken));
    let a = t.register();
    assert_eq!(t.complete(a), Err(TableError::NothingInFlight));
    assert!(t.contains(a));
}

#[test]
fn table_exhaustion() {
    let mut t = ConnectionTable::new(usize::MAX - 1);
    assert!(t.can_register());
    assert_eq!(t.register(), usize::MAX - 1);
    assert!(!t.can_register());
}
