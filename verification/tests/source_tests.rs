use keyscan::source::Passes;
use keyscan::source::split_stream;

#[test]
fn split_strips_delimiters() {
    let data = b"abc\nxyz\n".to_vec();
    let records = split_stream(&data, 0x0a, false);
    assert_eq!(records, vec![b"abc".to_vec(), b"xyz".to_vec()]);
}

#[test]
fn split_keeps_unterminated_tail() {
    let data = b"abc\nxyz".to_vec();
    let records = split_stream(&data, 0x0a, false);
    assert_eq!(records, vec![b"abc".to_vec(), b"xyz".to_vec()]);
}

#[test]
fn split_keeps_empty_middle_record() {
    let data = b"a\n\nb".to_vec();
    let records = split_stream(&data, 0x0a, false);
    assert_eq!(records, vec![b"a".to_vec(), b"".to_vec(), b"b".to_vec()]);
}

#[test]
fn split_empty_stream_yields_nothing() {
    let records = split_stream(&Vec::new(), 0x0a, false);
    assert!(records.is_empty());
}

#[test]
fn split_preserves_carriage_return_by_default() {
    let data = b"abc\r\nxyz\r\n".to_vec();
    let records = split_stream(&data, 0x0a, false);
    assert_eq!(records, vec![b"abc\r".to_vec(), b"xyz\r".to_vec()]);
}

#[test]
fn split_strips_carriage_return_when_asked() {
    let data = b"abc\r\nxyz\r\n".to_vec();
    let records = split_stream(&data, 0x0a, true);
    assert_eq!(records, vec![b"abc".to_vec(), b"xyz".to_vec()]);
}

#[test]
fn split_on_other_delimiter() {
    let data = b"one,two,three".to_vec();
    let records = split_stream(&data, b',', false);
    assert_eq!(records, vec![b"one".to_vec(), b"two".to_vec(), b"three".to_vec()]);
}

#[test]
fn pool_strips_and_pops_newest_first() {
    let mut passes = Passes::new(0x0a, 1, false);
    passes.add_to_pool(b"abc\n".to_vec());
    passes.add_to_pool(b"xyz\n".to_vec());
    passes.add_to_pool(b"tail".to_vec());
    assert_eq!(passes.pool_len(), 3);
    assert_eq!(passes.pop(), Some(b"tail".to_vec()));
    assert_eq!(passes.pop(), Some(b"xyz".to_vec()));
    assert_eq!(passes.pop(), Some(b"abc".to_vec()));
    assert_eq!(passes.pop(), None);
}

#[test]
fn pool_refill_quota_is_twice_the_workers() {
    let passes = Passes::new(0x0a, 3, false);
    assert_eq!(passes.refill_quota(), 6);
}

#[test]
fn pool_needs_refill_until_exhausted() {
    let mut passes = Passes::new(0x0a, 2, false);
    assert!(passes.needs_refill());
    passes.add_to_pool(b"word\n".to_vec());
    assert!(!passes.needs_refill());
    let batch = passes.take_batch();
    assert_eq!(batch, vec![b"word".to_vec()]);
    assert_eq!(passes.pool_len(), 0);
    assert!(passes.needs_refill());
    passes.mark_exhausted();
    assert!(!passes.needs_refill());
}

#[test]
fn pool_strips_carriage_return_when_asked() {
    let mut passes = Passes::new(0x0a, 1, true);
    passes.add_to_pool(b"abc\r\n".to_vec());
    assert_eq!(passes.pop(), Some(b"abc".to_vec()));
}
