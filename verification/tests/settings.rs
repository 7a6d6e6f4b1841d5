use sf_indexer::checkpoint_handler::{checkpoint_queue_size, parse_usize, CHECKPOINT_QUEUE_SIZE};

#[test]
fn queue_size_defaults_to_one_hundred() {
    assert_eq!(checkpoint_queue_size(None), Some(100));
    assert_eq!(CHECKPOINT_QUEUE_SIZE, 100);
}

#[test]
fn queue_size_reads_a_decimal_setting() {
    assert_eq!(checkpoint_queue_size(Some(b"250")), Some(250));
    assert_eq!(checkpoint_queue_size(Some(b"+7")), Some(7));
    assert_eq!(checkpoint_queue_size(Some(b"007")), Some(7));
}

#[test]
fn queue_size_refuses_what_is_not_a_number() {
    assert_eq!(checkpoint_queue_size(Some(b"")), None);
    assert_eq!(checkpoint_queue_size(Some(b"+")), None);
    assert_eq!(checkpoint_queue_size(Some(b"-5")), None);
    assert_eq!(checkpoint_queue_size(Some(b"12a")), None);
    assert_eq!(checkpoint_queue_size(Some(b" 12")), None);
}

#[test]
fn parse_agrees_with_std_on_limits() {
    let max = usize::MAX.to_string();
    assert_eq!(parse_usize(max.as_bytes()), Some(usize::MAX));
    let over = format!("{}0", usize::MAX);
    assert_eq!(parse_usize(over.as_bytes()), None);
    assert_eq!(parse_usize(b"99999999999999999999999999x"), None);
    for text in ["0", "+0", "42", "+", "", "-1", "1_000", "18446744073709551616", "4294967296"] {
        assert_eq!(parse_usize(text.as_bytes()), text.parse::<usize>().ok(), "{}", text);
    }
}
