use keyscan::report::format_password_line;
use keyscan::report::format_summary;
use keyscan::report::renderable;

#[test]
fn report_omits_speed_when_no_time_elapsed() {
    // a scan over zero candidates finishing within the same millisecond
    let line = format_summary(0, 0);
    assert_eq!(line, b"Checked 0 total words in 0ms.".to_vec());
}

#[test]
fn report_includes_speed_when_time_elapsed() {
    let line = format_summary(5000, 2);
    assert_eq!(
        line,
        b"Checked 5000 total words in 2ms, for an average speed of ~2500000 words/second."
            .to_vec()
    );
}

#[test]
fn report_speed_uses_integer_division() {
    let line = format_summary(7, 3);
    assert_eq!(
        line,
        b"Checked 7 total words in 3ms, for an average speed of ~2333 words/second.".to_vec()
    );
}

#[test]
fn report_renders_printable_password_as_text() {
    let line = format_password_line(&b"hunter2".to_vec());
    assert_eq!(line, b"Password: hunter2".to_vec());
}

#[test]
fn report_escapes_binary_password() {
    let line = format_password_line(&vec![1u8, 2, 255]);
    assert_eq!(line, b"Password: [1, 2, 255]".to_vec());
}

#[test]
fn report_renders_empty_password_as_empty_text() {
    // every byte of an empty candidate is vacuously printable
    let line = format_password_line(&Vec::new());
    assert_eq!(line, b"Password: ".to_vec());
}

#[test]
fn report_renderable_range_is_digit_zero_through_lowercase_z() {
    assert!(renderable(&b"0z".to_vec()));
    assert!(renderable(&b"hunter2".to_vec()));
    assert!(!renderable(&b"/slash".to_vec()));
    assert!(!renderable(&vec![123u8]));
    assert!(!renderable(&b"has space".to_vec()));
    assert!(renderable(&Vec::new()));
}
