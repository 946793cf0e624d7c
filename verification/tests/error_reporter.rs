use kanic::error_reporter::error_message;

#[test]
fn test_error_message_single_line() {
    let actual = error_message("1 + 2 + hoge", 8, "Invalid token");
    assert_eq!(
        actual,
        "\
1 + 2 + hoge
        ^ Invalid token
"
    );
}

#[test]
fn test_error_message_multi_lines() {
    let actual = error_message(
        "1 + 2 + 2
1 + 3 + hoge",
        18,
        "Invalid token",
    );
    assert_eq!(
        actual,
        "\
1 + 3 + hoge
        ^ Invalid token
"
    );
}

#[test]
fn test_error_message_empty_source() {
    assert_eq!(error_message("", 0, "Invalid token"), "\n^ Invalid token\n");
}

#[test]
fn test_error_message_at_line_start() {
    assert_eq!(
        error_message("ab\ncd", 3, "Invalid token"),
        "ab\n   ^ Invalid token\n"
    );
}
