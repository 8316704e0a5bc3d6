use at_commands::formatter::parse_int;
use at_commands::formatter::write_int;

#[test]
fn test_write_int() {
    let mut buffer = [0; 128];

    assert_eq!(write_int(&mut buffer, 0), b"0");
    assert_eq!(write_int(&mut buffer, -1), b"-1");
    assert_eq!(write_int(&mut buffer, 1), b"1");
    assert_eq!(write_int(&mut buffer, -42), b"-42");
    assert_eq!(write_int(&mut buffer, 42), b"42");
    assert_eq!(write_int(&mut buffer, -2147483648), b"-2147483648");
    assert_eq!(write_int(&mut buffer, 2147483647), b"2147483647");
}

#[test]
fn test_parse_int() {
    assert_eq!(parse_int(b"0"), Some(0));
    assert_eq!(parse_int(b"-1"), Some(-1));
    assert_eq!(parse_int(b"1"), Some(1));
    assert_eq!(parse_int(b"-42"), Some(-42));
    assert_eq!(parse_int(b"42"), Some(42));
    assert_eq!(parse_int(b"-2147483648"), Some(-2147483648));
    assert_eq!(parse_int(b"2147483647"), Some(2147483647));

    assert_eq!(parse_int(b""), None);
    assert_eq!(parse_int(b"abc"), None);
    assert_eq!(parse_int(b"-b"), None);
    assert_eq!(parse_int(b"123456a"), None);
    assert_eq!(parse_int(b"z12354"), None);
}
