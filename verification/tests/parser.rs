use at_commands::parser::CommandParser;

#[test]
fn test_ok() {
    let (x, y, z) = CommandParser::parse(b"+SYSGPIOREAD:654,\"true\",-65154\r\nOK\r\n")
        .expect_identifier(b"+SYSGPIOREAD:")
        .expect_int_parameter()
        .expect_string_parameter()
        .expect_int_parameter()
        .expect_identifier(b"\r\nOK\r\n")
        .finish()
        .unwrap();

    assert_eq!(x, 654);
    assert_eq!(y, "true");
    assert_eq!(z, -65154);
}

#[test]
fn test_positive_int_param() {
    let (x,) = CommandParser::parse(b"OK+RP:+20dBm\r\n")
        .expect_identifier(b"OK+RP:")
        .expect_int_parameter()
        .expect_identifier(b"dBm\r\n")
        .finish()
        .unwrap();

    assert_eq!(x, 20);
}

#[test]
fn test_whitespace() {
    let (x, y, z) = CommandParser::parse(b"+SYSGPIOREAD: 654, \"true\", -65154 \r\nOK\r\n")
        .expect_identifier(b"+SYSGPIOREAD:")
        .expect_int_parameter()
        .expect_string_parameter()
        .expect_int_parameter()
        .expect_identifier(b"\r\nOK\r\n")
        .finish()
        .unwrap();

    assert_eq!(x, 654);
    assert_eq!(y, "true");
    assert_eq!(z, -65154);
}

#[test]
fn test_raw_string_value() {
    let (w,) = CommandParser::parse(b"+STATUS: READY\r\nOK\r\n")
        .expect_identifier(b"+STATUS: ")
        .expect_raw_string()
        .expect_identifier(b"\r\nOK\r\n")
        .finish()
        .unwrap();

    assert_eq!(w, "READY");
}

#[test]
fn test_identifier_mismatch() {
    let result = CommandParser::parse(b"+OTHER:1\r\n")
        .expect_identifier(b"+ID:")
        .expect_int_parameter()
        .finish();

    assert!(result.is_err());
}

#[test]
fn test_string_without_closing_quote() {
    let result = CommandParser::parse(b"+ID:\"unterminated\r\n")
        .expect_identifier(b"+ID:")
        .expect_string_parameter()
        .finish();

    assert!(result.is_err());
}

#[test]
fn test_string_closing_quote_at_end() {
    // A closing quote as the frame's very last byte still closes the
    // parameter.
    let (x,) = CommandParser::parse(b"+ID:\"ab\"")
        .expect_identifier(b"+ID:")
        .expect_string_parameter()
        .finish()
        .unwrap();

    assert_eq!(x, "ab");
}

#[test]
fn test_string_not_valid_text() {
    // The quoted span is not valid UTF-8, so the parameter is rejected.
    let result = CommandParser::parse(b"+ID:\"\xff\xfe\",1\r\nOK\r\n")
        .expect_identifier(b"+ID:")
        .expect_string_parameter()
        .finish();

    assert!(result.is_err());
}
