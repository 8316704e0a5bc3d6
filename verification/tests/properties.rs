use at_commands::builder::CommandBuilder;
use at_commands::formatter::parse_int;
use at_commands::formatter::write_int;
use at_commands::parser::CommandParser;

#[test]
fn build_then_parse_reproduces_values() {
    let mut buffer = [0; 128];
    let frame = CommandBuilder::create_set(&mut buffer, true)
        .named(b"+CFG")
        .with_int_parameter(-7)
        .with_string_parameter(b"mode")
        .with_int_parameter(2147483647)
        .finish()
        .unwrap();

    let (a, b, c) = CommandParser::parse(frame)
        .expect_identifier(b"AT+CFG=")
        .expect_int_parameter()
        .expect_string_parameter()
        .expect_int_parameter()
        .expect_identifier(b"\r\n")
        .finish()
        .unwrap();

    assert_eq!(a, -7);
    assert_eq!(b, "mode");
    assert_eq!(c, 2147483647);
}

#[test]
fn int_codec_round_trip() {
    let mut buffer = [0; 16];
    for value in [0, 1, -1, 9, -10, 42, 1000000, -2147483648, 2147483647] {
        let written = write_int(&mut buffer, value).to_vec();
        assert_eq!(parse_int(&written), Some(value));
    }
}

#[test]
fn formatted_int_fits_scratch_size() {
    let mut buffer = [0; 32];
    for value in [0, -1, 1000000000, -1000000000, -2147483648, 2147483647] {
        let written = write_int(&mut buffer, value);
        assert!(written.len() <= 11);
        assert!(!written.is_empty());
    }
}

#[test]
fn reported_required_size_is_exact() {
    // A query command that cannot fit: the error carries the exact need.
    let mut small = [0; 5];
    let required = CommandBuilder::create_query(&mut small, true)
        .named(b"+UART_CUR")
        .finish()
        .unwrap_err();
    assert_eq!(required, 14);

    let mut exact = vec![0u8; required];
    let value = CommandBuilder::create_query(&mut exact, true)
        .named(b"+UART_CUR")
        .finish()
        .unwrap();
    assert_eq!(core::str::from_utf8(value).unwrap(), "AT+UART_CUR?\r\n");

    let mut short = vec![0u8; required - 1];
    assert!(CommandBuilder::create_query(&mut short, true)
        .named(b"+UART_CUR")
        .finish()
        .is_err());

    // A set command whose content fits but whose terminator does not.
    let mut small = [0; 7];
    let required = CommandBuilder::create_set(&mut small, true)
        .named(b"+X")
        .with_int_parameter(1)
        .finish()
        .unwrap_err();
    assert_eq!(required, 8);

    let mut exact = vec![0u8; required];
    let value = CommandBuilder::create_set(&mut exact, true)
        .named(b"+X")
        .with_int_parameter(1)
        .finish()
        .unwrap();
    assert_eq!(core::str::from_utf8(value).unwrap(), "AT+X=1\r\n");

    let mut short = vec![0u8; required - 1];
    assert!(CommandBuilder::create_set(&mut short, true)
        .named(b"+X")
        .with_int_parameter(1)
        .finish()
        .is_err());
}

#[test]
fn trailing_separator_is_trimmed() {
    let mut buffer = [0; 32];
    let value = CommandBuilder::create_set(&mut buffer, true)
        .named(b"+X")
        .with_int_parameter(1)
        .with_int_parameter(2)
        .finish()
        .unwrap();
    assert_eq!(core::str::from_utf8(value).unwrap(), "AT+X=1,2\r\n");
}

#[test]
fn optional_parameter_encoding() {
    let mut buffer = [0; 32];
    let value = CommandBuilder::create_set(&mut buffer, true)
        .named(b"+X")
        .with_optional_int_parameter(None)
        .with_optional_int_parameter(Some(9))
        .finish()
        .unwrap();
    assert_eq!(core::str::from_utf8(value).unwrap(), "AT+X=,9\r\n");
}

#[test]
fn whitespace_tolerance() {
    let (x, y) = CommandParser::parse(b"+ID: 654, \"true\" \r\nOK\r\n")
        .expect_identifier(b"+ID:")
        .expect_int_parameter()
        .expect_string_parameter()
        .expect_identifier(b"\r\nOK\r\n")
        .finish()
        .unwrap();
    assert_eq!(x, 654);
    assert_eq!(y, "true");
}

#[test]
fn malformed_int_reports_failure_position() {
    let error = CommandParser::parse(b"+ID:abc\r\n")
        .expect_identifier(b"+ID:")
        .expect_int_parameter()
        .finish()
        .unwrap_err();
    // The position points at the start of the malformed span, not at the
    // end of the buffer.
    assert_eq!(error.0, 4);
}

#[test]
fn minimum_viable_buffer() {
    let mut exact = [0; 8];
    let value = CommandBuilder::create_execute(&mut exact, true)
        .named(b"+GMR")
        .finish()
        .unwrap();
    assert_eq!(core::str::from_utf8(value).unwrap(), "AT+GMR\r\n");

    let mut short = [0; 7];
    let required = CommandBuilder::create_execute(&mut short, true)
        .named(b"+GMR")
        .finish()
        .unwrap_err();
    assert_eq!(required, 8);
}

#[test]
fn empty_input_fails_int_parameter() {
    let result = CommandParser::parse(b"")
        .expect_int_parameter()
        .finish();
    assert!(result.is_err());
}
