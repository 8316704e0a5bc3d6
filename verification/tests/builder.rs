use at_commands::builder::CommandBuilder;

#[test]
fn test_command() {
    let mut buffer = [0; 128];
    let value = CommandBuilder::create_test(&mut buffer, true)
        .named(b"+TEST")
        .finish()
        .unwrap();

    assert_eq!(core::str::from_utf8(value).unwrap(), "AT+TEST=?\r\n");
}

#[test]
fn test_query() {
    let mut buffer = [0; 128];
    let value = CommandBuilder::create_query(&mut buffer, true)
        .named(b"+QUERY")
        .finish()
        .unwrap();

    assert_eq!(core::str::from_utf8(value).unwrap(), "AT+QUERY?\r\n");
}

#[test]
fn test_set() {
    let mut buffer = [0; 128];
    let value = CommandBuilder::create_set(&mut buffer, true)
        .named(b"+SET")
        .with_int_parameter(12345)
        .with_string_parameter(b"my_string_param")
        .with_int_parameter(67)
        .with_int_parameter(89)
        .finish()
        .unwrap();

    assert_eq!(
        core::str::from_utf8(value).unwrap(),
        "AT+SET=12345,\"my_string_param\",67,89\r\n"
    );
}

#[test]
fn test_execute() {
    let mut buffer = [0; 128];
    let value = CommandBuilder::create_execute(&mut buffer, true)
        .named(b"+EXECUTE")
        .finish()
        .unwrap();

    assert_eq!(core::str::from_utf8(value).unwrap(), "AT+EXECUTE\r\n");
}

#[test]
fn test_buffer_too_short() {
    let mut buffer = [0; 5];
    assert!(CommandBuilder::create_execute(&mut buffer, true)
        .named(b"+BUFFERLENGTH")
        .finish()
        .is_err());
    assert!(CommandBuilder::create_execute(&mut buffer, true)
        .named(b"+A")
        .finish()
        .is_err()); // too short by only one byte
}

#[test]
fn test_buffer_exact_size() {
    let mut buffer = [0; 32];
    let value = CommandBuilder::create_execute(&mut buffer[..8], true)
        .named(b"+GMR")
        .finish()
        .unwrap();

    assert_eq!(core::str::from_utf8(value).unwrap(), "AT+GMR\r\n");

    let value = CommandBuilder::create_set(&mut buffer[..19], true)
        .named(b"+CWRECONNCFG")
        .with_int_parameter(15)
        .finish()
        .unwrap();

    assert_eq!(core::str::from_utf8(value).unwrap(), "AT+CWRECONNCFG=15\r\n");

    let value = CommandBuilder::create_query(&mut buffer[..14], true)
        .named(b"+UART_CUR")
        .finish()
        .unwrap();

    assert_eq!(core::str::from_utf8(value).unwrap(), "AT+UART_CUR?\r\n");
}

#[test]
fn test_terminator() {
    let mut buffer = [0; 128];
    let value = CommandBuilder::create_test(&mut buffer, true)
        .named(b"+TEST")
        .finish_with(b"\0")
        .unwrap();

    assert_eq!(core::str::from_utf8(value).unwrap(), "AT+TEST=?\0");
}

#[test]
fn test_optional() {
    let mut buffer = [0; 128];
    let value = CommandBuilder::create_set(&mut buffer, true)
        .named(b"+CCUG")
        .with_empty_parameter()
        .with_optional_int_parameter(Some(9))
        .finish_with(b"\r")
        .unwrap();
    // see https://www.multitech.com/documents/publications/manuals/s000453c.pdf
    // pages 8 and 85 for command and 150 for CR ending
    assert_eq!(core::str::from_utf8(value).unwrap(), "AT+CCUG=,9\r");

    let value = CommandBuilder::create_set(&mut buffer, true)
        .named(b"+BLEGATTSSETATTR")
        .with_int_parameter(1)
        .with_int_parameter(1)
        .with_empty_parameter()
        .with_int_parameter(4)
        .finish()
        .unwrap();
    // https://docs.espressif.com/projects/esp-at/en/latest/AT_Command_Set/BLE_AT_Commands.html#cmd-GSSETA
    assert_eq!(
        core::str::from_utf8(value).unwrap(),
        "AT+BLEGATTSSETATTR=1,1,,4\r\n"
    );

    let value = CommandBuilder::create_set(&mut buffer, true)
        .named(b"+HTTPCLIENT")
        .with_int_parameter(2)
        .with_int_parameter(1)
        .with_optional_string_parameter(Some(b"http://localpc/ip"))
        .with_empty_parameter()
        .with_empty_parameter()
        .with_int_parameter(1)
        .finish()
        .unwrap();

    assert_eq!(
        core::str::from_utf8(value).unwrap(),
        "AT+HTTPCLIENT=2,1,\"http://localpc/ip\",,,1\r\n"
    );
}

#[test]
fn test_raw_parameter() {
    let mut buffer = [0; 128];
    let value = CommandBuilder::create_set(&mut buffer, true)
        .named(b"+CPIN")
        .with_raw_parameter(b"1234")
        .with_optional_int_parameter(Some(9))
        .finish_with(b"\r")
        .unwrap();
    assert_eq!(core::str::from_utf8(value).unwrap(), "AT+CPIN=1234,9\r");
}
