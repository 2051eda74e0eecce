use wsl_dns_agent::wsl::{check_wsl_output, parse_distributions, to_u16, Error, WslDistribution};

#[test]
fn parses_marker_and_two_distributions() {
    let out = parse_distributions(
        "NAME  STATE  VERSION\n* Ubuntu  Running  2\nDebian  Stopped  1\n",
    )
    .unwrap();
    assert_eq!(out.len(), 2);
    assert_eq!(out[0].name, "Ubuntu");
    assert_eq!(out[0].status, "Running");
    assert_eq!(out[0].version, 2);
    assert_eq!(out[1].name, "Debian");
    assert_eq!(out[1].status, "Stopped");
    assert_eq!(out[1].version, 1);
}

#[test]
fn wrong_field_count_fails_the_whole_call() {
    let r = parse_distributions("NAME  STATE  VERSION\nUbuntu  Running  2\nBroken line\n");
    assert!(matches!(r, Err(Error::UnexpectedListOutput)));
}

#[test]
fn extra_fields_fail_the_whole_call() {
    let r = parse_distributions("HEADER\nUbuntu  Running  2  extra\n");
    assert!(matches!(r, Err(Error::UnexpectedListOutput)));
}

#[test]
fn non_numeric_version_fails() {
    let r = parse_distributions("HEADER\nUbuntu  Running  two\n");
    assert!(matches!(r, Err(Error::UnexpectedListOutput)));
}

#[test]
fn header_only_output_parses_to_no_distributions() {
    let out = parse_distributions("NAME  STATE  VERSION\n").unwrap();
    assert!(out.is_empty());
    let empty = parse_distributions("").unwrap();
    assert!(empty.is_empty());
}

#[test]
fn carriage_returns_are_tolerated() {
    let out = parse_distributions("NAME  STATE  VERSION\r\nUbuntu  Running  2\r\n").unwrap();
    assert_eq!(out.len(), 1);
    assert_eq!(out[0].name, "Ubuntu");
    assert_eq!(out[0].version, 2);
}

#[test]
fn version_numbers_up_to_the_32_bit_limit_parse() {
    let out = parse_distributions("HEADER\nUbuntu  Running  4294967295\n").unwrap();
    assert_eq!(out[0].version, u32::MAX);
    let too_big = parse_distributions("HEADER\nUbuntu  Running  4294967296\n");
    assert!(matches!(too_big, Err(Error::UnexpectedListOutput)));
    let negative = parse_distributions("HEADER\nUbuntu  Running  -1\n");
    assert!(matches!(negative, Err(Error::UnexpectedListOutput)));
}

#[test]
fn was_stopped_matches_the_listed_state() {
    let stopped = WslDistribution {
        name: "a".to_string(),
        status: "Stopped".to_string(),
        version: 2,
    };
    let running = WslDistribution {
        name: "b".to_string(),
        status: "Running".to_string(),
        version: 2,
    };
    assert!(stopped.was_stopped());
    assert!(!running.was_stopped());
}

#[test]
fn to_u16_combines_byte_pairs_low_byte_first() {
    assert_eq!(to_u16(&[0x41, 0x00, 0x42, 0x00]), vec![0x41u16, 0x42u16]);
    assert_eq!(to_u16(&[0x00, 0x01]), vec![0x100u16]);
    // A leftover odd byte is dropped.
    assert_eq!(to_u16(&[0x41, 0x00, 0x7f]), vec![0x41u16]);
    assert_eq!(to_u16(&[]), Vec::<u16>::new());
}

#[test]
fn to_u16_round_trips_wide_text() {
    let wide: Vec<u8> = "WSL".encode_utf16().flat_map(|u| u.to_le_bytes()).collect();
    let units = to_u16(&wide);
    assert_eq!(String::from_utf16(&units).unwrap(), "WSL");
}

#[test]
fn successful_exit_passes_check() {
    assert!(check_wsl_output(true, 0, None, None, None, None).is_ok());
}

#[test]
fn failed_exit_carries_code_and_decoded_output() {
    let r = check_wsl_output(
        false,
        3,
        Some("wide err".to_string()),
        Some("narrow err".to_string()),
        None,
        Some("narrow out".to_string()),
    );
    match r {
        Err(Error::BadStatus { code, stderr_16, stderr_8, stdout_16, stdout_8 }) => {
            assert_eq!(code, 3);
            assert_eq!(stderr_16.as_deref(), Some("wide err"));
            assert_eq!(stderr_8.as_deref(), Some("narrow err"));
            assert_eq!(stdout_16, None);
            assert_eq!(stdout_8.as_deref(), Some("narrow out"));
        }
        other => panic!("expected BadStatus, got {:?}", other),
    }
}
