use rust_qotd_server::adm_commands::AdmCommands;
use rust_qotd_server::numbers::{decimal_text, parse_i32, parse_usize, signed_decimal_text};
use rust_qotd_server::server_handling::{
    interpret_request, is_admin_command, pool_size, server_address, PORT,
};

#[test]
fn admin_requests_start_with_pw() {
    assert!(is_admin_command(b"pw:\"admin\"|addquote:\"q\" \"a\""));
    assert!(is_admin_command(b"  \n\tpw:\"admin\""));
    assert!(is_admin_command(b"pwned"));
    assert!(!is_admin_command(b""));
    assert!(!is_admin_command(b"\n"));
    assert!(!is_admin_command(b"addquote:\"q\" \"a\"|pw:\"admin\""));
    assert!(!is_admin_command(b"PW:\"admin\""));
    // not valid UTF-8
    assert!(!is_admin_command(&[b'p', b'w', 0xff]));
    assert!(!is_admin_command(&[0xc3]));
}

#[test]
fn admin_request_bytes_are_read_as_text() {
    let cmds = interpret_request("pw:\"ä\"".as_bytes()).unwrap();
    match &cmds[0] {
        AdmCommands::Password(a) => assert_eq!(a, &vec!["ä".to_string()]),
        other => panic!("unexpected {:?}", other),
    }
    // invalid bytes are replaced, not dropped
    let cmds = interpret_request(&[b'p', b'w', b':', b'"', 0xff, b'"']).unwrap();
    match &cmds[0] {
        AdmCommands::Password(a) => assert_eq!(a, &vec!["\u{fffd}".to_string()]),
        other => panic!("unexpected {:?}", other),
    }
    assert_eq!(
        interpret_request(b"pw").unwrap_err(),
        "Malformed command missing colon: pw"
    );
}

#[test]
fn listening_address() {
    assert_eq!(PORT, 17);
    assert_eq!(server_address(None), "127.0.0.1:17");
    assert_eq!(server_address(Some("0.0.0.0".to_string())), "0.0.0.0:17");
}

#[test]
fn worker_pool_size() {
    assert_eq!(pool_size(None), 4);
    assert_eq!(pool_size(Some("16".to_string())), 16);
    assert_eq!(pool_size(Some("+2".to_string())), 2);
    assert_eq!(pool_size(Some("0".to_string())), 0);
    assert_eq!(pool_size(Some(" 8".to_string())), 4);
    assert_eq!(pool_size(Some("-1".to_string())), 4);
    assert_eq!(pool_size(Some("".to_string())), 4);
    assert_eq!(pool_size(Some("99999999999999999999999".to_string())), 4);
}

#[test]
fn parsing_matches_std() {
    let samples = [
        "", "+", "-", "0", "+0", "-0", "007", "12a", "a12", " 1", "1 ", "++1", "+-1", "-+1",
        "2147483647", "2147483648", "-2147483648", "-2147483649", "4294967295", "4294967296",
        "18446744073709551615", "18446744073709551616", "٣", "１",
    ];
    for s in samples.iter() {
        assert_eq!(parse_usize(s), s.parse::<usize>().ok(), "usize on {:?}", s);
        assert_eq!(parse_i32(s), s.parse::<i32>().ok(), "i32 on {:?}", s);
    }
}

#[test]
fn decimal_text_matches_display() {
    for n in [0u64, 7, 10, 99, 100, 12345, u64::MAX] {
        assert_eq!(decimal_text(n), n.to_string());
    }
    for x in [0i64, -1, 42, -987654321, i64::MAX, i64::MIN + 1, i64::MIN] {
        assert_eq!(signed_decimal_text(x), x.to_string());
    }
}

#[test]
fn numbers_read_back() {
    for n in [0usize, 4, 17, 1000, usize::MAX] {
        assert_eq!(parse_usize(&decimal_text(n as u64)), Some(n));
    }
    for x in [0i32, -1, 7, i32::MAX, i32::MIN] {
        assert_eq!(parse_i32(&signed_decimal_text(x as i64)), Some(x));
    }
}
