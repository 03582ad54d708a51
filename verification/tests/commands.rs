use rust_qotd_server::adm_commands::{command_interpreter, AdmCommands};
use rust_qotd_server::quoted::parse_quoted_args;
use rust_qotd_server::text::{has_prefix_text, split_once_text, split_text, trim_text};

fn args_of(c: &AdmCommands) -> Vec<String> {
    match c {
        AdmCommands::Password(a)
        | AdmCommands::AddQuote(a)
        | AdmCommands::ChangeDefault(a)
        | AdmCommands::ChangeIP(a)
        | AdmCommands::ChangePool(a)
        | AdmCommands::ChangeMaxReq(a)
        | AdmCommands::ChangePassword(a) => a.clone(),
        AdmCommands::Unknown { _args, .. } => _args.clone(),
    }
}

fn strings(v: &[&str]) -> Vec<String> {
    v.iter().map(|s| s.to_string()).collect()
}

#[test]
fn readme_admin_request() {
    let req = "pw:\"admin\"|addquote:\"This is a new quote\" \"Author Name\"".to_string();
    let cmds = command_interpreter(&req).unwrap();
    assert_eq!(cmds.len(), 2);
    assert!(matches!(cmds[0], AdmCommands::Password(_)));
    assert_eq!(args_of(&cmds[0]), strings(&["admin"]));
    assert!(matches!(cmds[1], AdmCommands::AddQuote(_)));
    assert_eq!(args_of(&cmds[1]), strings(&["This is a new quote", "Author Name"]));
}

#[test]
fn readme_admin_request_with_newline() {
    let req = "pw:\"admin\"|addquote:\"This is a new quote\" \"Author Name\"\n".to_string();
    let cmds = command_interpreter(&req).unwrap();
    assert_eq!(cmds.len(), 2);
    assert_eq!(args_of(&cmds[1]), strings(&["This is a new quote", "Author Name"]));
}

#[test]
fn each_keyword_selects_its_command() {
    let pick = |name: &str| AdmCommands::from((name.to_string(), strings(&["x"])));
    assert!(matches!(pick("pw"), AdmCommands::Password(_)));
    assert!(matches!(pick("addquote"), AdmCommands::AddQuote(_)));
    assert!(matches!(pick("changedef"), AdmCommands::ChangeDefault(_)));
    assert!(matches!(pick("changeip"), AdmCommands::ChangeIP(_)));
    assert!(matches!(pick("changepool"), AdmCommands::ChangePool(_)));
    assert!(matches!(pick("changemaxreq"), AdmCommands::ChangeMaxReq(_)));
    assert!(matches!(pick("changepassword"), AdmCommands::ChangePassword(_)));
    match pick("shutdown") {
        AdmCommands::Unknown { _command, _args } => {
            assert_eq!(_command, "shutdown");
            assert_eq!(_args, strings(&["x"]));
        }
        other => panic!("unexpected {:?}", other),
    }
    // keywords are matched exactly, case included
    assert!(matches!(pick("PW"), AdmCommands::Unknown { .. }));
}

#[test]
fn command_names_are_trimmed() {
    let req = "  pw  :\"a\"|\tchangeip :\"10.0.0.1\"".to_string();
    let cmds = command_interpreter(&req).unwrap();
    assert_eq!(cmds.len(), 2);
    assert!(matches!(cmds[0], AdmCommands::Password(_)));
    assert!(matches!(cmds[1], AdmCommands::ChangeIP(_)));
    assert_eq!(args_of(&cmds[1]), strings(&["10.0.0.1"]));
}

#[test]
fn blank_pieces_are_skipped() {
    let req = " | pw:\"a\" ||  \n|".to_string();
    let cmds = command_interpreter(&req).unwrap();
    assert_eq!(cmds.len(), 1);
    assert!(command_interpreter(&"".to_string()).unwrap().is_empty());
    assert!(command_interpreter(&"   \r\n".to_string()).unwrap().is_empty());
}

#[test]
fn missing_colon_is_an_error() {
    let req = "pw:\"a\"| addquote \"q\" \"a\" |changeip".to_string();
    let err = command_interpreter(&req).unwrap_err();
    assert_eq!(err, "Malformed command missing colon:  addquote \"q\" \"a\" ");
}

#[test]
fn only_the_first_colon_separates() {
    let req = "addquote:\"Time: now\" \"A: B\"".to_string();
    let cmds = command_interpreter(&req).unwrap();
    assert_eq!(args_of(&cmds[0]), strings(&["Time: now", "A: B"]));
}

#[test]
fn unknown_command_keeps_name_and_args() {
    let req = "reboot:\"now\"".to_string();
    let cmds = command_interpreter(&req).unwrap();
    match &cmds[0] {
        AdmCommands::Unknown { _command, _args } => {
            assert_eq!(_command, "reboot");
            assert_eq!(_args, &strings(&["now"]));
        }
        other => panic!("unexpected {:?}", other),
    }
}

#[test]
fn empty_argument_list() {
    let cmds = command_interpreter(&"pw:".to_string()).unwrap();
    assert!(matches!(cmds[0], AdmCommands::Password(_)));
    assert!(args_of(&cmds[0]).is_empty());
}

#[test]
fn quoted_args_keep_escapes() {
    assert_eq!(parse_quoted_args("\"a\\\"b\" \"c\""), strings(&["a\\\"b", "c"]));
    assert_eq!(parse_quoted_args("x \"\" y"), strings(&[""]));
    assert_eq!(parse_quoted_args("\"unterminated"), Vec::<String>::new());
    assert_eq!(parse_quoted_args("\"a\\\nb\" \"c\""), strings(&[" "]));
    assert_eq!(parse_quoted_args("\"é ü\" \"日本\""), strings(&["é ü", "日本"]));
}

fn arg_pattern() -> regex::Regex {
    regex::Regex::new(r#""([^"\\]*(?:\\.[^"\\]*)*)""#).unwrap()
}

fn regex_args(re: &regex::Regex, s: &str) -> Vec<String> {
    re.captures_iter(s).map(|cap| cap[1].to_owned()).collect()
}

#[test]
fn quoted_args_agree_with_the_pattern() {
    let re = arg_pattern();
    let samples = [
        "",
        "\"a\" \"b\"",
        "\"a\\\"b\"",
        "\"a\\\\\" \"b\"",
        "\"a\\",
        "\"a\\\n\" \"b\"",
        "\"\\\n\"\"",
        "\"\"\"\"\"",
        "x\"y\"z\"w",
        "\"é\\ü\" \"\\日\"",
        "\"a\\\"",
        "\\\"a\"",
    ];
    for s in samples.iter() {
        assert_eq!(parse_quoted_args(s), regex_args(&re, s), "on {:?}", s);
    }
    // every string over a small alphabet, up to length 5
    let alphabet = ['"', '\\', 'a', '\n', ' '];
    let mut current: Vec<String> = vec![String::new()];
    for _ in 0..5 {
        let mut next = Vec::new();
        for s in &current {
            for c in alphabet.iter() {
                let mut t = s.clone();
                t.push(*c);
                assert_eq!(parse_quoted_args(&t), regex_args(&re, &t), "on {:?}", t);
                next.push(t);
            }
        }
        current = next;
    }
}

#[test]
fn text_helpers_match_std() {
    let samples = ["", " a ", "\u{a0}x\u{3000}", "\t\n", "a|b||c|", "|", "k:v:w", "\u{85}y\u{2028}"];
    for s in samples.iter() {
        assert_eq!(trim_text(s), s.trim());
        let expected: Vec<String> = s.split('|').map(|p| p.to_string()).collect();
        assert_eq!(split_text(s, '|'), expected);
        let parts: Vec<&str> = s.splitn(2, ':').collect();
        match split_once_text(s, ':') {
            Some((a, b)) => {
                assert_eq!(parts.len(), 2);
                assert_eq!(a, parts[0]);
                assert_eq!(b, parts[1]);
            }
            None => assert_eq!(parts.len(), 1),
        }
        assert_eq!(has_prefix_text(s, "a"), s.starts_with("a"));
    }
}

#[test]
fn white_space_set_matches_std() {
    for u in 0u32..0x3100 {
        if let Some(c) = char::from_u32(u) {
            let s = c.to_string();
            assert_eq!(trim_text(&s).is_empty(), c.is_whitespace(), "on U+{:04X}", u);
        }
    }
}

#[test]
fn written_request_reads_back() {
    // each command written as name, ':', and its arguments quoted and followed by a space
    let req = "pw:\"secret\" |changedef:\"Carpe diem\" \"Horace\" |reboot:".to_string();
    let cmds = command_interpreter(&req).unwrap();
    assert_eq!(cmds.len(), 3);
    assert!(matches!(cmds[0], AdmCommands::Password(_)));
    assert_eq!(args_of(&cmds[0]), strings(&["secret"]));
    assert!(matches!(cmds[1], AdmCommands::ChangeDefault(_)));
    assert_eq!(args_of(&cmds[1]), strings(&["Carpe diem", "Horace"]));
    assert!(matches!(cmds[2], AdmCommands::Unknown { .. }));
    assert!(args_of(&cmds[2]).is_empty());
}

#[test]
fn trailing_white_space_changes_nothing() {
    for tail in ["", "\n", "\r\n", " \t ", "\u{3000}"] {
        let req = format!("pw:\"a\"|addquote:\"q\" \"b\"{}", tail);
        let cmds = command_interpreter(&req).unwrap();
        assert_eq!(cmds.len(), 2);
        assert_eq!(args_of(&cmds[1]), strings(&["q", "b"]));
    }
}
