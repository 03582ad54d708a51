use chrono::Datelike;
use rust_qotd_server::adm_commands::{command_interpreter, AdmCommands};
use rust_qotd_server::db_operations::{
    add_quote, authorize, change_env_var, command_step, date_code, default_quote, fallback_quote,
    format_quote, has_valid_password, next_quote_date, pick_quote, today, todays_quote_query,
    advance_run, next_command_ready, CommandStep, Effect, Quote, RunAction,
};

fn strings(v: &[&str]) -> Vec<String> {
    v.iter().map(|s| s.to_string()).collect()
}

fn pairs(v: &[(&str, &str)]) -> Vec<(String, String)> {
    v.iter().map(|(a, b)| (a.to_string(), b.to_string())).collect()
}

#[test]
fn password_admits_request() {
    let cmds = command_interpreter(&"addquote:\"q\" \"a\"|pw:\"secret\"".to_string()).unwrap();
    assert!(has_valid_password(&cmds, "secret"));
    assert!(authorize(&cmds, "secret").is_ok());
}

#[test]
fn wrong_or_missing_password_refuses_request() {
    let cmds = command_interpreter(&"pw:\"guess\"|addquote:\"q\" \"a\"".to_string()).unwrap();
    assert_eq!(authorize(&cmds, "secret").unwrap_err(), "Error: invalid password.");
    let no_pw = command_interpreter(&"addquote:\"q\" \"a\"".to_string()).unwrap();
    assert_eq!(authorize(&no_pw, "secret").unwrap_err(), "Error: invalid password.");
    let empty_pw = vec![AdmCommands::Password(vec![])];
    assert!(authorize(&empty_pw, "").is_err());
    // only the first argument of a password command counts
    let second = vec![AdmCommands::Password(strings(&["x", "secret"]))];
    assert!(!has_valid_password(&second, "secret"));
}

#[test]
fn add_quote_needs_two_args() {
    let q = add_quote(&strings(&["Be kind.", "Anon"])).unwrap();
    assert_eq!(q.quote, "Be kind.");
    assert_eq!(q.author, "Anon");
    assert_eq!(add_quote(&strings(&["only"])).unwrap_err(), "Incorrect args for quote.");
    assert_eq!(add_quote(&strings(&["a", "b", "c"])).unwrap_err(), "Incorrect args for quote.");
}

#[test]
fn setting_commands_name_their_variables() {
    assert_eq!(
        change_env_var(&AdmCommands::ChangeDefault(strings(&["Q", "A"]))),
        pairs(&[("DEFAULT_QOTD", "Q"), ("DEFAULT_QOTD_AUTH", "A")])
    );
    assert_eq!(
        change_env_var(&AdmCommands::ChangeIP(strings(&["10.0.0.2"]))),
        pairs(&[("SERVER_IP", "10.0.0.2")])
    );
    assert_eq!(
        change_env_var(&AdmCommands::ChangeMaxReq(strings(&["30"]))),
        pairs(&[("MAX_REQS_PER_HOUR", "30")])
    );
    assert_eq!(
        change_env_var(&AdmCommands::ChangePassword(strings(&["new"]))),
        pairs(&[("ADM_PW", "new")])
    );
    assert_eq!(
        change_env_var(&AdmCommands::ChangePool(strings(&["8", "extra"]))),
        pairs(&[("POOL", "8")])
    );
    assert!(change_env_var(&AdmCommands::Password(strings(&["p"]))).is_empty());
    assert!(change_env_var(&AdmCommands::AddQuote(vec![])).is_empty());
}

#[test]
fn steps_of_commands() {
    assert!(matches!(command_step(&AdmCommands::Password(vec![])), CommandStep::Nothing));
    match command_step(&AdmCommands::AddQuote(strings(&["Q", "A"]))) {
        CommandStep::Perform(Effect::StoreQuote(q)) => {
            assert_eq!(q.quote, "Q");
            assert_eq!(q.author, "A");
        }
        other => panic!("unexpected {:?}", other),
    }
    match command_step(&AdmCommands::AddQuote(strings(&["Q"]))) {
        CommandStep::Stop(e) => assert_eq!(e, "Incorrect args for quote."),
        other => panic!("unexpected {:?}", other),
    }
    match command_step(&AdmCommands::ChangeIP(strings(&["h"]))) {
        CommandStep::Perform(Effect::SetEnv(v)) => assert_eq!(v, pairs(&[("SERVER_IP", "h")])),
        other => panic!("unexpected {:?}", other),
    }
    let unknown = AdmCommands::Unknown { _command: "x".to_string(), _args: vec![] };
    match command_step(&unknown) {
        CommandStep::Stop(e) => assert_eq!(e, "Error: unknown command"),
        other => panic!("unexpected {:?}", other),
    }
}

#[test]
fn new_quotes_are_filed_after_the_latest() {
    assert_eq!(next_quote_date(Some(2024310), 2024101), 2024311);
    assert_eq!(next_quote_date(None, 2024101), 2024101);
    assert_eq!(next_quote_date(Some(-5), 7), -4);
}

#[test]
fn quotes_served() {
    let d = default_quote(Some("Configured".to_string()), None);
    assert_eq!(d.quote, "Configured");
    assert_eq!(d.author, "Error Handler");
    let f = fallback_quote();
    assert_eq!(
        f.quote,
        "The server encountered an error, but errors are just opportunities in disguise."
    );
    let none = default_quote(None, Some("Me".to_string()));
    assert_eq!(none.quote, f.quote);
    assert_eq!(none.author, "Me");

    let picked = pick_quote(Some(pairs(&[("First", "One"), ("Second", "Two")])), f);
    assert_eq!(picked.quote, "First");
    assert_eq!(picked.author, "One");
    let dflt = Quote { quote: "D".to_string(), author: "E".to_string() };
    let empty = pick_quote(Some(vec![]), dflt);
    assert_eq!(empty.quote, "D");
    let dflt2 = Quote { quote: "D2".to_string(), author: "E2".to_string() };
    assert_eq!(pick_quote(None, dflt2).author, "E2");
}

#[test]
fn quote_text_sent_to_clients() {
    let q = Quote { quote: "Stay hungry.".to_string(), author: "Jobs".to_string() };
    assert_eq!(format_quote(&q), "Stay hungry. - Jobs");
}

#[test]
fn query_for_todays_quotes() {
    assert_eq!(
        todays_quote_query(2024315),
        "select quote, author from qotd where returned_on = 2024315"
    );
    assert_eq!(todays_quote_query(-12), "select quote, author from qotd where returned_on = -12");
    assert_eq!(
        todays_quote_query(i32::MIN),
        "select quote, author from qotd where returned_on = -2147483648"
    );
}

#[test]
fn date_codes_concatenate_without_padding() {
    assert_eq!(date_code(2024, 3, 5), Some(202435));
    assert_eq!(date_code(2024, 12, 31), Some(20241231));
    assert_eq!(date_code(0, 1, 1), Some(11));
    assert_eq!(date_code(-44, 3, 15), Some(-44315));
    assert_eq!(date_code(262143, 12, 31), None);
    assert_eq!(date_code(21474, 8, 3), Some(2147483));
    assert_eq!(date_code(214748, 3, 647), Some(2147483647));
    assert_eq!(date_code(214748, 3, 648), None);
    for (y, m, d) in [(1999, 1, 9), (5, 10, 10), (-1, 2, 3), (99999, 12, 31)] {
        let text = format!("{}{}{}", y, m, d);
        assert_eq!(date_code(y, m, d), text.parse::<i32>().ok());
    }
}

#[test]
fn todays_code_follows_the_clock() {
    let before = chrono::Local::now();
    let (y, m, d) = today();
    let code = date_code(y, m, d);
    let after = chrono::Local::now();
    assert!((1..=12).contains(&m) && (1..=31).contains(&d));
    let expect = |t: chrono::DateTime<chrono::Local>| {
        format!("{}{}{}", t.year(), t.month(), t.day()).parse::<i32>().ok()
    };
    assert!(code.is_some());
    assert!(code == expect(before) || code == expect(after));
}

#[test]
fn run_stops_at_the_first_stop() {
    let cmds = command_interpreter(
        &"pw:\"p\"|changeip:\"h\"|pw:\"x\"|addquote:\"q\"|changepool:\"9\"".to_string(),
    )
    .unwrap();
    assert!(next_command_ready(&cmds, 0));
    let (first, next) = advance_run(&cmds, 0, Ok(()));
    match first {
        RunAction::Perform(Effect::SetEnv(v)) => assert_eq!(v, pairs(&[("SERVER_IP", "h")])),
        other => panic!("unexpected {:?}", other),
    }
    assert_eq!(next, 2);
    // the password command is passed over; the bad addquote ends the run
    let (second, _) = advance_run(&cmds, next, Ok(()));
    match second {
        RunAction::Finish(Err(e)) => assert_eq!(e, "Incorrect args for quote."),
        other => panic!("unexpected {:?}", other),
    }
}

#[test]
fn run_ends_on_a_failed_effect_or_at_the_end() {
    let cmds = command_interpreter(&"pw:\"p\"|changeip:\"h\"".to_string()).unwrap();
    match advance_run(&cmds, 2, Err("disk full".to_string())) {
        (RunAction::Finish(Err(e)), pos) => {
            assert_eq!(e, "disk full");
            assert_eq!(pos, 2);
        }
        other => panic!("unexpected {:?}", other),
    }
    assert!(matches!(advance_run(&cmds, 2, Ok(())).0, RunAction::Finish(Ok(()))));
    let unknown = command_interpreter(&"pw:\"p\"|shutdown:".to_string()).unwrap();
    match advance_run(&unknown, 0, Ok(())).0 {
        RunAction::Finish(Err(e)) => assert_eq!(e, "Error: unknown command"),
        other => panic!("unexpected {:?}", other),
    }
}

#[test]
fn run_readiness_looks_at_the_next_acting_command() {
    let cmds = vec![
        AdmCommands::Password(strings(&["p"])),
        AdmCommands::ChangeDefault(strings(&["only one"])),
    ];
    assert!(!next_command_ready(&cmds, 0));
    assert!(next_command_ready(&cmds, 2));
    let ok = vec![AdmCommands::Password(strings(&["p"])), AdmCommands::ChangeIP(vec![])];
    assert!(!next_command_ready(&ok, 1));
    let fine = vec![AdmCommands::AddQuote(vec![]), AdmCommands::ChangeIP(vec![])];
    assert!(next_command_ready(&fine, 0));
}

#[test]
fn changed_password_admits_the_new_and_refuses_the_old() {
    let vars = change_env_var(&AdmCommands::ChangePassword(strings(&["new"])));
    let configured = vars.iter().find(|(k, _)| k == "ADM_PW").unwrap().1.clone();
    let with_new = command_interpreter(&"pw:\"new\"".to_string()).unwrap();
    let with_old = command_interpreter(&"pw:\"old\"".to_string()).unwrap();
    assert!(authorize(&with_new, &configured).is_ok());
    assert!(authorize(&with_old, &configured).is_err());
}

#[test]
fn quote_filed_into_a_full_store_is_served_on_its_date() {
    // stored rows (quote, author, date)
    let store = vec![("a", "x", 20241), ("b", "y", 202412), ("c", "z", 20245)];
    let latest = store.iter().map(|r| r.2).max();
    let date = next_quote_date(latest, 20246);
    assert_eq!(date, 202413);
    assert!(store.iter().all(|r| r.2 < date));
    let mut filed: Vec<(&str, &str, i32)> = store.clone();
    filed.push(("new", "me", date));
    let on_date: Vec<(String, String)> = filed
        .iter()
        .filter(|r| r.2 == date)
        .map(|r| (r.0.to_string(), r.1.to_string()))
        .collect();
    let served = pick_quote(Some(on_date), fallback_quote());
    assert_eq!(served.quote, "new");
    assert_eq!(served.author, "me");
}
