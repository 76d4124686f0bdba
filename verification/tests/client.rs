use relaydrop::client::{
    all_inputs, answer_step, choose_code, hello, invitation, random_secret, receive_command,
    receive_note, secret_from_bytes, send_note, ConnectError, NoInputs,
};
use relaydrop::crypto::{decrypt, derive_key, room_name};
use relaydrop::framed::{open_msg, open_next, Msg, RecvError};
use relaydrop::relay::{handshake_step, HandshakeStep, Stage};

#[test]
fn secrets_of_given_bytes() {
    let mut bytes = [0u8; 18];
    for i in 0..18 {
        bytes[i] = i as u8;
    }
    assert_eq!(secret_from_bytes(&bytes), "AAECAwQFBgcICQoLDA0ODxAR");
    assert_eq!(secret_from_bytes(&[0xff; 18]), "________________________");
    assert_eq!(secret_from_bytes(&[0xfb, 0xef, 0xbe, 0, 0, 0, 0, 0, 0, 0, 0, 0, 0, 0, 0, 0, 0, 0]),
        "----AAAAAAAAAAAAAAAAAAAA");
}

#[test]
fn random_secrets_are_url_safe_and_differ() {
    let a = random_secret();
    assert_eq!(a.len(), 24);
    assert!(a.chars().all(|c| c.is_ascii_alphanumeric() || c == '-' || c == '_'));
    assert_ne!(a, random_secret());
}

#[test]
fn codes() {
    assert_eq!(choose_code(Some("MYCODE".into())), "MYCODE");
    assert_eq!(choose_code(Some(String::new())), "");
    assert_eq!(choose_code(None).len(), 24);
}

#[test]
fn commands_for_the_peer() {
    assert_eq!(
        receive_command("tcp://127.0.0.1:9090", "C", "SECRET"),
        "relaydrop receive --relay tcp://127.0.0.1:9090 --code C --password SECRET --out ."
    );
    assert_eq!(
        receive_command("wss://h", "C", ""),
        "relaydrop receive --relay wss://h --code C --out ."
    );
    assert_eq!(
        invitation("wss://h", "C", ""),
        "On the other computer run:\n  relaydrop receive --relay wss://h --code C --out ."
    );
}

fn as_pasted(command: &str) -> (String, String, String, String) {
    let option = |name: &'static str| clap::Arg::new(name).long(name).action(clap::ArgAction::Set);
    let parser = clap::Command::new("relaydrop").subcommand(
        clap::Command::new("receive")
            .arg(option("relay"))
            .arg(option("code"))
            .arg(option("password").default_value(""))
            .arg(option("out")),
    );
    let matches = parser.try_get_matches_from(command.split_whitespace()).unwrap();
    let receive = matches.subcommand_matches("receive").unwrap();
    let get = |name| receive.get_one::<String>(name).unwrap().clone();
    (get("relay"), get("code"), get("password"), get("out"))
}

#[test]
fn commands_can_be_pasted() {
    let drawn = secret_from_bytes(&[0xf8; 18]);
    assert!(drawn.starts_with('-'));
    for code in ["MYCODE", "-c", "--code", "_x", drawn.as_str()] {
        for password in ["", "SECRET", "-p"] {
            let command = receive_command("wss://relay.example.com", code, password);
            assert_eq!(
                as_pasted(&command),
                ("wss://relay.example.com".into(), code.into(), password.into(), ".".into())
            );
        }
    }
    assert_eq!(
        receive_command("h:1", "-c", ""),
        "relaydrop receive --relay h:1 --code=-c --out ."
    );
}

#[test]
fn notes() {
    assert!(send_note("").starts_with("note: --password was not given."));
    assert!(send_note("x").contains("already embeds --password"));
    assert!(receive_note("").unwrap().starts_with("note: --password was not given."));
    assert!(receive_note("x").is_none());
}

#[test]
fn inputs_are_merged() {
    let all = all_inputs(vec!["a".into()], vec!["b".into(), "c".into()]).unwrap();
    assert_eq!(all, vec!["a", "b", "c"]);
    assert_eq!(all_inputs(vec![], vec![]), Err(NoInputs));
    assert_eq!(all_inputs(vec![], vec!["f".into()]).unwrap(), vec!["f"]);
}

#[test]
fn hello_leads_into_the_room() {
    let (first, second) = hello("pw", "MYCODE");
    let key = derive_key(b"pw");
    match open_msg(&key, &first).unwrap() {
        Msg::Password { enc } => assert_eq!(decrypt(&key, &enc).unwrap(), b"auth"),
        other => panic!("{other:?}"),
    }
    let stage = match handshake_step(Stage::AwaitPassword, open_next(&key, Some(first))) {
        HandshakeStep::Continue(stage) => stage,
        other => panic!("{other:?}"),
    };
    let joined = match handshake_step(stage, open_next(&key, Some(second))) {
        HandshakeStep::Join { room } => room,
        other => panic!("{other:?}"),
    };
    assert_eq!(joined, room_name("MYCODE"));
    assert!(!joined.contains("MYCODE"));
}

#[test]
fn what_is_said_about_a_refusal() {
    assert_eq!(ConnectError::RoomFull.text("x"), "relay room is full");
    assert_eq!(ConnectError::Relay { msg: "no".into() }.text("x"), "relay error: no");
    assert_eq!(ConnectError::Unexpected(None).text("None"), "unexpected relay response: None");
    assert_eq!(
        ConnectError::Handshake(RecvError::Transport).text("reset"),
        "handshake with relay failed (likely --password mismatch with relay, or relay unreachable): reset"
    );
    assert_eq!(NoInputs.text(), "no file or path given (use --file or positional paths)");
}

#[test]
fn relay_answers() {
    assert!(answer_step(Ok(Some(Msg::Ready))).is_ok());
    assert!(matches!(answer_step(Ok(Some(Msg::RoomFull))), Err(ConnectError::RoomFull)));
    assert!(matches!(
        answer_step(Ok(Some(Msg::Error { msg: "no".into() }))),
        Err(ConnectError::Relay { msg }) if msg == "no"
    ));
    assert!(matches!(answer_step(Ok(None)), Err(ConnectError::Unexpected(None))));
    assert!(matches!(
        answer_step(Ok(Some(Msg::Done))),
        Err(ConnectError::Unexpected(Some(Msg::Done)))
    ));
    assert!(matches!(
        answer_step(Err(RecvError::Malformed)),
        Err(ConnectError::Handshake(RecvError::Malformed))
    ));
}
