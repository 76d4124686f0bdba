use relaydrop::crypto::{derive_key, encrypt, CryptoError, FileDigest};
use relaydrop::framed::{open_next, seal_msg, FileEntry, Msg, RecvError};
use relaydrop::paths::Platform;
use relaydrop::transfer::{
    check_digest, chunk_result, ReceiveError, ReceiveStep, Receiver, Sender, CHUNK,
};

fn sha(content: &[u8]) -> String {
    let mut digest = FileDigest::new();
    digest.update(content);
    digest.finish()
}

fn entry(relpath: &str, content: &[u8]) -> FileEntry {
    FileEntry { relpath: relpath.into(), size: content.len() as u64, sha256: sha(content) }
}

fn messages(code: &str, files: &[(&str, Vec<u8>)]) -> Vec<Msg> {
    let entries = files.iter().map(|(p, c)| entry(p, c)).collect();
    let (mut sender, manifest) = Sender::start(code, entries);
    let mut out = vec![manifest];
    while let Some(i) = sender.pending() {
        for piece in files[i].1.chunks(CHUNK) {
            out.push(sender.push(piece));
        }
        assert_eq!(sender.sent(), files[i].1.len() as u64);
        out.push(sender.push(&[]));
    }
    let total: usize = files.iter().map(|f| f.1.len()).sum();
    assert_eq!(sender.total(), total as u64);
    let (done, count, bytes) = sender.finish();
    assert_eq!((count, bytes), (files.len(), total as u64));
    out.push(done);
    out
}

fn receive_all(code: &str, msgs: Vec<Msg>) -> (Vec<(String, Vec<u8>)>, ReceiveStep) {
    let mut receiver = Receiver::new(code, Platform::Unix);
    let mut files: Vec<(String, Vec<u8>)> = Vec::new();
    for msg in msgs {
        match receiver.step(Ok(Some(msg))) {
            ReceiveStep::Started { first: Some(p) } => files.push((p, Vec::new())),
            ReceiveStep::FileDone { next: Some(p) } => files.push((p, Vec::new())),
            ReceiveStep::Data(d) => files.last_mut().unwrap().1.extend(d),
            ReceiveStep::Started { first: None } => {}
            ReceiveStep::FileDone { next: None } => {}
            last => return (files, last),
        }
    }
    panic!("the transfer did not end");
}

#[test]
fn a_transfer_delivers() {
    let files = vec![
        ("a.txt", b"hello".to_vec()),
        ("dir/empty", Vec::new()),
        ("dir/large", vec![7u8; 2 * CHUNK + 1]),
    ];
    let msgs = messages("CODE", &files);
    assert_eq!(msgs.len(), 1 + 2 + 1 + 4 + 1);
    let (stored, last) = receive_all("CODE", msgs);
    let expected: Vec<(String, Vec<u8>)> =
        files.iter().map(|(p, c)| (p.to_string(), c.clone())).collect();
    assert_eq!(stored, expected);
    assert!(matches!(last, ReceiveStep::Complete { files: 3, bytes } if bytes == 5 + 131_073));
}

#[test]
fn a_transfer_delivers_over_a_sealed_channel() {
    let key = derive_key(b"relay password");
    let files = vec![("x", b"content".to_vec())];
    let mut receiver = Receiver::new("CODE", Platform::Unix);
    let mut content = Vec::new();
    let mut complete = false;
    for msg in messages("CODE", &files) {
        let frame = seal_msg(&key, &msg);
        match receiver.step(open_next(&key, frame)) {
            ReceiveStep::Data(d) => content.extend(d),
            ReceiveStep::Complete { .. } => complete = true,
            _ => {}
        }
    }
    assert!(complete);
    assert_eq!(content, b"content");
}

#[test]
fn an_empty_manifest_completes() {
    let (stored, last) = receive_all("CODE", messages("CODE", &[]));
    assert!(stored.is_empty());
    assert!(matches!(last, ReceiveStep::Complete { files: 0, bytes: 0 }));
}

#[test]
fn received_files_stay_inside() {
    let msgs = messages("CODE", &[("../../etc/passwd", b"x".to_vec()), ("..", b"y".to_vec())]);
    let (stored, _) = receive_all("CODE", msgs);
    assert_eq!(stored[0].0, "etc/passwd");
    assert_eq!(stored[1].0, "received.bin");
}

#[test]
fn a_changed_file_is_noticed_and_reported() {
    let (mut sender, manifest) = Sender::start("CODE", vec![entry("f", b"announced")]);
    let msgs = vec![manifest, sender.push(b"changed"), sender.push(&[])];
    let (_, last) = receive_all("CODE", msgs);
    let e = match last {
        ReceiveStep::Failed(e) => e,
        other => panic!("{other:?}"),
    };
    let text = format!(
        "integrity check failed for f: expected {}, got {}",
        sha(b"announced"),
        sha(b"changed")
    );
    match e.report() {
        Some(Msg::Error { msg }) => assert_eq!(msg, text),
        other => panic!("{other:?}"),
    }
    assert!(matches!(
        e,
        ReceiveError::Integrity { relpath, expected, actual }
            if relpath == "f" && expected == sha(b"announced") && actual == sha(b"changed")
    ));
}

#[test]
fn another_code_does_not_open_the_chunks() {
    let (_, last) = receive_all("OTHER", messages("CODE", &[("f", b"x".to_vec())]));
    match last {
        ReceiveStep::Failed(ReceiveError::Unreadable(e)) => {
            assert_eq!(e, CryptoError::DecryptionFailed);
            assert!(ReceiveError::Unreadable(e).report().is_none());
        }
        other => panic!("{other:?}"),
    }
}

#[test]
fn chunks_count_and_progress() {
    let mut receiver = Receiver::new("CODE", Platform::Unix);
    assert!(receiver.current().is_none());
    let entries = vec![entry("a", b"abc"), entry("b", b"d")];
    receiver.step(Ok(Some(Msg::Manifest { entries: entries.clone() })));
    assert_eq!(receiver.current(), Some(entries[0].clone()));
    let key = derive_key(b"CODE");
    receiver.step(Ok(Some(Msg::DataChunk(encrypt(&key, b"ab")))));
    receiver.step(Ok(Some(Msg::DataChunk(encrypt(&key, b"c")))));
    assert_eq!((receiver.received(), receiver.total()), (3, 3));
    receiver.step(Ok(Some(Msg::FileEnd)));
    assert_eq!((receiver.received(), receiver.total()), (0, 3));
    assert_eq!(receiver.current(), Some(entries[1].clone()));
    receiver.step(Ok(Some(Msg::DataChunk(encrypt(&key, b"d")))));
    receiver.step(Ok(Some(Msg::FileEnd)));
    assert!(receiver.current().is_none());
    assert_eq!(receiver.total(), 4);
}

#[test]
fn what_may_come_in_place_of_the_manifest() {
    let step = |m| Receiver::new("C", Platform::Unix).step(m);
    assert!(matches!(
        step(Ok(Some(Msg::Error { msg: "no".into() }))),
        ReceiveStep::Failed(ReceiveError::SenderError { msg }) if msg == "no"
    ));
    assert!(matches!(
        step(Ok(Some(Msg::Done))),
        ReceiveStep::Failed(ReceiveError::ExpectedManifest(Some(Msg::Done)))
    ));
    assert!(matches!(
        step(Ok(None)),
        ReceiveStep::Failed(ReceiveError::ExpectedManifest(None))
    ));
    assert!(matches!(
        step(Err(RecvError::Transport)),
        ReceiveStep::Failed(ReceiveError::Receive(RecvError::Transport))
    ));
}

#[test]
fn what_may_come_inside_a_file() {
    let step = |m| {
        let mut receiver = Receiver::new("C", Platform::Unix);
        receiver.step(Ok(Some(Msg::Manifest { entries: vec![entry("f", b"x")] })));
        receiver.step(m)
    };
    assert!(matches!(
        step(Ok(Some(Msg::Error { msg: "no".into() }))),
        ReceiveStep::Failed(ReceiveError::SenderError { msg }) if msg == "no"
    ));
    assert!(matches!(
        step(Ok(Some(Msg::Done))),
        ReceiveStep::Failed(ReceiveError::Unexpected(Some(Msg::Done)))
    ));
    assert!(matches!(step(Ok(None)), ReceiveStep::Failed(ReceiveError::Unexpected(None))));
    assert!(matches!(
        step(Ok(Some(Msg::DataChunk(vec![1])))),
        ReceiveStep::Failed(ReceiveError::Unreadable(CryptoError::TooShort))
    ));
}

#[test]
fn what_may_come_in_place_of_done() {
    let step = |m| {
        let mut receiver = Receiver::new("C", Platform::Unix);
        receiver.step(Ok(Some(Msg::Manifest { entries: vec![] })));
        receiver.step(m)
    };
    assert!(matches!(
        step(Ok(Some(Msg::Done))),
        ReceiveStep::Complete { files: 0, bytes: 0 }
    ));
    assert!(matches!(
        step(Ok(Some(Msg::Error { msg: "no".into() }))),
        ReceiveStep::Failed(ReceiveError::ExpectedDone(Some(Msg::Error { msg }))) if msg == "no"
    ));
    assert!(matches!(step(Ok(None)), ReceiveStep::Failed(ReceiveError::ExpectedDone(None))));
}

#[test]
fn chunks_are_sixty_four_kilobytes() {
    assert_eq!(CHUNK, 64 * 1024);
}

#[test]
fn digests_and_chunks_by_their_results() {
    let e = FileEntry { relpath: "f".into(), size: 1, sha256: "aa".into() };
    assert!(check_digest(&e, "aa".into()).is_ok());
    assert!(matches!(
        check_digest(&e, "ab".into()),
        Err(ReceiveError::Integrity { relpath, expected, actual })
            if relpath == "f" && expected == "aa" && actual == "ab"
    ));
    assert!(matches!(chunk_result(Ok(vec![1, 2])), Ok(d) if d == vec![1, 2]));
    assert!(matches!(
        chunk_result(Err(CryptoError::TooShort)),
        Err(ReceiveError::Unreadable(CryptoError::TooShort))
    ));
}

#[test]
fn received_files_stay_inside_on_windows() {
    let entries = vec![entry("..\\..\\x", b"1"), entry("C:\\Windows\\y", b"2")];
    let mut receiver = Receiver::new("C", Platform::Windows);
    assert!(matches!(
        receiver.step(Ok(Some(Msg::Manifest { entries }))),
        ReceiveStep::Started { first: Some(p) } if p == "x"
    ));
    let key = derive_key(b"C");
    receiver.step(Ok(Some(Msg::DataChunk(encrypt(&key, b"1")))));
    assert!(matches!(
        receiver.step(Ok(Some(Msg::FileEnd))),
        ReceiveStep::FileDone { next: Some(p) } if p == "Windows/y"
    ));
}

#[test]
fn what_is_said_about_a_failed_transfer() {
    let text = |e: ReceiveError| e.text("None");
    assert_eq!(text(ReceiveError::Receive(RecvError::Transport)), "None");
    assert_eq!(text(ReceiveError::SenderError { msg: "no".into() }), "sender error: no");
    assert_eq!(text(ReceiveError::ExpectedManifest(None)), "expected Manifest, got None");
    assert_eq!(text(ReceiveError::Unreadable(CryptoError::TooShort)), "ciphertext too short");
    assert_eq!(text(ReceiveError::Unexpected(None)), "unexpected message: None");
    assert_eq!(text(ReceiveError::ExpectedDone(None)), "expected Done, got None");
    assert_eq!(
        text(ReceiveError::Integrity {
            relpath: "f".into(),
            expected: "1".into(),
            actual: "2".into()
        }),
        "integrity check failed for f: expected 1, got 2"
    );
}
