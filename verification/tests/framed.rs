use relaydrop::crypto::{derive_key, encrypt, CryptoError};
use relaydrop::framed::{
    build_msg, decode_msg, encode_msg, field_after, frame_result, open_msg, open_next, seal_msg,
    Field, FileEntry, Msg, Payload, RecvError,
};

#[test]
fn roundtrip_manifest_postcard() {
    let entries = vec![
        FileEntry { relpath: "Cargo.lock".into(), size: 31205, sha256: "abc".into() },
        FileEntry { relpath: "a/b/x.txt".into(), size: 7, sha256: "def".into() },
    ];
    let m = Msg::Manifest { entries: entries.clone() };
    let bytes = encode_msg(&m);
    let back: Msg = decode_msg(&bytes).expect("deserialize");
    match back {
        Msg::Manifest { entries: e } => assert_eq!(e, entries),
        other => panic!("wrong variant: {other:?}"),
    }
}

fn said(msg: &Msg) -> String {
    format!("{msg:?}")
}

fn one_of_each() -> Vec<Msg> {
    vec![
        Msg::Password { enc: vec![1, 2, 3] },
        Msg::Ready,
        Msg::RoomFull,
        Msg::RoomJoin { room: "räum".into() },
        Msg::Manifest { entries: vec![] },
        Msg::DataChunk(vec![0; 300]),
        Msg::FileEnd,
        Msg::Done,
        Msg::Error { msg: "oops".into() },
    ]
}

#[test]
fn wire_format_is_fixed() {
    assert_eq!(encode_msg(&Msg::Password { enc: vec![9, 8] }), vec![0, 2, 9, 8]);
    assert_eq!(encode_msg(&Msg::Ready), vec![1]);
    assert_eq!(encode_msg(&Msg::RoomFull), vec![2]);
    assert_eq!(encode_msg(&Msg::RoomJoin { room: "ab".into() }), vec![3, 2, 97, 98]);
    let entry = FileEntry { relpath: "x".into(), size: 300, sha256: "ff".into() };
    assert_eq!(
        encode_msg(&Msg::Manifest { entries: vec![entry] }),
        vec![4, 1, 1, 120, 172, 2, 2, 102, 102]
    );
    let chunk = encode_msg(&Msg::DataChunk(vec![7; 300]));
    assert_eq!(&chunk[..3], &[5, 172, 2]);
    assert_eq!(chunk.len(), 303);
    assert_eq!(encode_msg(&Msg::FileEnd), vec![6]);
    assert_eq!(encode_msg(&Msg::Done), vec![7]);
    assert_eq!(encode_msg(&Msg::Error { msg: "é".into() }), vec![8, 2, 195, 169]);
}

#[test]
fn every_message_reads_back() {
    for msg in one_of_each() {
        let back = decode_msg(&encode_msg(&msg)).unwrap();
        assert_eq!(said(&back), said(&msg));
    }
}

#[test]
fn bytes_that_hold_no_message() {
    assert!(decode_msg(&[]).is_none());
    assert!(decode_msg(&[9]).is_none());
    assert!(decode_msg(&[0]).is_none());
    assert!(decode_msg(&[5, 3, 1]).is_none());
    assert!(decode_msg(&[3, 1, 0xff]).is_none());
    assert!(decode_msg(&[4, 1, 1, 120]).is_none());
    assert!(decode_msg(&[0x80]).is_none());
    assert!(decode_msg(&[0x87, 0x80, 0x80, 0x80, 0x10]).is_none());
    assert!(decode_msg(&[0x87, 0x80, 0x80, 0x80, 0x80, 0x00]).is_none());
    assert!(decode_msg(&[4, 2, 1, 120, 3, 0]).is_none());
    assert!(decode_msg(&[3, 3, 0xed, 0xa0, 0x80]).is_none());
}

#[test]
fn bytes_after_a_message_are_ignored() {
    assert_eq!(said(&decode_msg(&[7, 1, 2]).unwrap()), "Done");
}

#[test]
fn sealed_messages_open_under_the_same_key_only() {
    let key = derive_key(b"pw");
    for msg in one_of_each() {
        let frame = seal_msg(&key, &msg).unwrap();
        assert_eq!(said(&open_msg(&key, &frame).unwrap()), said(&msg));
        assert_eq!(
            open_msg(&derive_key(b"other"), &frame).unwrap_err(),
            RecvError::Sealed(CryptoError::DecryptionFailed)
        );
    }
}

#[test]
fn frames_that_say_nothing() {
    let key = derive_key(b"pw");
    assert_eq!(
        open_msg(&key, &[1, 2]).unwrap_err(),
        RecvError::Sealed(CryptoError::TooShort)
    );
    let junk = encrypt(&key, &[200]);
    assert_eq!(open_msg(&key, &junk).unwrap_err(), RecvError::Malformed);
}

#[test]
fn end_of_stream_is_no_message() {
    let key = derive_key(b"pw");
    assert!(open_next(&key, None).unwrap().is_none());
    let frame = seal_msg(&key, &Msg::Ready).unwrap();
    assert_eq!(said(&open_next(&key, Some(frame)).unwrap().unwrap()), "Ready");
    assert_eq!(
        open_next(&key, Some(vec![])).unwrap_err(),
        RecvError::Sealed(CryptoError::TooShort)
    );
}

#[test]
fn kinds_and_their_fields() {
    let fields: Vec<Option<Field>> = (0..10).map(field_after).collect();
    assert_eq!(
        fields,
        vec![
            Some(Field::Bytes),
            Some(Field::Nothing),
            Some(Field::Nothing),
            Some(Field::Text),
            Some(Field::Rows),
            Some(Field::Bytes),
            Some(Field::Nothing),
            Some(Field::Nothing),
            Some(Field::Text),
            None,
        ]
    );
}

#[test]
fn messages_from_their_parts() {
    assert!(matches!(
        build_msg(5, Payload::Bytes(vec![1])),
        Some(Msg::DataChunk(d)) if d == vec![1]
    ));
    assert!(matches!(
        build_msg(8, Payload::Text("e".into())),
        Some(Msg::Error { msg }) if msg == "e"
    ));
    let rows = vec![("p".to_string(), 3, "d".to_string())];
    let entry = FileEntry { relpath: "p".into(), size: 3, sha256: "d".into() };
    assert!(matches!(
        build_msg(4, Payload::Rows(rows)),
        Some(Msg::Manifest { entries }) if entries == vec![entry]
    ));
    assert!(matches!(build_msg(2, Payload::Nothing), Some(Msg::RoomFull)));
    assert!(build_msg(1, Payload::Text("x".into())).is_none());
    assert!(build_msg(0, Payload::Nothing).is_none());
}

#[test]
fn what_a_frame_comes_to() {
    assert!(matches!(frame_result(Ok(Some(Msg::Done))), Ok(Msg::Done)));
    assert_eq!(frame_result(Ok(None)).unwrap_err(), RecvError::Malformed);
    assert_eq!(
        frame_result(Err(CryptoError::TooShort)).unwrap_err(),
        RecvError::Sealed(CryptoError::TooShort)
    );
}

#[test]
fn numbers_may_be_written_longer_than_needed() {
    assert_eq!(said(&decode_msg(&[0x87, 0x80, 0x80, 0x80, 0x00]).unwrap()), "Done");
    assert!(matches!(
        decode_msg(&[5, 0x82, 0x80, 0x00, 1, 2]),
        Some(Msg::DataChunk(d)) if d == vec![1, 2]
    ));
}

#[test]
fn what_is_said_about_a_failure_to_receive() {
    assert_eq!(RecvError::Transport.text("reset"), "reset");
    assert_eq!(RecvError::Sealed(CryptoError::TooShort).text("x"), "ciphertext too short");
    assert_eq!(RecvError::Malformed.text("x"), "malformed message");
}
