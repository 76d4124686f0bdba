use relaydrop::transport::{
    encode_frame, is_websocket, parse_relay_url, read_frame, ws_step, RelayTarget, TcpRead, WsEvent,
    WsStep, KEEPALIVE_SECS, SNIFF_LEN,
};

#[test]
fn frames_have_a_big_endian_length() {
    assert_eq!(encode_frame(b"abc"), vec![0, 0, 0, 3, 97, 98, 99]);
    assert_eq!(encode_frame(b""), vec![0, 0, 0, 0]);
    let long = encode_frame(&vec![1u8; 66_051]);
    assert_eq!(&long[..4], &[0, 1, 2, 3]);
    assert_eq!(long.len(), 66_055);
}

#[test]
fn a_frame_waits_for_its_last_byte() {
    let bytes = encode_frame(&[9u8; 258]);
    let mut buffer: Vec<u8> = Vec::new();
    for b in &bytes[..261] {
        buffer.push(*b);
        assert!(matches!(read_frame(&mut buffer, false), TcpRead::More));
    }
    buffer.push(bytes[261]);
    buffer.push(77);
    assert!(matches!(read_frame(&mut buffer, false), TcpRead::Frame(f) if f == vec![9u8; 258]));
    assert_eq!(buffer, vec![77]);
}

#[test]
fn ends_of_a_stream() {
    assert!(matches!(read_frame(&mut vec![], true), TcpRead::Closed));
    assert!(matches!(read_frame(&mut vec![0, 0, 0], true), TcpRead::Closed));
    assert!(matches!(read_frame(&mut vec![0, 0, 0, 1], true), TcpRead::Broken));
    assert!(matches!(read_frame(&mut vec![255, 255, 255, 255, 1], true), TcpRead::Broken));
    assert!(matches!(read_frame(&mut vec![255, 255, 255, 255, 1], false), TcpRead::More));
    assert!(matches!(read_frame(&mut vec![0, 0, 0, 1, 8], true), TcpRead::Frame(f) if f == vec![8]));
}

#[test]
fn a_stream_of_frames_reads_back() {
    let frames = [&b"one"[..], b"", b"three"];
    let mut buffer: Vec<u8> = Vec::new();
    for f in frames {
        buffer.extend(encode_frame(f));
    }
    for f in frames {
        match read_frame(&mut buffer, true) {
            TcpRead::Frame(data) => assert_eq!(data, f),
            other => panic!("{other:?}"),
        }
    }
    assert!(matches!(read_frame(&mut buffer, true), TcpRead::Closed));
}

#[test]
fn websocket_events() {
    assert!(matches!(ws_step(WsEvent::End), WsStep::Closed));
    assert!(matches!(ws_step(WsEvent::Failed), WsStep::Fail));
    assert!(matches!(ws_step(WsEvent::Binary(vec![1, 2])), WsStep::Frame(f) if f == vec![1, 2]));
    assert!(matches!(ws_step(WsEvent::Text("é".into())), WsStep::Frame(f) if f == vec![195, 169]));
    assert!(matches!(ws_step(WsEvent::Ping(vec![5])), WsStep::Reply(p) if p == vec![5]));
    assert!(matches!(ws_step(WsEvent::Pong), WsStep::Skip));
    assert!(matches!(ws_step(WsEvent::Close), WsStep::Closed));
    assert!(matches!(ws_step(WsEvent::Other), WsStep::Skip));
}

#[test]
fn upgrades_are_recognized() {
    assert!(is_websocket(b"GET /relay HTTP/1.1\r\nHost: x\r\nUpgrade: websocket\r\n\r\n"));
    assert!(is_websocket(b"GET / HTTP/1.1\r\nUPGRADE: WebSocket\r\n"));
    assert!(!is_websocket(b"GET / HTTP/1.1\r\nHost: x\r\n\r\n"));
    assert!(!is_websocket(b"get / HTTP/1.1\r\nUpgrade: websocket\r\n"));
    assert!(!is_websocket(b"POST / HTTP/1.1\r\nUpgrade: websocket\r\n"));
    assert!(!is_websocket(&[0, 0, 0, 40, 1, 2]));
    assert!(!is_websocket(b""));
}

#[test]
fn undecodable_bytes_do_not_hide_an_upgrade() {
    assert!(is_websocket(b"GET /\xff HTTP/1.1\r\nUpgrade: websocket\r\n"));
    assert!(!is_websocket(b"GET / HTTP/1.1\r\nUpgrade: web\xffsocket\r\n"));
}

#[test]
fn relay_urls() {
    assert_eq!(
        parse_relay_url("tcp://127.0.0.1:9090"),
        Ok(RelayTarget::Tcp { addr: "127.0.0.1:9090".into() })
    );
    assert_eq!(
        parse_relay_url("ws://h:1/relay"),
        Ok(RelayTarget::WebSocket { url: "ws://h:1/relay".into() })
    );
    assert_eq!(
        parse_relay_url("wss://relay.example.com"),
        Ok(RelayTarget::WebSocket { url: "wss://relay.example.com".into() })
    );
}

#[test]
fn an_address_without_scheme_is_tcp() {
    assert_eq!(
        parse_relay_url("127.0.0.1:9009"),
        Ok(RelayTarget::Tcp { addr: "127.0.0.1:9009".into() })
    );
    assert_eq!(parse_relay_url("127.0.0.1:9009"), parse_relay_url("tcp://127.0.0.1:9009"));
}

#[test]
fn other_schemes_are_refused() {
    let e = parse_relay_url("http://x").unwrap_err();
    assert_eq!(e.url, "http://x");
    assert_eq!(e.text(), "relay URL must start with tcp://, ws:// or wss:// (got: http://x)");
    assert!(parse_relay_url("TCP://x").is_err());
}

#[test]
fn transport_constants() {
    assert_eq!(KEEPALIVE_SECS, 30);
    assert_eq!(SNIFF_LEN, 4096);
}
