//! How frames travel, and how a peer chooses and recognizes a transport.
//!
//! A raw TCP stream carries frames with a 4-byte big-endian length in front. A
//! WebSocket carries one frame per message.

use crate::text::{chars_of, contains, has_prefix, occurs, occurs_at, text_of};
use vstd::prelude::*;
use vstd::string::StringExecFns;
use vstd::utf8::encode_utf8;

verus! {

/// Seconds between two keep-alive pings on a WebSocket.
pub const KEEPALIVE_SECS: u64 = 30;

/// How many bytes of a new connection are looked at to tell its transport.
pub const SNIFF_LEN: usize = 4096;

/// The low 32 bits of `len`, the high byte first.
pub open spec fn header_bytes(len: nat) -> Seq<u8> {
    seq![
        (len / 0x1000000 % 256) as u8,
        (len / 0x10000 % 256) as u8,
        (len / 0x100 % 256) as u8,
        (len % 256) as u8,
    ]
}

/// The number that four bytes hold, the high byte first.
pub open spec fn header_value(header: Seq<u8>) -> nat {
    (header[0] as nat) * 0x1000000 + (header[1] as nat) * 0x10000 + (header[2] as nat) * 0x100 + (
    header[3] as nat)
}

/// A frame on a raw TCP stream.
pub open spec fn tcp_frame(data: Seq<u8>) -> Seq<u8> {
    header_bytes(data.len()) + data
}

/// What the rest of a closed TCP stream holds next.
pub enum Reading {
    /// The peer closed before a whole length was there.
    Closed,
    /// The peer closed inside a frame.
    Broken,
    /// A frame and the bytes after it.
    Frame { data: Seq<u8>, rest: Seq<u8> },
}

/// Read the next frame off the bytes that a stream still delivers.
pub open spec fn reading(stream: Seq<u8>) -> Reading {
    if stream.len() < 4 {
        Reading::Closed
    } else {
        let len = header_value(stream.take(4)) as int;
        if stream.len() < 4 + len {
            Reading::Broken
        } else {
            Reading::Frame { data: stream.subrange(4, 4 + len), rest: stream.skip(4 + len) }
        }
    }
}

/// Frames one after the other on a TCP stream.
pub open spec fn tcp_stream(frames: Seq<Seq<u8>>) -> Seq<u8>
    decreases frames.len(),
{
    if frames.len() == 0 {
        Seq::<u8>::empty()
    } else {
        tcp_frame(frames.first()) + tcp_stream(frames.drop_first())
    }
}

/// The bytes that carry `data` as one frame over raw TCP.
pub fn encode_frame(data: &[u8]) -> (bytes: Vec<u8>)
    ensures
        bytes@ == tcp_frame(data@),
{
    let len: u64 = data.len() as u64;
    let mut bytes: Vec<u8> = Vec::new();
    bytes.push((len / 0x1000000 % 256) as u8);
    bytes.push((len / 0x10000 % 256) as u8);
    bytes.push((len / 0x100 % 256) as u8);
    bytes.push((len % 256) as u8);
    bytes.extend_from_slice(data);
    proof {
        assert(bytes@ =~= tcp_frame(data@));
    }
    bytes
}

/// What the bytes that have come off a TCP stream amount to.
#[derive(Debug)]
pub enum TcpRead {
    /// The next frame.
    Frame(Vec<u8>),
    /// More bytes have to come first.
    More,
    /// The peer closed between two frames, or inside a length.
    Closed,
    /// The peer closed inside a frame.
    Broken,
}

/// The number that the first four bytes hold, the high byte first.
fn frame_len(bytes: &[u8]) -> (len: u32)
    requires
        bytes@.len() >= 4,
    ensures
        len == header_value(bytes@.take(4)),
{
    let n: u64 = (bytes[0] as u64) * 0x1000000 + (bytes[1] as u64) * 0x10000 + (bytes[2] as u64)
        * 0x100 + (bytes[3] as u64);
    n as u32
}

/// Take the next frame off the bytes that have come and were not used yet.
/// `ended` says that no more will come. Bytes that make no frame yet stay.
pub fn read_frame(buffer: &mut Vec<u8>, ended: bool) -> (read: TcpRead)
    ensures
        match reading(old(buffer)@) {
            Reading::Frame { data, rest } => {
                &&& read matches TcpRead::Frame(frame) && frame@ == data
                &&& final(buffer)@ == rest
            },
            Reading::Closed => {
                &&& final(buffer)@ == old(buffer)@
                &&& if ended {
                    read is Closed
                } else {
                    read is More
                }
            },
            Reading::Broken => {
                &&& final(buffer)@ == old(buffer)@
                &&& if ended {
                    read is Broken
                } else {
                    read is More
                }
            },
        },
{
    if buffer.len() < 4 {
        return if ended {
            TcpRead::Closed
        } else {
            TcpRead::More
        };
    }
    let len: u32 = frame_len(buffer.as_slice());
    if (buffer.len() as u64) < 4 + len as u64 {
        return if ended {
            TcpRead::Broken
        } else {
            TcpRead::More
        };
    }
    let ghost stream = buffer@;
    let mut rest = buffer.split_off(4 + len as usize);
    let frame = buffer.split_off(4);
    std::mem::swap(buffer, &mut rest);
    proof {
        assert(frame@ =~= stream.subrange(4, 4 + len as int));
        assert(buffer@ =~= stream.skip(4 + len as int));
    }
    TcpRead::Frame(frame)
}

/// What came off a WebSocket.
#[derive(Debug)]
pub enum WsEvent {
    /// The stream ended.
    End,
    Failed,
    Binary(Vec<u8>),
    Text(String),
    Ping(Vec<u8>),
    Pong,
    Close,
    /// A raw fragment.
    Other,
}

/// What to do about it.
#[derive(Debug)]
pub enum WsStep {
    /// Hand this frame on.
    Frame(Vec<u8>),
    /// Answer with a pong of this payload, and read on.
    Reply(Vec<u8>),
    /// Read on.
    Skip,
    /// The peer closed.
    Closed,
    Fail,
}

/// Decide what a WebSocket event means. Binary and text messages carry frames,
/// and pings are answered with their own payload, so that a connection with an
/// idle timeout stays open.
pub fn ws_step(event: WsEvent) -> (step: WsStep)
    ensures
        match event {
            WsEvent::End => step is Closed,
            WsEvent::Failed => step is Fail,
            WsEvent::Binary(data) => step matches WsStep::Frame(f) && f@ == data@,
            WsEvent::Text(text) => step matches WsStep::Frame(f) && f@ == encode_utf8(text@),
            WsEvent::Ping(payload) => step matches WsStep::Reply(p) && p@ == payload@,
            WsEvent::Pong => step is Skip,
            WsEvent::Close => step is Closed,
            WsEvent::Other => step is Skip,
        },
{
    match event {
        WsEvent::End => WsStep::Closed,
        WsEvent::Failed => WsStep::Fail,
        WsEvent::Binary(data) => WsStep::Frame(data),
        WsEvent::Text(text) => {
            let mut data: Vec<u8> = Vec::new();
            data.extend_from_slice(text.as_str().as_bytes());
            proof {
                assert(data@ =~= encode_utf8(text@));
            }
            WsStep::Frame(data)
        },
        WsEvent::Ping(payload) => WsStep::Reply(payload),
        WsEvent::Pong => WsStep::Skip,
        WsEvent::Close => WsStep::Closed,
        WsEvent::Other => WsStep::Skip,
    }
}

/// Bytes as characters of the same number.
pub open spec fn latin(bytes: Seq<u8>) -> Seq<char> {
    bytes.map_values(|b: u8| b as char)
}

/// A byte as a character, an ASCII capital as its small letter.
pub open spec fn small(b: u8) -> char {
    if 65 <= b <= 90 {
        (b + 32) as char
    } else {
        b as char
    }
}

/// Whether the first bytes of a connection ask for a WebSocket: they start with
/// `GET `, and somewhere `upgrade: websocket` stands in capital or small
/// letters.
pub open spec fn asks_for_websocket(head: Seq<u8>) -> bool {
    &&& "GET "@.is_prefix_of(latin(head))
    &&& occurs(head.map_values(|b: u8| small(b)), "upgrade: websocket"@)
}

/// Tell from the first bytes of a connection whether the peer speaks WebSocket
/// or raw frames.
pub fn is_websocket(head: &[u8]) -> (b: bool)
    ensures
        b == asks_for_websocket(head@),
{
    let mut plain: Vec<char> = Vec::new();
    let mut lower: Vec<char> = Vec::new();
    let mut i: usize = 0;
    while i < head.len()
        invariant
            i <= head@.len(),
            plain@ == latin(head@).take(i as int),
            lower@ == head@.map_values(|b: u8| small(b)).take(i as int),
        decreases head@.len() - i,
    {
        let b: u8 = head[i];
        plain.push(b as char);
        if 65 <= b && b <= 90 {
            lower.push((b + 32) as char);
        } else {
            lower.push(b as char);
        }
        i = i + 1;
        proof {
            assert(plain@ =~= latin(head@).take(i as int));
            assert(lower@ =~= head@.map_values(|b: u8| small(b)).take(i as int));
        }
    }
    proof {
        assert(plain@ =~= latin(head@));
        assert(lower@ =~= head@.map_values(|b: u8| small(b)));
    }
    has_prefix(plain.as_slice(), "GET ") && contains(lower.as_slice(), "upgrade: websocket")
}

/// Where a relay is, and over which transport.
#[derive(Debug, PartialEq, Eq)]
pub enum RelayTarget {
    /// Raw TCP to `host:port`.
    Tcp { addr: String },
    /// WebSocket to this URL.
    WebSocket { url: String },
}

/// What a [`RelayTarget`] says.
pub enum TargetView {
    Tcp { addr: Seq<char> },
    WebSocket { url: Seq<char> },
}

impl View for RelayTarget {
    type V = TargetView;

    open spec fn view(&self) -> TargetView {
        match self {
            RelayTarget::Tcp { addr } => TargetView::Tcp { addr: addr@ },
            RelayTarget::WebSocket { url } => TargetView::WebSocket { url: url@ },
        }
    }
}

/// The URL has a scheme other than `tcp`, `ws` and `wss`.
#[derive(Debug, PartialEq, Eq)]
pub struct UnknownScheme {
    pub url: String,
}

impl UnknownScheme {
    /// What is said about it.
    pub fn text(&self) -> (text: String)
        ensures
            text@ == "relay URL must start with tcp://, ws:// or wss:// (got: "@ + self.url@ + ")"@,
    {
        let mut text = "relay URL must start with tcp://, ws:// or wss:// (got: ".to_owned();
        text.append(self.url.as_str());
        text.append(")");
        text
    }
}

/// The relay that a URL means, if it means one. `ws` and `wss` URLs are used as
/// they are; without a scheme the text is an address for raw TCP.
pub open spec fn target_of(url: Seq<char>) -> Option<TargetView> {
    if "ws://"@.is_prefix_of(url) || "wss://"@.is_prefix_of(url) {
        Some(TargetView::WebSocket { url })
    } else if "tcp://"@.is_prefix_of(url) {
        Some(TargetView::Tcp { addr: url.skip("tcp://"@.len() as int) })
    } else if occurs(url, "://"@) {
        None
    } else {
        Some(TargetView::Tcp { addr: url })
    }
}

/// Read a relay URL.
pub fn parse_relay_url(url: &str) -> (result: Result<RelayTarget, UnknownScheme>)
    ensures
        match result {
            Ok(target) => target_of(url@) == Some(target@),
            Err(e) => target_of(url@) is None && e.url@ == url@,
        },
{
    let chars = chars_of(url);
    let slice = chars.as_slice();
    if has_prefix(slice, "wss://") || has_prefix(slice, "ws://") {
        Ok(RelayTarget::WebSocket { url: url.to_owned() })
    } else if has_prefix(slice, "tcp://") {
        proof {
            reveal_strlit("tcp://");
        }
        let (_, addr) = slice.split_at(6);
        proof {
            assert(addr@ =~= url@.skip("tcp://"@.len() as int));
        }
        Ok(RelayTarget::Tcp { addr: text_of(addr) })
    } else if contains(slice, "://") {
        Err(UnknownScheme { url: url.to_owned() })
    } else {
        Ok(RelayTarget::Tcp { addr: url.to_owned() })
    }
}

/// A frame shorter than 4 GiB reads back off a TCP stream as it was written,
/// and leaves the stream at what follows it.
pub proof fn law_tcp_frame_reads_back(data: Seq<u8>, rest: Seq<u8>)
    requires
        data.len() < 0x1_0000_0000,
    ensures
        reading(tcp_frame(data) + rest) == (Reading::Frame { data, rest }),
{
    let n = data.len();
    let h = header_bytes(n);
    let stream = tcp_frame(data) + rest;
    assert(stream.take(4) =~= h);
    assert(header_value(h) == n) by {
        lemma_four_bytes(n);
        assert(h[0] as nat == n / 0x1000000 % 256 && h[1] as nat == n / 0x10000 % 256 && h[2] as nat
            == n / 0x100 % 256 && h[3] as nat == n % 256);
    }
    assert(stream.subrange(4, 4 + n as int) =~= data);
    assert(stream.skip(4 + n as int) =~= rest);
}

/// All frames of a TCP stream read back in order: after the first comes the
/// stream of the others.
pub proof fn law_tcp_stream_reads_back(frames: Seq<Seq<u8>>)
    requires
        forall|i: int| 0 <= i < frames.len() ==> (#[trigger] frames[i]).len() < 0x1_0000_0000,
    ensures
        frames.len() == 0 ==> reading(tcp_stream(frames)) == Reading::Closed,
        frames.len() > 0 ==> reading(tcp_stream(frames)) == (Reading::Frame {
            data: frames.first(),
            rest: tcp_stream(frames.drop_first()),
        }),
{
    if frames.len() > 0 {
        assert(frames[0].len() < 0x1_0000_0000);
        law_tcp_frame_reads_back(frames.first(), tcp_stream(frames.drop_first()));
    }
}

/// An address without a scheme means the same as with `tcp://` in front of it.
pub proof fn law_bare_address_is_tcp(addr: Seq<char>)
    requires
        !occurs(addr, "://"@),
    ensures
        target_of(addr) == Some(TargetView::Tcp { addr }),
        target_of("tcp://"@ + addr) == Some(TargetView::Tcp { addr }),
{
    reveal_strlit("tcp://");
    reveal_strlit("ws://");
    reveal_strlit("wss://");
    reveal_strlit("://");
    let url = "tcp://"@ + addr;
    assert(url.take(6) =~= "tcp://"@);
    assert(url.skip(6) =~= addr);
    assert(url[0] == 't');
    assert("ws://"@.subrange(2, 5) =~= "://"@);
    assert("wss://"@.subrange(3, 6) =~= "://"@);
    assert("tcp://"@.subrange(3, 6) =~= "://"@);
    if "ws://"@.is_prefix_of(addr) {
        lemma_occurs_in_prefix(addr, "ws://"@, "://"@, 2);
    }
    if "wss://"@.is_prefix_of(addr) {
        lemma_occurs_in_prefix(addr, "wss://"@, "://"@, 3);
    }
    if "tcp://"@.is_prefix_of(addr) {
        lemma_occurs_in_prefix(addr, "tcp://"@, "://"@, 3);
    }
    assert(!"ws://"@.is_prefix_of(url)) by {
        assert(url.subrange(0, 5)[0] != "ws://"@[0]);
    }
    assert(!"wss://"@.is_prefix_of(url)) by {
        assert(url.subrange(0, 6)[0] != "wss://"@[0]);
    }
}

/// What stands in a prefix stands in the whole.
proof fn lemma_occurs_in_prefix(text: Seq<char>, prefix: Seq<char>, pattern: Seq<char>, at: int)
    requires
        prefix.is_prefix_of(text),
        occurs_at(prefix, pattern, at),
    ensures
        occurs(text, pattern),
{
    assert(text.subrange(at, at + pattern.len()) =~= prefix.subrange(at, at + pattern.len()));
    assert(occurs_at(text, pattern, at));
}

/// A number's four low bytes make up its low 32 bits.
proof fn lemma_four_bytes(n: nat)
    ensures
        (n / 0x1000000 % 256) * 0x1000000 + (n / 0x10000 % 256) * 0x10000 + (n / 0x100 % 256)
            * 0x100 + n % 256 == n % 0x1_0000_0000,
{
    let one = n / 0x100;
    let two = n / 0x10000;
    let three = n / 0x1000000;
    let four = n / 0x1_0000_0000;
    assert(n == 256 * one + n % 256);
    assert(one == 256 * two + one % 256);
    assert(two == 256 * three + two % 256);
    assert(three == 256 * four + three % 256);
    assert(n == 0x1_0000_0000 * four + n % 0x1_0000_0000);
}

/// A frame on a TCP stream is the length of the data as four bytes, the high one
/// first, and the whole data. A length of 4 GiB or more keeps its low 32 bits.
pub proof fn law_frame_announces_its_length(data: Seq<u8>)
    ensures
        tcp_frame(data).len() == 4 + data.len(),
        tcp_frame(data).skip(4) == data,
        tcp_frame(data)[0] * 0x1000000 + tcp_frame(data)[1] * 0x10000 + tcp_frame(data)[2] * 0x100
            + tcp_frame(data)[3] == data.len() % 0x1_0000_0000,
{
    let n = data.len();
    assert(tcp_frame(data).skip(4) =~= data);
    assert(tcp_frame(data)[0] == n / 0x1000000 % 256);
    assert(tcp_frame(data)[1] == n / 0x10000 % 256);
    assert(tcp_frame(data)[2] == n / 0x100 % 256);
    assert(tcp_frame(data)[3] == n % 256);
    lemma_four_bytes(n);
}

/// A frame is handed out exactly when all the bytes are there that its first
/// four announce, and it is exactly those; the bytes after it are the rest. With
/// fewer bytes, however many, there is none.
pub proof fn law_frame_has_the_announced_length(stream: Seq<u8>)
    ensures
        stream.len() < 4 <==> reading(stream) == Reading::Closed,
        stream.len() >= 4 ==> {
            let n = stream[0] * 0x1000000 + stream[1] * 0x10000 + stream[2] * 0x100 + stream[3];
            &&& stream.len() < 4 + n <==> reading(stream) == Reading::Broken
            &&& stream.len() >= 4 + n <==> reading(stream) is Frame
            &&& reading(stream) matches Reading::Frame { data, rest } ==> data.len() == n && stream
                == stream.take(4) + data + rest
        },
{
    if stream.len() >= 4 {
        let n = header_value(stream.take(4)) as int;
        assert(stream.take(4)[0] == stream[0] && stream.take(4)[1] == stream[1] && stream.take(4)[2]
            == stream[2] && stream.take(4)[3] == stream[3]);
        assert(n == stream[0] * 0x1000000 + stream[1] * 0x10000 + stream[2] * 0x100 + stream[3]);
        if stream.len() >= 4 + n {
            assert(stream =~= stream.take(4) + stream.subrange(4, 4 + n) + stream.skip(4 + n));
        }
    }
}

/// While a frame below 4 GiB is still arriving, whatever pieces it comes in, no
/// frame is handed out.
pub proof fn law_part_of_a_frame_is_no_frame(data: Seq<u8>, come: int)
    requires
        data.len() < 0x1_0000_0000,
        0 <= come < tcp_frame(data).len(),
    ensures
        !(reading(tcp_frame(data).take(come)) is Frame),
{
    let part = tcp_frame(data).take(come);
    law_frame_announces_its_length(data);
    law_frame_has_the_announced_length(part);
    if come >= 4 {
        assert(part[0] == tcp_frame(data)[0] && part[1] == tcp_frame(data)[1] && part[2]
            == tcp_frame(data)[2] && part[3] == tcp_frame(data)[3]);
    }
}

/// A connection asks for a WebSocket exactly where its first bytes are `GET` and
/// a blank, and at some place, wherever it is, stand the letters of `upgrade:
/// websocket`, each capital or small.
pub proof fn law_upgrade_is_found_anywhere(head: Seq<u8>)
    ensures
        asks_for_websocket(head) <==> {
            &&& head.len() >= 4 && head[0] == 71 && head[1] == 69 && head[2] == 84 && head[3] == 32
            &&& exists|at: int|
                0 <= at && at + 18 <= head.len() && #[trigger] spells_upgrade(head, at)
        },
{
    reveal_strlit("GET ");
    reveal_strlit("upgrade: websocket");
    let get = "GET "@;
    let phrase = "upgrade: websocket"@;
    let plain = latin(head);
    let lower = head.map_values(|b: u8| small(b));
    assert(get.is_prefix_of(plain) <==> head.len() >= 4 && head[0] == 71 && head[1] == 69 && head[2]
        == 84 && head[3] == 32) by {
        if get.is_prefix_of(plain) {
            assert(plain.subrange(0, 4) == get);
            assert(plain[0] == plain.subrange(0, 4)[0] && plain[1] == plain.subrange(0, 4)[1]
                && plain[2] == plain.subrange(0, 4)[2] && plain[3] == plain.subrange(0, 4)[3]);
        }
        if head.len() >= 4 && head[0] == 71 && head[1] == 69 && head[2] == 84 && head[3] == 32 {
            assert(plain.subrange(0, 4) =~= get);
        }
    }
    assert forall|at: int| 0 <= at && at + 18 <= head.len() implies (spells_upgrade(head, at)
        <==> #[trigger] occurs_at(lower, phrase, at)) by {
        let cut = lower.subrange(at, at + 18);
        if spells_upgrade(head, at) {
            assert forall|k: int| 0 <= k < 18 implies cut[k] == phrase[k] by {
                assert(is_letter(head[at + k], phrase[k]));
            }
            assert(cut =~= phrase);
        }
        if occurs_at(lower, phrase, at) {
            assert forall|k: int| 0 <= k < 18 implies is_letter(
                #[trigger] head[at + k],
                phrase[k],
            ) by {
                assert(cut[k] == phrase[k]);
            }
        }
    }
    if occurs(lower, phrase) {
        let at = choose|at: int| occurs_at(lower, phrase, at);
        assert(occurs_at(lower, phrase, at));
        assert(spells_upgrade(head, at));
    }
    if exists|at: int| 0 <= at && at + 18 <= head.len() && #[trigger] spells_upgrade(head, at) {
        let at = choose|at: int|
            0 <= at && at + 18 <= head.len() && #[trigger] spells_upgrade(head, at);
        assert(occurs_at(lower, phrase, at));
    }
}

/// Whether a byte is this small letter (or other character), or its capital.
pub open spec fn is_letter(b: u8, c: char) -> bool {
    b == c as int || (65 <= b <= 90 && b + 32 == c as int)
}

/// Whether the bytes at `at` spell `upgrade: websocket`, in whatever case.
pub open spec fn spells_upgrade(head: Seq<u8>, at: int) -> bool {
    forall|k: int| 0 <= k < 18 ==> is_letter(#[trigger] head[at + k], "upgrade: websocket"@[k])
}

/// A URL with a known scheme means the whole of what follows `tcp://`, or the
/// whole URL for `ws://` and `wss://`; with another scheme it means nothing.
pub proof fn law_known_schemes(rest: Seq<char>)
    ensures
        target_of("tcp://"@ + rest) == Some(TargetView::Tcp { addr: rest }),
        target_of("ws://"@ + rest) == Some(TargetView::WebSocket { url: "ws://"@ + rest }),
        target_of("wss://"@ + rest) == Some(TargetView::WebSocket { url: "wss://"@ + rest }),
{
    reveal_strlit("tcp://");
    reveal_strlit("ws://");
    reveal_strlit("wss://");
    let tcp = "tcp://"@ + rest;
    let ws = "ws://"@ + rest;
    let wss = "wss://"@ + rest;
    assert(tcp.subrange(0, 6) =~= "tcp://"@);
    assert(tcp.skip(6) =~= rest);
    assert(!"ws://"@.is_prefix_of(tcp)) by {
        assert(tcp.subrange(0, 5)[0] != "ws://"@[0]);
    }
    assert(!"wss://"@.is_prefix_of(tcp)) by {
        assert(tcp.subrange(0, 6)[0] != "wss://"@[0]);
    }
    assert(ws.subrange(0, 5) =~= "ws://"@);
    assert(wss.subrange(0, 6) =~= "wss://"@);
}

/// A URL is refused exactly where `://` stands in it somewhere and it starts with
/// none of the known schemes.
pub proof fn law_unknown_schemes(url: Seq<char>)
    ensures
        target_of(url) is None <==> (exists|at: int|
            0 <= at && at + 3 <= url.len() && #[trigger] url[at] == ':' && url[at + 1] == '/'
                && url[at + 2] == '/') && !"tcp://"@.is_prefix_of(url) && !"ws://"@.is_prefix_of(
            url,
        ) && !"wss://"@.is_prefix_of(url),
        target_of(url) matches Some(TargetView::Tcp { addr }) ==> addr == url || url == "tcp://"@
            + addr,
        target_of(url) matches Some(TargetView::WebSocket { url: u }) ==> u == url,
{
    reveal_strlit("://");
    reveal_strlit("tcp://");
    if occurs(url, "://"@) {
        let at = choose|at: int| occurs_at(url, "://"@, at);
        assert(occurs_at(url, "://"@, at));
        let cut = url.subrange(at, at + 3);
        assert(cut[0] == url[at] && cut[1] == url[at + 1] && cut[2] == url[at + 2]);
        assert(url[at] == ':' && url[at + 1] == '/' && url[at + 2] == '/');
    }
    if exists|at: int|
        0 <= at && at + 3 <= url.len() && #[trigger] url[at] == ':' && url[at + 1] == '/' && url[at
            + 2] == '/' {
        let at = choose|at: int|
            0 <= at && at + 3 <= url.len() && #[trigger] url[at] == ':' && url[at + 1] == '/'
                && url[at + 2] == '/';
        assert(url.subrange(at, at + 3) =~= "://"@);
        assert(occurs_at(url, "://"@, at));
    }
    if "tcp://"@.is_prefix_of(url) {
        assert(url =~= "tcp://"@ + url.skip(6)) by {
            assert(url.subrange(0, 6) == "tcp://"@);
            assert(url =~= url.subrange(0, 6) + url.skip(6));
        }
    }
}

/// What a target says is all that it holds.
pub proof fn law_target_says_all(addr: String, url: String)
    ensures
        (RelayTarget::Tcp { addr })@ == (TargetView::Tcp { addr: addr@ }),
        (RelayTarget::WebSocket { url })@ == (TargetView::WebSocket { url: url@ }),
{
}

} // verus!
