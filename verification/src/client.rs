//! What a client does before and around a transfer: the code it shares with its
//! peer, the command it prints for that peer, and its handshake with the relay.

use crate::crypto::{
    derive_key, derived_key, draw, drawn, encrypt, hkdf_sha256, lemma_hex_is_ascii, opened,
    room_name, room_of, CryptoError, MAX_PLAINTEXT,
};
use crate::framed::{
    frame_says, incoming_view, seal_msg, varint, wire_bytes, Msg, MsgView, RecvError,
};
use crate::relay::room_after;
use crate::text::{chars_of, phrase};
use base64::Engine;
use vstd::prelude::*;
use vstd::string::StringExecFns;
use vstd::utf8::{encode_utf8, is_ascii_chars_encode_utf8};

verus! {

/// The letter for a value below 64, in the URL-safe alphabet.
pub open spec fn base64_letter(v: int) -> char {
    "ABCDEFGHIJKLMNOPQRSTUVWXYZabcdefghijklmnopqrstuvwxyz0123456789-_"@[v]
}

/// The number that three bytes from `at` on hold, the high byte first.
pub open spec fn three_bytes(bytes: Seq<u8>, at: int) -> int {
    bytes[at] * 0x10000 + bytes[at + 1] * 0x100 + bytes[at + 2]
}

/// Bytes whose number is a multiple of three, as letters: every three bytes
/// make four letters of six bits each, the high bits first.
pub open spec fn base64_text(bytes: Seq<u8>) -> Seq<char> {
    Seq::new(
        bytes.len() / 3 * 4,
        |i: int|
            {
                let group = three_bytes(bytes, i / 4 * 3);
                if i % 4 == 0 {
                    base64_letter(group / 0x40000)
                } else if i % 4 == 1 {
                    base64_letter(group / 0x1000 % 64)
                } else if i % 4 == 2 {
                    base64_letter(group / 0x40 % 64)
                } else {
                    base64_letter(group % 64)
                }
            },
    )
}

/// Calls `Engine::encode` of `base64`'s `URL_SAFE_NO_PAD`. The number of bytes
/// is a multiple of three, so that every letter stands for six bits of them.
#[verifier::external_body]
fn base64_encode(bytes: &[u8; 18]) -> (text: String)
    ensures
        text@ == base64_text(bytes@),
{
    base64::engine::general_purpose::URL_SAFE_NO_PAD.encode(bytes)
}

/// A URL-safe secret made of these bytes.
pub fn secret_from_bytes(bytes: &[u8; 18]) -> (secret: String)
    ensures
        secret@ == base64_text(bytes@),
        secret@.len() == 24,
{
    base64_encode(bytes)
}

/// Whether a text is a secret made of 18 bytes.
pub open spec fn is_secret(text: Seq<char>) -> bool {
    exists|bytes: Seq<u8>| bytes.len() == 18 && text == #[trigger] base64_text(bytes)
}

/// A random, URL-safe shared secret: the text of 18 bytes that this call drew.
pub fn random_secret() -> (secret: String)
    ensures
        is_secret(secret@),
        exists|bytes: [u8; 18]| #[trigger] drawn(bytes) && secret@ == base64_text(bytes@),
{
    let bytes = draw::<18>();
    let secret = secret_from_bytes(&bytes);
    proof {
        assert(drawn(bytes));
    }
    secret
}

/// The code of a transfer: the one given, or the text of 18 bytes that this call
/// drew.
pub fn choose_code(given: Option<String>) -> (code: String)
    ensures
        match given {
            Some(c) => code@ == c@,
            None => is_secret(code@) && exists|bytes: [u8; 18]| #[trigger]
                drawn(bytes) && code@ == base64_text(bytes@),
        },
{
    match given {
        Some(c) => c,
        None => random_secret(),
    }
}

/// An option with its value. A value that looks like an option itself is joined
/// with `=`, so that it is read as the value.
pub open spec fn option_text(option: Seq<char>, value: Seq<char>) -> Seq<char> {
    if value.len() > 0 && value[0] == '-' {
        option + "="@ + value
    } else {
        option + " "@ + value
    }
}

/// Append an option with its value.
fn push_option(text: &mut String, option: &str, value: &str)
    ensures
        final(text)@ == old(text)@ + option_text(option@, value@),
{
    let chars = chars_of(value);
    let ghost before = text@;
    text.append(option);
    if chars.len() > 0 && chars[0] == '-' {
        text.append("=");
    } else {
        text.append(" ");
    }
    text.append(value);
    proof {
        assert(text@ =~= before + option_text(option@, value@));
    }
}

/// The command with which the peer receives.
pub open spec fn command_text(relay_url: Seq<char>, code: Seq<char>, password: Seq<char>) -> Seq<
    char,
> {
    "relaydrop receive "@ + option_text("--relay"@, relay_url) + " "@ + option_text("--code"@, code)
        + (if password.len() == 0 {
        Seq::<char>::empty()
    } else {
        " "@ + option_text("--password"@, password)
    }) + " --out ."@
}

/// The words of an option with its value.
pub open spec fn option_words(option: Seq<char>, value: Seq<char>) -> Seq<Seq<char>> {
    if value.len() > 0 && value[0] == '-' {
        seq![option + "="@ + value]
    } else {
        seq![option, value]
    }
}

/// The words of the command with which the peer receives.
pub open spec fn command_words(
    relay_url: Seq<char>,
    code: Seq<char>,
    password: Seq<char>,
) -> Seq<Seq<char>> {
    seq!["relaydrop"@, "receive"@] + option_words("--relay"@, relay_url) + option_words(
        "--code"@,
        code,
    ) + (if password.len() == 0 {
        Seq::<Seq<char>>::empty()
    } else {
        option_words("--password"@, password)
    }) + seq!["--out"@, "."@]
}

/// Words with one blank between two of them.
pub open spec fn spaced(words: Seq<Seq<char>>) -> Seq<char>
    decreases words.len(),
{
    if words.len() == 0 {
        Seq::<char>::empty()
    } else if words.len() == 1 {
        words[0]
    } else {
        spaced(words.drop_last()).push(' ') + words.last()
    }
}

/// The command with which the peer receives. The values stand in it as they are,
/// so it can be pasted where the URL and the code are not empty and no value
/// holds a blank or a character that the shell reads in its own way.
pub fn receive_command(relay_url: &str, code: &str, password: &str) -> (text: String)
    ensures
        text@ == command_text(relay_url@, code@, password@),
{
    let mut text = "relaydrop receive ".to_owned();
    push_option(&mut text, "--relay", relay_url);
    text.append(" ");
    push_option(&mut text, "--code", code);
    if !password.is_empty() {
        text.append(" ");
        push_option(&mut text, "--password", password);
    }
    text.append(" --out .");
    proof {
        assert(text@ =~= command_text(relay_url@, code@, password@));
    }
    text
}

/// What a sender prints for its user before it connects.
pub fn invitation(relay_url: &str, code: &str, password: &str) -> (text: String)
    ensures
        text@ == "On the other computer run:\n  "@ + command_text(relay_url@, code@, password@),
{
    let command = receive_command(relay_url, code, password);
    let mut text = "On the other computer run:\n  ".to_owned();
    text.append(command.as_str());
    text
}

/// What a sender says about the password.
pub fn send_note(password: &str) -> (note: &'static str)
    ensures
        note@ == if password@.len() == 0 {
            "note: --password was not given. If the relay was started with --password, the sender AND receiver must use the SAME password;\n      add --password <same password> to the receiver command below, otherwise the relay will reject the connection (decrypt failed)."@
        } else {
            "note: the receiver command below already embeds --password; the receiver can run it as-is (it must match the relay)."@
        },
{
    if password.is_empty() {
        "note: --password was not given. If the relay was started with --password, the sender AND receiver must use the SAME password;\n      add --password <same password> to the receiver command below, otherwise the relay will reject the connection (decrypt failed)."
    } else {
        "note: the receiver command below already embeds --password; the receiver can run it as-is (it must match the relay)."
    }
}

/// What a receiver says about a missing password.
pub fn receive_note(password: &str) -> (note: Option<&'static str>)
    ensures
        password@.len() > 0 ==> note is None,
        password@.len() == 0 ==> note is Some && note->0@
            == "note: --password was not given. If the relay requires a password, add --password <same as relay/sender>."@,
{
    if password.is_empty() {
        Some(
            "note: --password was not given. If the relay requires a password, add --password <same as relay/sender>.",
        )
    } else {
        None
    }
}

/// Nothing to send was named.
#[derive(Debug, Clone, Copy, PartialEq, Eq, Structural)]
pub struct NoInputs;

impl NoInputs {
    /// What is said about it.
    pub fn text(&self) -> (text: String)
        ensures
            text@ == "no file or path given (use --file or positional paths)"@,
    {
        "no file or path given (use --file or positional paths)".to_owned()
    }
}

/// All that a user named to be sent: first the bare paths, then those given
/// with `--file`.
pub fn all_inputs(paths: Vec<String>, files: Vec<String>) -> (result: Result<Vec<String>, NoInputs>)
    ensures
        match result {
            Ok(all) => all@ == paths@ + files@ && all@.len() > 0,
            Err(_) => paths@.len() == 0 && files@.len() == 0,
        },
{
    let mut all = paths;
    let mut files = files;
    all.append(&mut files);
    if all.len() == 0 {
        Err(NoInputs)
    } else {
        Ok(all)
    }
}

/// The two frames with which a client opens a channel to a relay: the proof of
/// the password, and the room that the code stands for. The code itself is in
/// neither.
pub fn hello(password: &str, code: &str) -> (frames: (Vec<u8>, Vec<u8>))
    ensures
        ({
            let key = derived_key(encode_utf8(password@));
            &&& frame_says(key, frames.0@) matches Ok(MsgView::Password { enc }) && opened(key, enc)
                == Ok::<Seq<u8>, CryptoError>(encode_utf8("auth"@)) && exists|nonce: [u8; 12]|
                #[trigger] drawn(nonce) && nonce@ == enc.take(12)
            &&& exists|nonce: [u8; 12]| #[trigger] drawn(nonce) && nonce@ == frames.0@.take(12)
            &&& exists|nonce: [u8; 12]| #[trigger] drawn(nonce) && nonce@ == frames.1@.take(12)
            &&& frame_says(key, frames.1@) == Ok::<MsgView, RecvError>(
                MsgView::RoomJoin { room: room_of(code@) },
            )
            &&& room_after(key, frames.0@, frames.1@) == Some(room_of(code@))
        }),
{
    let key = derive_key(password.as_bytes());
    let secret = "auth".as_bytes();
    proof {
        lemma_auth_is_short();
    }
    let enc = encrypt(&key, secret);
    let room = room_name(code);
    proof {
        lemma_password_fits(enc@);
        lemma_room_fits(code@, room@);
    }
    let first = seal_msg(&key, &Msg::Password { enc }).unwrap();
    let second = seal_msg(&key, &Msg::RoomJoin { room }).unwrap();
    (first, second)
}

/// A room name fits in a frame.
proof fn lemma_room_fits(code: Seq<char>, room: Seq<char>)
    requires
        room == room_of(code),
        room.len() == 64,
    ensures
        wire_bytes(MsgView::RoomJoin { room }).len() <= MAX_PLAINTEXT,
{
    lemma_hex_is_ascii(hkdf_sha256(encode_utf8(code), encode_utf8("relaydrop-room-v1"@)));
    assert(varint(encode_utf8(room).len()).len() == 1);
    assert(varint(3).len() == 1);
}

proof fn lemma_auth_is_short()
    ensures
        encode_utf8("auth"@).len() == 4,
{
    reveal_strlit("auth");
    is_ascii_chars_encode_utf8("auth"@);
}

/// The proof of a password fits in a frame.
proof fn lemma_password_fits(enc: Seq<u8>)
    requires
        enc.len() <= 100,
    ensures
        wire_bytes(MsgView::Password { enc }).len() <= MAX_PLAINTEXT,
{
    assert(varint(enc.len()).len() == 1);
    assert(varint(0).len() == 1);
}

/// Why a relay did not let a client in.
#[derive(Debug)]
pub enum ConnectError {
    /// Two peers are in the room already.
    RoomFull,
    /// The relay reported an error.
    Relay { msg: String },
    /// Something else, or the end of the stream, came in place of an answer.
    Unexpected(Option<Msg>),
    /// No answer could be read: most likely the password is wrong.
    Handshake(RecvError),
}

/// What is said about a refusal; `detail` shows what came in place of an answer,
/// or says why none could be read.
pub open spec fn connect_text(e: ConnectError, detail: Seq<char>) -> Seq<char> {
    match e {
        ConnectError::RoomFull => "relay room is full"@,
        ConnectError::Relay { msg } => "relay error: "@ + msg@,
        ConnectError::Unexpected(_) => "unexpected relay response: "@ + detail,
        ConnectError::Handshake(_) => {
            "handshake with relay failed (likely --password mismatch with relay, or relay unreachable): "@
                + detail
        },
    }
}

impl ConnectError {
    /// What is said about it; `detail` shows what came in place of an answer,
    /// or says why none could be read.
    pub fn text(&self, detail: &str) -> (text: String)
        ensures
            text@ == connect_text(*self, detail@),
    {
        match self {
            ConnectError::RoomFull => "relay room is full".to_owned(),
            ConnectError::Relay { msg } => phrase("relay error: ", msg.as_str()),
            ConnectError::Unexpected(_) => phrase("unexpected relay response: ", detail),
            ConnectError::Handshake(_) => phrase(
                "handshake with relay failed (likely --password mismatch with relay, or relay unreachable): ",
                detail,
            ),
        }
    }
}

/// Decide about the relay's answer to the two frames of [`hello`].
pub fn answer_step(incoming: Result<Option<Msg>, RecvError>) -> (result: Result<(), ConnectError>)
    ensures
        match incoming_view(incoming) {
            Ok(Some(MsgView::Ready)) => result is Ok,
            Ok(Some(MsgView::RoomFull)) => result matches Err(ConnectError::RoomFull),
            Ok(Some(MsgView::Error { msg: text })) => result matches Err(
                ConnectError::Relay { msg },
            ) && msg@ == text,
            Ok(other) => result matches Err(ConnectError::Unexpected(msg)) && msg.deep_view()
                == other,
            Err(e) => result matches Err(ConnectError::Handshake(f)) && f == e,
        },
{
    match incoming {
        Ok(Some(Msg::Ready)) => Ok(()),
        Ok(Some(Msg::RoomFull)) => Err(ConnectError::RoomFull),
        Ok(Some(Msg::Error { msg })) => Err(ConnectError::Relay { msg }),
        Ok(other) => Err(ConnectError::Unexpected(other)),
        Err(e) => Err(ConnectError::Handshake(e)),
    }
}

/// Words in front of others.
proof fn lemma_spaced_concat(a: Seq<Seq<char>>, b: Seq<Seq<char>>)
    requires
        a.len() > 0,
        b.len() > 0,
    ensures
        spaced(a + b) == spaced(a).push(' ') + spaced(b),
    decreases b.len(),
{
    let all = a + b;
    assert(all.last() == b.last());
    if b.len() == 1 {
        assert(all.drop_last() =~= a);
    } else {
        lemma_spaced_concat(a, b.drop_last());
        assert(all.drop_last() =~= a + b.drop_last());
        assert(spaced(all) =~= spaced(a).push(' ') + spaced(b));
    }
}

/// An option with its value is its words.
proof fn lemma_option_words(option: Seq<char>, value: Seq<char>)
    ensures
        spaced(option_words(option, value)) == option_text(option, value),
        option_words(option, value).len() > 0,
{
    reveal_strlit(" ");
    let words = option_words(option, value);
    if value.len() > 0 && value[0] == '-' {
    } else {
        assert(words.drop_last() =~= seq![option]);
        assert(spaced(words.drop_last()) == option);
        assert(spaced(words) =~= option_text(option, value));
    }
}

/// The command is its words with one blank between two of them, and where the
/// URL and the code are not empty and no value holds a blank, no word is empty
/// or holds one.
pub proof fn law_command_is_its_words(relay_url: Seq<char>, code: Seq<char>, password: Seq<char>)
    ensures
        command_text(relay_url, code, password) == spaced(command_words(relay_url, code, password)),
        relay_url.len() > 0 && code.len() > 0 && !relay_url.contains(' ') && !code.contains(' ')
            && !password.contains(' ') ==> forall|i: int|
            0 <= i < command_words(relay_url, code, password).len() ==> {
                &&& (#[trigger] command_words(relay_url, code, password)[i]).len() > 0
                &&& !command_words(relay_url, code, password)[i].contains(' ')
            },
{
    reveal_strlit(" ");
    reveal_strlit("=");
    reveal_strlit("relaydrop");
    reveal_strlit("receive");
    reveal_strlit("relaydrop receive ");
    reveal_strlit("--relay");
    reveal_strlit("--code");
    reveal_strlit("--password");
    reveal_strlit("--out");
    reveal_strlit(".");
    reveal_strlit(" --out .");
    let start = seq!["relaydrop"@, "receive"@];
    let end = seq!["--out"@, "."@];
    let relay = option_words("--relay"@, relay_url);
    let secret = option_words("--code"@, code);
    let pass = if password.len() == 0 {
        Seq::<Seq<char>>::empty()
    } else {
        option_words("--password"@, password)
    };
    lemma_option_words("--relay"@, relay_url);
    lemma_option_words("--code"@, code);
    lemma_option_words("--password"@, password);
    assert(start.drop_last() =~= seq!["relaydrop"@]);
    assert(spaced(start.drop_last()) == "relaydrop"@);
    assert(spaced(start).push(' ') =~= "relaydrop receive "@);
    assert(end.drop_last() =~= seq!["--out"@]);
    assert(spaced(end.drop_last()) == "--out"@);
    assert(" "@ + spaced(end) =~= " --out ."@);
    lemma_spaced_concat(start, relay);
    lemma_spaced_concat(start + relay, secret);
    if password.len() == 0 {
        assert(start + relay + secret + pass =~= start + relay + secret);
        lemma_spaced_concat(start + relay + secret, end);
    } else {
        lemma_spaced_concat(start + relay + secret, pass);
        lemma_spaced_concat(start + relay + secret + pass, end);
    }
    let words = command_words(relay_url, code, password);
    assert(command_text(relay_url, code, password) =~= spaced(words));
    if relay_url.len() > 0 && code.len() > 0 && !relay_url.contains(' ') && !code.contains(' ')
        && !password.contains(' ') {
        lemma_option_has_no_blank("--relay"@, relay_url);
        lemma_option_has_no_blank("--code"@, code);
        if password.len() > 0 {
            lemma_option_has_no_blank("--password"@, password);
        }
        assert forall|i: int| 0 <= i < words.len() implies (#[trigger] words[i]).len() > 0
            && !words[i].contains(' ') by {
            let a = start.len() as int;
            let b = a + relay.len();
            let c = b + secret.len();
            let d = c + pass.len();
            if a <= i < b {
                assert(words[i] == relay[i - a]);
            } else if b <= i < c {
                assert(words[i] == secret[i - b]);
            } else if c <= i < d {
                assert(words[i] == pass[i - c]);
            } else if i >= d {
                assert(words[i] == end[i - d]);
            }
        }
    }
}

proof fn lemma_option_has_no_blank(option: Seq<char>, value: Seq<char>)
    requires
        option.len() > 0,
        value.len() > 0,
        !option.contains(' '),
        !value.contains(' '),
    ensures
        forall|i: int|
            0 <= i < option_words(option, value).len() ==> (#[trigger] option_words(
                option,
                value,
            )[i]).len() > 0 && !option_words(option, value)[i].contains(' '),
{
    reveal_strlit("=");
    let one = option + "="@ + value;
    if one.contains(' ') {
        let k = choose|k: int| 0 <= k < one.len() && one[k] == ' ';
        if k < option.len() {
            assert(option[k] == ' ');
        } else if k > option.len() {
            assert(value[k - option.len() - 1] == ' ');
        }
    }
}

/// Whether a character may stand in a URL without being escaped.
pub open spec fn is_url_safe(c: char) -> bool {
    'A' <= c <= 'Z' || 'a' <= c <= 'z' || '0' <= c <= '9' || c == '-' || c == '_'
}

/// Every secret has 24 characters, all of them URL-safe.
pub proof fn law_secret_is_url_safe(secret: Seq<char>)
    requires
        is_secret(secret),
    ensures
        secret.len() == 24,
        forall|i: int| 0 <= i < secret.len() ==> is_url_safe(#[trigger] secret[i]),
{
    let bytes = choose|bytes: Seq<u8>| bytes.len() == 18 && secret == #[trigger] base64_text(bytes);
    reveal_strlit("ABCDEFGHIJKLMNOPQRSTUVWXYZabcdefghijklmnopqrstuvwxyz0123456789-_");
    assert forall|v: int| 0 <= v < 64 implies is_url_safe(#[trigger] base64_letter(v)) by {}
    assert forall|i: int| 0 <= i < secret.len() implies is_url_safe(#[trigger] secret[i]) by {
        let group = three_bytes(bytes, i / 4 * 3);
        assert(0 <= group < 0x1000000);
        assert(0 <= group / 0x40000 < 64);
    }
}

/// Letters for different values differ.
proof fn lemma_letters_differ(v: int, w: int)
    requires
        0 <= v < 64,
        0 <= w < 64,
        base64_letter(v) == base64_letter(w),
    ensures
        v == w,
{
    reveal_strlit("ABCDEFGHIJKLMNOPQRSTUVWXYZabcdefghijklmnopqrstuvwxyz0123456789-_");
    let letters = "ABCDEFGHIJKLMNOPQRSTUVWXYZabcdefghijklmnopqrstuvwxyz0123456789-_"@;
    assert forall|k: int| 0 <= k < 64 implies #[trigger] letters[k] as int == if k < 26 {
        65 + k
    } else if k < 52 {
        71 + k
    } else if k < 62 {
        k - 4
    } else if k == 62 {
        45
    } else {
        95
    } by {}
}

/// A group is made of its four parts of six bits.
proof fn lemma_group_parts(x: int, y: int)
    requires
        0 <= x < 0x1000000,
        0 <= y < 0x1000000,
        x / 0x40000 == y / 0x40000,
        x / 0x1000 % 64 == y / 0x1000 % 64,
        x / 0x40 % 64 == y / 0x40 % 64,
        x % 64 == y % 64,
    ensures
        x == y,
{
    assert(x / 0x1000 == 64 * (x / 0x40000) + x / 0x1000 % 64);
    assert(y / 0x1000 == 64 * (y / 0x40000) + y / 0x1000 % 64);
    assert(x / 0x40 == 64 * (x / 0x1000) + x / 0x40 % 64);
    assert(y / 0x40 == 64 * (y / 0x1000) + y / 0x40 % 64);
}

/// The bytes of a group are fixed by it.
proof fn lemma_group_bytes(a: Seq<u8>, b: Seq<u8>, at: int)
    requires
        three_bytes(a, at) == three_bytes(b, at),
    ensures
        a[at] == b[at],
        a[at + 1] == b[at + 1],
        a[at + 2] == b[at + 2],
{
}

/// Every bit that was drawn is in the secret: different bytes make different
/// secrets.
pub proof fn law_secret_keeps_every_byte(a: Seq<u8>, b: Seq<u8>)
    requires
        a.len() == b.len(),
        a.len() % 3 == 0,
        base64_text(a) == base64_text(b),
    ensures
        a == b,
{
    assert forall|k: int| 0 <= k < a.len() implies a[k] == b[k] by {
        let g = k / 3;
        assert(3 * g <= k < 3 * g + 3);
        lemma_same_group(a, b, g);
    }
    assert(a =~= b);
}

proof fn lemma_same_group(a: Seq<u8>, b: Seq<u8>, g: int)
    requires
        0 <= g,
        3 * g + 2 < a.len(),
        a.len() == b.len(),
        base64_text(a) == base64_text(b),
    ensures
        a[3 * g] == b[3 * g],
        a[3 * g + 1] == b[3 * g + 1],
        a[3 * g + 2] == b[3 * g + 2],
{
    let x = three_bytes(a, 3 * g);
    let y = three_bytes(b, 3 * g);
    lemma_group_letters(a, g);
    lemma_group_letters(b, g);
    lemma_letters_differ(x / 0x40000, y / 0x40000);
    lemma_letters_differ(x / 0x1000 % 64, y / 0x1000 % 64);
    lemma_letters_differ(x / 0x40 % 64, y / 0x40 % 64);
    lemma_letters_differ(x % 64, y % 64);
    lemma_group_parts(x, y);
    lemma_group_bytes(a, b, 3 * g);
}

/// The four letters of three bytes.
proof fn lemma_group_letters(bytes: Seq<u8>, g: int)
    requires
        0 <= g,
        3 * g + 2 < bytes.len(),
    ensures
        ({
            let x = three_bytes(bytes, 3 * g);
            let text = base64_text(bytes);
            &&& 0 <= x < 0x1000000
            &&& 4 * g + 3 < text.len()
            &&& text[4 * g] == base64_letter(x / 0x40000)
            &&& text[4 * g + 1] == base64_letter(x / 0x1000 % 64)
            &&& text[4 * g + 2] == base64_letter(x / 0x40 % 64)
            &&& text[4 * g + 3] == base64_letter(x % 64)
        }),
{
    assert((4 * g) / 4 == g && (4 * g + 1) / 4 == g && (4 * g + 2) / 4 == g && (4 * g + 3) / 4
        == g);
    assert(g * 3 == 3 * g);
}

/// A value stands in the command whole, behind its option: joined with `=` where
/// it starts with a dash, and after a blank otherwise.
pub proof fn law_option_holds_its_value(option: Seq<char>, value: Seq<char>)
    ensures
        value.len() > 0 && value[0] == '-' ==> option_text(option, value) == option.push('=')
            + value && option_words(option, value) == seq![option.push('=') + value],
        !(value.len() > 0 && value[0] == '-') ==> option_text(option, value) == option.push(' ')
            + value && option_words(option, value) == seq![option, value],
{
    reveal_strlit("=");
    reveal_strlit(" ");
    assert(option + "="@ =~= option.push('='));
    assert(option + " "@ =~= option.push(' '));
}

/// The command names the relay, the code and, where there is one, the password,
/// each whole, and the current directory.
pub proof fn law_command_names_everything(
    relay_url: Seq<char>,
    code: Seq<char>,
    password: Seq<char>,
)
    ensures
        password.len() == 0 ==> command_text(relay_url, code, password) == "relaydrop receive "@
            + option_text("--relay"@, relay_url) + " "@ + option_text("--code"@, code)
            + " --out ."@,
        password.len() > 0 ==> command_text(relay_url, code, password) == "relaydrop receive "@
            + option_text("--relay"@, relay_url) + " "@ + option_text("--code"@, code) + " "@
            + option_text("--password"@, password) + " --out ."@,
        password.len() == 0 ==> command_words(relay_url, code, password) == seq![
            "relaydrop"@,
            "receive"@,
        ] + option_words("--relay"@, relay_url) + option_words("--code"@, code) + seq![
            "--out"@,
            "."@,
        ],
        password.len() > 0 ==> command_words(relay_url, code, password) == seq![
            "relaydrop"@,
            "receive"@,
        ] + option_words("--relay"@, relay_url) + option_words("--code"@, code) + option_words(
            "--password"@,
            password,
        ) + seq!["--out"@, "."@],
{
    let front = "relaydrop receive "@ + option_text("--relay"@, relay_url) + " "@ + option_text(
        "--code"@,
        code,
    );
    assert(front + Seq::<char>::empty() =~= front);
    assert(front + (" "@ + option_text("--password"@, password)) =~= front + " "@ + option_text(
        "--password"@,
        password,
    ));
    let words = seq!["relaydrop"@, "receive"@] + option_words("--relay"@, relay_url)
        + option_words("--code"@, code);
    assert(words + Seq::<Seq<char>>::empty() =~= words);
}

/// Words are put together with single blanks, none lost.
pub proof fn law_spaced_keeps_every_word(words: Seq<Seq<char>>, word: Seq<char>)
    ensures
        spaced(seq![word]) == word,
        words.len() > 0 ==> spaced(words.push(word)) == spaced(words).push(' ') + word,
{
    assert(words.push(word).drop_last() =~= words);
}

/// What the relay or the transport said about a refusal is passed on whole.
pub proof fn law_refusal_is_told_whole(
    msg: String,
    other: Option<Msg>,
    e: RecvError,
    detail: Seq<char>,
)
    ensures
        connect_text(ConnectError::RoomFull, detail) == "relay room is full"@,
        connect_text(ConnectError::Relay { msg }, detail) == "relay error: "@ + msg@,
        connect_text(ConnectError::Unexpected(other), detail) == "unexpected relay response: "@
            + detail,
        connect_text(ConnectError::Handshake(e), detail)
            == "handshake with relay failed (likely --password mismatch with relay, or relay unreachable): "@
            + detail,
{
}

} // verus!
