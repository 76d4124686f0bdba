//! The messages of the protocol and the frames that carry them.
//!
//! A message is written in postcard's format, sealed with a key and sent as one
//! frame; the transports (see [`crate::transport`]) carry frames as they are.

use crate::crypto::{
    crypto_text, decrypt, drawn, encrypt, envelope, opened, CryptoError, MAX_PLAINTEXT, NONCE_LEN,
};
use vstd::prelude::*;
use vstd::utf8::{
    decode_utf8, encode_utf8, encode_utf8_decode_utf8, encode_utf8_valid_utf8, valid_utf8,
};

verus! {

/// One file described by a [`Msg::Manifest`].
#[derive(Debug, PartialEq)]
pub struct FileEntry {
    /// Relative path inside the transfer root (always relative, no `..`).
    pub relpath: String,
    /// File size in bytes.
    pub size: u64,
    /// Hex-encoded SHA-256 of the plaintext file.
    pub sha256: String,
}

/// What a [`FileEntry`] says.
pub struct EntryView {
    pub relpath: Seq<char>,
    pub size: u64,
    pub sha256: Seq<char>,
}

impl View for FileEntry {
    type V = EntryView;

    open spec fn view(&self) -> EntryView {
        EntryView { relpath: self.relpath@, size: self.size, sha256: self.sha256@ }
    }
}

impl DeepView for FileEntry {
    type V = EntryView;

    open spec fn deep_view(&self) -> EntryView {
        self@
    }
}

impl Clone for FileEntry {
    fn clone(&self) -> (copy: FileEntry)
        ensures
            copy@ == self@,
    {
        FileEntry {
            relpath: self.relpath.clone(),
            size: self.size,
            sha256: self.sha256.clone(),
        }
    }
}

/// Control and data messages exchanged on a relay channel.
#[derive(Debug)]
pub enum Msg {
    /// Client to relay: proves knowledge of the relay password. The inner
    /// bytes are `auth`, sealed with the relay key.
    Password { enc: Vec<u8> },
    /// Relay to client: handshake accepted.
    Ready,
    /// Relay to client: a third peer tried to join an already full room.
    RoomFull,
    /// Client to relay: which room, derived from the shared code, to join.
    RoomJoin { room: String },
    /// Sender to receiver: what will be transferred, as a flat list.
    Manifest { entries: Vec<FileEntry> },
    /// Sender to receiver: one chunk of the current file, already sealed with
    /// the file key, so that the relay cannot read it.
    DataChunk(Vec<u8>),
    /// Sender to receiver: the current file is finished.
    FileEnd,
    /// Sender to receiver: the whole transfer is done.
    Done,
    /// Either side to the other: a human-readable error.
    Error { msg: String },
}

/// What a [`Msg`] says.
pub enum MsgView {
    Password { enc: Seq<u8> },
    Ready,
    RoomFull,
    RoomJoin { room: Seq<char> },
    Manifest { entries: Seq<EntryView> },
    DataChunk(Seq<u8>),
    FileEnd,
    Done,
    Error { msg: Seq<char> },
}

impl View for Msg {
    type V = MsgView;

    open spec fn view(&self) -> MsgView {
        match self {
            Msg::Password { enc } => MsgView::Password { enc: enc@ },
            Msg::Ready => MsgView::Ready,
            Msg::RoomFull => MsgView::RoomFull,
            Msg::RoomJoin { room } => MsgView::RoomJoin { room: room@ },
            Msg::Manifest { entries } => MsgView::Manifest { entries: entries.deep_view() },
            Msg::DataChunk(sealed) => MsgView::DataChunk(sealed@),
            Msg::FileEnd => MsgView::FileEnd,
            Msg::Done => MsgView::Done,
            Msg::Error { msg } => MsgView::Error { msg: msg@ },
        }
    }
}

impl DeepView for Msg {
    type V = MsgView;

    open spec fn deep_view(&self) -> MsgView {
        self@
    }
}

/// A number in base 128, the low digit first, with the top bit set in every
/// byte but the last.
pub open spec fn varint(n: nat) -> Seq<u8>
    decreases n,
{
    if n < 128 {
        seq![n as u8]
    } else {
        seq![(128 + n % 128) as u8] + varint(n / 128)
    }
}

/// Bytes with their number in front.
pub open spec fn counted(bytes: Seq<u8>) -> Seq<u8> {
    varint(bytes.len()) + bytes
}

/// Text, as its UTF-8 bytes with their number in front.
pub open spec fn counted_text(text: Seq<char>) -> Seq<u8> {
    counted(encode_utf8(text))
}

/// One file of a manifest as plain values: path, size and digest.
pub type Row = (Seq<char>, u64, Seq<char>);

/// The fields of a row, one after the other.
pub open spec fn row_bytes(row: Row) -> Seq<u8> {
    counted_text(row.0) + varint(row.1 as nat) + counted_text(row.2)
}

/// Rows, one after the other.
pub open spec fn rows_bytes(rows: Seq<Row>) -> Seq<u8>
    decreases rows.len(),
{
    if rows.len() == 0 {
        Seq::<u8>::empty()
    } else {
        row_bytes(rows.first()) + rows_bytes(rows.drop_first())
    }
}

/// A list of rows with their number in front.
pub open spec fn counted_rows(rows: Seq<Row>) -> Seq<u8> {
    varint(rows.len()) + rows_bytes(rows)
}

/// The rows that plain tuples hold.
pub open spec fn rows_of(tuples: Seq<(String, u64, String)>) -> Seq<Row> {
    tuples.map_values(|t: (String, u64, String)| (t.0@, t.1, t.2@))
}

/// Read a number in base 128 off the front of `bytes`: the number and the bytes
/// after it. It has at most `digits` bytes, and where it has that many the last
/// one is at most `last`. It need not be written in the shortest way.
pub open spec fn read_varint(bytes: Seq<u8>, digits: nat, last: u8) -> Option<(nat, Seq<u8>)>
    decreases digits,
{
    if digits == 0 || bytes.len() == 0 {
        None
    } else if bytes[0] < 128 {
        if digits == 1 && bytes[0] > last {
            None
        } else {
            Some((bytes[0] as nat, bytes.drop_first()))
        }
    } else {
        match read_varint(bytes.drop_first(), (digits - 1) as nat, last) {
            Some((high, rest)) => Some(((bytes[0] - 128) as nat + 128 * high, rest)),
            None => None,
        }
    }
}

/// Read a `u32` off the front of `bytes`.
pub open spec fn read_u32(bytes: Seq<u8>) -> Option<(nat, Seq<u8>)> {
    read_varint(bytes, 5, 15)
}

/// Read a `u64` off the front of `bytes`.
pub open spec fn read_u64(bytes: Seq<u8>) -> Option<(nat, Seq<u8>)> {
    read_varint(bytes, 10, 1)
}

/// Read a length off the front of `bytes`: it is as wide as the machine's
/// `usize`.
pub open spec fn read_len(bytes: Seq<u8>) -> Option<(nat, Seq<u8>)> {
    if usize::BITS == 32 {
        read_u32(bytes)
    } else {
        read_u64(bytes)
    }
}

/// Read bytes with their number in front.
pub open spec fn read_counted(bytes: Seq<u8>) -> Option<(Seq<u8>, Seq<u8>)> {
    match read_len(bytes) {
        Some((n, rest)) => if n <= rest.len() {
            Some((rest.take(n as int), rest.skip(n as int)))
        } else {
            None
        },
        None => None,
    }
}

/// Read text: UTF-8 bytes with their number in front.
pub open spec fn read_text(bytes: Seq<u8>) -> Option<(Seq<char>, Seq<u8>)> {
    match read_counted(bytes) {
        Some((data, rest)) => if valid_utf8(data) {
            Some((decode_utf8(data), rest))
        } else {
            None
        },
        None => None,
    }
}

/// Read a row off the front of `bytes`.
pub open spec fn read_row(bytes: Seq<u8>) -> Option<(Row, Seq<u8>)> {
    match read_text(bytes) {
        Some((path, after_path)) => match read_u64(after_path) {
            Some((size, after_size)) => match read_text(after_size) {
                Some((digest, rest)) => Some(((path, size as u64, digest), rest)),
                None => None,
            },
            None => None,
        },
        None => None,
    }
}

/// Read that many rows off the front of `bytes`.
pub open spec fn read_rows(bytes: Seq<u8>, count: nat) -> Option<Seq<Row>>
    decreases count,
{
    if count == 0 {
        Some(Seq::<Row>::empty())
    } else {
        match read_row(bytes) {
            Some((row, rest)) => match read_rows(rest, (count - 1) as nat) {
                Some(rows) => Some(seq![row] + rows),
                None => None,
            },
            None => None,
        }
    }
}

/// Read rows with their number in front.
pub open spec fn read_counted_rows(bytes: Seq<u8>) -> Option<Seq<Row>> {
    match read_len(bytes) {
        Some((count, rest)) => read_rows(rest, count),
        None => None,
    }
}

/// One more than the largest number that so many digits hold.
spec fn varint_limit(digits: nat, last: u8) -> nat
    decreases digits,
{
    if digits == 0 {
        0
    } else if digits == 1 {
        (last + 1) as nat
    } else {
        128 * varint_limit((digits - 1) as nat, last)
    }
}

/// A number that is not too large reads back as it was written.
proof fn lemma_varint_reads_back(n: nat, digits: nat, last: u8, rest: Seq<u8>)
    requires
        last < 128,
        n < varint_limit(digits, last),
    ensures
        read_varint(varint(n) + rest, digits, last) == Some((n, rest)),
    decreases digits,
{
    let bytes = varint(n) + rest;
    if n < 128 {
        assert(bytes.drop_first() =~= rest);
    } else {
        lemma_varint_reads_back(n / 128, (digits - 1) as nat, last, rest);
        assert(bytes.drop_first() =~= varint(n / 128) + rest);
        assert(bytes[0] == 128 + n % 128);
    }
}

/// A length that fits in the machine's `usize` reads back.
proof fn lemma_len_reads_back(n: nat, rest: Seq<u8>)
    requires
        n <= usize::MAX,
    ensures
        read_len(varint(n) + rest) == Some((n, rest)),
{
    reveal_with_fuel(varint_limit, 11);
    if usize::BITS == 32 {
        assert(n < 0x1_0000_0000);
        lemma_varint_reads_back(n, 5, 15, rest);
    } else {
        lemma_varint_reads_back(n, 10, 1, rest);
    }
}

proof fn lemma_counted_reads_back(data: Seq<u8>, rest: Seq<u8>)
    requires
        data.len() <= usize::MAX,
    ensures
        read_counted(counted(data) + rest) == Some((data, rest)),
{
    assert(counted(data) + rest =~= varint(data.len()) + (data + rest));
    lemma_len_reads_back(data.len(), data + rest);
    assert((data + rest).take(data.len() as int) =~= data);
    assert((data + rest).skip(data.len() as int) =~= rest);
}

proof fn lemma_text_reads_back(text: Seq<char>, rest: Seq<u8>)
    requires
        encode_utf8(text).len() <= usize::MAX,
    ensures
        read_text(counted_text(text) + rest) == Some((text, rest)),
{
    lemma_counted_reads_back(encode_utf8(text), rest);
    encode_utf8_valid_utf8(text);
    encode_utf8_decode_utf8(text);
}

/// The texts of a row are no longer than memory allows.
spec fn row_fits(row: Row) -> bool {
    encode_utf8(row.0).len() <= usize::MAX && encode_utf8(row.2).len() <= usize::MAX
}

proof fn lemma_row_reads_back(row: Row, rest: Seq<u8>)
    requires
        row_fits(row),
    ensures
        read_row(row_bytes(row) + rest) == Some((row, rest)),
{
    let after_size = counted_text(row.2) + rest;
    let after_path = varint(row.1 as nat) + after_size;
    assert(row_bytes(row) + rest =~= counted_text(row.0) + after_path);
    lemma_text_reads_back(row.0, after_path);
    assert(row.1 < varint_limit(10, 1)) by {
        reveal_with_fuel(varint_limit, 11);
    }
    lemma_varint_reads_back(row.1 as nat, 10, 1, after_size);
    lemma_text_reads_back(row.2, rest);
}

proof fn lemma_rows_read_back(rows: Seq<Row>, tail: Seq<u8>)
    requires
        forall|i: int| 0 <= i < rows.len() ==> row_fits(#[trigger] rows[i]),
    ensures
        read_rows(rows_bytes(rows) + tail, rows.len()) == Some(rows),
    decreases rows.len(),
{
    if rows.len() == 0 {
        assert(rows =~= Seq::<Row>::empty());
    } else {
        let row = rows.first();
        let others = rows.drop_first();
        assert forall|i: int| 0 <= i < others.len() implies row_fits(#[trigger] others[i]) by {
            assert(others[i] == rows[i + 1]);
        }
        lemma_rows_read_back(others, tail);
        assert(row_fits(rows[0]));
        let rest = rows_bytes(others) + tail;
        assert(rows_bytes(rows) + tail =~= row_bytes(row) + rest);
        lemma_row_reads_back(row, rest);
        assert(seq![row] + others =~= rows);
    }
}

/// Calls `postcard::to_allocvec` on a `u32`, which is written as a varint.
/// Writing into a `Vec` does not fail.
#[verifier::external_body]
fn to_postcard_u32(tag: u32) -> (bytes: Vec<u8>)
    ensures
        bytes@ == varint(tag as nat),
{
    postcard::to_allocvec(&tag).expect("writing into a Vec does not fail")
}

/// Calls `postcard::to_allocvec` on a `u32` and a list of bytes: the varint,
/// then the bytes with their number in front.
#[verifier::external_body]
fn to_postcard_u32_bytes(tag: u32, data: &[u8]) -> (bytes: Vec<u8>)
    ensures
        bytes@ == varint(tag as nat) + counted(data@),
{
    postcard::to_allocvec(&(tag, data)).expect("writing into a Vec does not fail")
}

/// Calls `postcard::to_allocvec` on a `u32` and a text: the varint, then the
/// UTF-8 bytes with their number in front.
#[verifier::external_body]
fn to_postcard_u32_text(tag: u32, text: &str) -> (bytes: Vec<u8>)
    ensures
        bytes@ == varint(tag as nat) + counted_text(text@),
{
    postcard::to_allocvec(&(tag, text)).expect("writing into a Vec does not fail")
}

/// Calls `postcard::to_allocvec` on a `u32` and a list of tuples: the varint,
/// then the tuples' fields one after the other with the number of tuples in
/// front.
#[verifier::external_body]
fn to_postcard_u32_rows(tag: u32, rows: &Vec<(String, u64, String)>) -> (bytes: Vec<u8>)
    ensures
        bytes@ == varint(tag as nat) + counted_rows(rows_of(rows@)),
{
    postcard::to_allocvec(&(tag, rows)).expect("writing into a Vec does not fail")
}

/// Calls `postcard::from_bytes` for a `u32`, which reads a varint off the front
/// and ignores what follows it.
#[verifier::external_body]
fn from_postcard_u32(bytes: &[u8]) -> (tag: Option<u32>)
    ensures
        match read_u32(bytes@) {
            Some((t, _)) => tag == Some(t as u32),
            None => tag is None,
        },
{
    postcard::from_bytes::<u32>(bytes).ok()
}

/// Calls `postcard::from_bytes` for a `u32` and a list of bytes, which reads the
/// varint, then bytes with their number in front.
#[verifier::external_body]
fn from_postcard_u32_bytes(bytes: &[u8]) -> (read: Option<(u32, Vec<u8>)>)
    ensures
        match read_u32(bytes@) {
            Some((t, rest)) => match read_counted(rest) {
                Some((data, _)) => read matches Some(r) && r.0 == t as u32 && r.1@ == data,
                None => read is None,
            },
            None => read is None,
        },
{
    postcard::from_bytes::<(u32, Vec<u8>)>(bytes).ok()
}

/// Calls `postcard::from_bytes` for a `u32` and a text, which reads the varint,
/// then UTF-8 bytes with their number in front.
#[verifier::external_body]
fn from_postcard_u32_text(bytes: &[u8]) -> (read: Option<(u32, String)>)
    ensures
        match read_u32(bytes@) {
            Some((t, rest)) => match read_text(rest) {
                Some((text, _)) => read matches Some(r) && r.0 == t as u32 && r.1@ == text,
                None => read is None,
            },
            None => read is None,
        },
{
    postcard::from_bytes::<(u32, String)>(bytes).ok()
}

/// Calls `postcard::from_bytes` for a `u32` and a list of tuples, which reads the
/// varint, then the tuples' fields one after the other with the number of tuples
/// in front.
#[verifier::external_body]
fn from_postcard_u32_rows(bytes: &[u8]) -> (read: Option<(u32, Vec<(String, u64, String)>)>)
    ensures
        match read_u32(bytes@) {
            Some((t, rest)) => match read_counted_rows(rest) {
                Some(rows) => read matches Some(r) && r.0 == t as u32 && rows_of(r.1@) == rows,
                None => read is None,
            },
            None => read is None,
        },
{
    postcard::from_bytes::<(u32, Vec<(String, u64, String)>)>(bytes).ok()
}

/// The number that stands for a message's kind on the wire.
pub open spec fn tag_of(msg: MsgView) -> u32 {
    match msg {
        MsgView::Password { .. } => 0,
        MsgView::Ready => 1,
        MsgView::RoomFull => 2,
        MsgView::RoomJoin { .. } => 3,
        MsgView::Manifest { .. } => 4,
        MsgView::DataChunk(_) => 5,
        MsgView::FileEnd => 6,
        MsgView::Done => 7,
        MsgView::Error { .. } => 8,
    }
}

/// A manifest's entries as plain values.
pub open spec fn entry_rows(entries: Seq<EntryView>) -> Seq<Row> {
    entries.map_values(|e: EntryView| (e.relpath, e.size, e.sha256))
}

/// Plain values as a manifest's entries.
pub open spec fn row_entries(rows: Seq<Row>) -> Seq<EntryView> {
    rows.map_values(|r: Row| EntryView { relpath: r.0, size: r.1, sha256: r.2 })
}

/// A message on the wire, before it is sealed: its kind, then its field.
pub open spec fn wire_bytes(msg: MsgView) -> Seq<u8> {
    varint(tag_of(msg) as nat) + match msg {
        MsgView::Password { enc } => counted(enc),
        MsgView::RoomJoin { room } => counted_text(room),
        MsgView::Manifest { entries } => counted_rows(entry_rows(entries)),
        MsgView::DataChunk(sealed) => counted(sealed),
        MsgView::Error { msg: text } => counted_text(text),
        _ => Seq::<u8>::empty(),
    }
}

/// What follows a message's kind on the wire.
#[derive(Debug, Clone, Copy, PartialEq, Eq, Structural)]
pub enum Field {
    Nothing,
    Bytes,
    Text,
    Rows,
}

/// What follows this kind on the wire, if there is such a kind.
pub open spec fn field_of(tag: u32) -> Option<Field> {
    if tag == 0 || tag == 5 {
        Some(Field::Bytes)
    } else if tag == 3 || tag == 8 {
        Some(Field::Text)
    } else if tag == 4 {
        Some(Field::Rows)
    } else if tag <= 7 {
        Some(Field::Nothing)
    } else {
        None
    }
}

/// What was read after a message's kind.
#[derive(Debug)]
pub enum Payload {
    Nothing,
    Bytes(Vec<u8>),
    Text(String),
    Rows(Vec<(String, u64, String)>),
}

/// What a [`Payload`] says.
pub enum PayloadView {
    Nothing,
    Bytes(Seq<u8>),
    Text(Seq<char>),
    Rows(Seq<Row>),
}

impl View for Payload {
    type V = PayloadView;

    open spec fn view(&self) -> PayloadView {
        match self {
            Payload::Nothing => PayloadView::Nothing,
            Payload::Bytes(data) => PayloadView::Bytes(data@),
            Payload::Text(text) => PayloadView::Text(text@),
            Payload::Rows(rows) => PayloadView::Rows(rows_of(rows@)),
        }
    }
}

/// The message of this kind with this payload, if the two belong together.
pub open spec fn built(tag: u32, payload: PayloadView) -> Option<MsgView> {
    match payload {
        PayloadView::Nothing => if tag == 1 {
            Some(MsgView::Ready)
        } else if tag == 2 {
            Some(MsgView::RoomFull)
        } else if tag == 6 {
            Some(MsgView::FileEnd)
        } else if tag == 7 {
            Some(MsgView::Done)
        } else {
            None
        },
        PayloadView::Bytes(data) => if tag == 0 {
            Some(MsgView::Password { enc: data })
        } else if tag == 5 {
            Some(MsgView::DataChunk(data))
        } else {
            None
        },
        PayloadView::Text(text) => if tag == 3 {
            Some(MsgView::RoomJoin { room: text })
        } else if tag == 8 {
            Some(MsgView::Error { msg: text })
        } else {
            None
        },
        PayloadView::Rows(rows) => if tag == 4 {
            Some(MsgView::Manifest { entries: row_entries(rows) })
        } else {
            None
        },
    }
}

/// What `bytes` hold, read as such a field.
pub open spec fn payload_of(bytes: Seq<u8>, field: Field) -> Option<PayloadView> {
    match field {
        Field::Nothing => Some(PayloadView::Nothing),
        Field::Bytes => match read_counted(bytes) {
            Some((data, _)) => Some(PayloadView::Bytes(data)),
            None => None,
        },
        Field::Text => match read_text(bytes) {
            Some((text, _)) => Some(PayloadView::Text(text)),
            None => None,
        },
        Field::Rows => match read_counted_rows(bytes) {
            Some(rows) => Some(PayloadView::Rows(rows)),
            None => None,
        },
    }
}

/// The message that `bytes` hold, if they hold one: its kind, then its field.
/// Bytes after it are ignored.
pub open spec fn parsed(bytes: Seq<u8>) -> Option<MsgView> {
    match read_u32(bytes) {
        Some((tag, rest)) => match field_of(tag as u32) {
            Some(field) => match payload_of(rest, field) {
                Some(payload) => built(tag as u32, payload),
                None => None,
            },
            None => None,
        },
        None => None,
    }
}

/// A manifest's entries as plain tuples.
fn tuples_from_entries(entries: &Vec<FileEntry>) -> (tuples: Vec<(String, u64, String)>)
    ensures
        rows_of(tuples@) == entry_rows(entries.deep_view()),
        forall|i: int| 0 <= i < tuples@.len() ==> row_fits(#[trigger] rows_of(tuples@)[i]),
{
    let mut tuples: Vec<(String, u64, String)> = Vec::new();
    let mut i: usize = 0;
    while i < entries.len()
        invariant
            i <= entries@.len(),
            tuples@.len() == i,
            forall|j: int|
                0 <= j < i ==> (#[trigger] tuples@[j]).0@ == entries@[j].relpath@ && tuples@[j].1
                    == entries@[j].size && tuples@[j].2@ == entries@[j].sha256@,
            forall|j: int|
                0 <= j < i ==> encode_utf8((#[trigger] tuples@[j]).0@).len() <= usize::MAX
                    && encode_utf8(tuples@[j].2@).len() <= usize::MAX,
        decreases entries@.len() - i,
    {
        let e = &entries[i];
        // Taking the lengths shows that they fit in a `usize`.
        let _path_len: usize = e.relpath.as_str().as_bytes().len();
        let _digest_len: usize = e.sha256.as_str().as_bytes().len();
        tuples.push((e.relpath.clone(), e.size, e.sha256.clone()));
        i = i + 1;
    }
    proof {
        assert(rows_of(tuples@) =~= entry_rows(entries.deep_view()));
    }
    tuples
}

/// Plain tuples as a manifest's entries.
fn entries_from_tuples(tuples: Vec<(String, u64, String)>) -> (entries: Vec<FileEntry>)
    ensures
        entries.deep_view() == row_entries(rows_of(tuples@)),
{
    let mut entries: Vec<FileEntry> = Vec::new();
    let mut i: usize = 0;
    while i < tuples.len()
        invariant
            i <= tuples@.len(),
            entries@.len() == i,
            forall|j: int|
                0 <= j < i ==> (#[trigger] entries@[j]).relpath@ == tuples@[j].0@
                    && entries@[j].size == tuples@[j].1 && entries@[j].sha256@ == tuples@[j].2@,
        decreases tuples@.len() - i,
    {
        let t = &tuples[i];
        entries.push(FileEntry { relpath: t.0.clone(), size: t.1, sha256: t.2.clone() });
        i = i + 1;
    }
    proof {
        assert(entries.deep_view() =~= row_entries(rows_of(tuples@)));
    }
    entries
}

/// Write a message in its wire format. Parsing the bytes gives the message
/// back.
pub fn encode_msg(msg: &Msg) -> (bytes: Vec<u8>)
    ensures
        bytes@ == wire_bytes(msg@),
        parsed(bytes@) == Some(msg@),
{
    let bytes = match msg {
        Msg::Password { enc } => encode_bytes(0, enc.as_slice()),
        Msg::Ready => to_postcard_u32(1),
        Msg::RoomFull => to_postcard_u32(2),
        Msg::RoomJoin { room } => encode_text(3, room.as_str()),
        Msg::Manifest { entries } => encode_entries(4, entries),
        Msg::DataChunk(sealed) => encode_bytes(5, sealed.as_slice()),
        Msg::FileEnd => to_postcard_u32(6),
        Msg::Done => to_postcard_u32(7),
        Msg::Error { msg: text } => encode_text(8, text.as_str()),
    };
    proof {
        assert(bytes@ =~= wire_bytes(msg@));
        lemma_tag_is_one_byte(tag_of(msg@), wire_bytes(msg@).skip(1));
        assert(seq![tag_of(msg@) as u8] + wire_bytes(msg@).skip(1) =~= wire_bytes(msg@));
    }
    bytes
}

/// A small kind is one byte.
proof fn lemma_tag_is_one_byte(tag: u32, rest: Seq<u8>)
    requires
        tag < 128,
    ensures
        varint(tag as nat) == seq![tag as u8],
        read_u32(seq![tag as u8] + rest) == Some((tag as nat, rest)),
{
    assert((seq![tag as u8] + rest).drop_first() =~= rest);
}

/// Write a small kind and bytes.
fn encode_bytes(tag: u32, data: &[u8]) -> (bytes: Vec<u8>)
    requires
        tag < 128,
    ensures
        bytes@ == varint(tag as nat) + counted(data@),
        payload_of(bytes@.skip(1), Field::Bytes) == Some(PayloadView::Bytes(data@)),
{
    // Taking the length shows that it fits in a `usize`.
    let _len: usize = data.len();
    let bytes = to_postcard_u32_bytes(tag, data);
    proof {
        lemma_tag_is_one_byte(tag, counted(data@));
        lemma_counted_reads_back(data@, Seq::empty());
        assert(counted(data@) + Seq::<u8>::empty() =~= bytes@.skip(1));
    }
    bytes
}

/// Write a small kind and text.
fn encode_text(tag: u32, text: &str) -> (bytes: Vec<u8>)
    requires
        tag < 128,
    ensures
        bytes@ == varint(tag as nat) + counted_text(text@),
        payload_of(bytes@.skip(1), Field::Text) == Some(PayloadView::Text(text@)),
{
    // Taking the length shows that it fits in a `usize`.
    let _len: usize = text.as_bytes().len();
    let bytes = to_postcard_u32_text(tag, text);
    proof {
        lemma_tag_is_one_byte(tag, counted_text(text@));
        lemma_text_reads_back(text@, Seq::empty());
        assert(counted_text(text@) + Seq::<u8>::empty() =~= bytes@.skip(1));
    }
    bytes
}

/// Write a small kind and a manifest's entries.
fn encode_entries(tag: u32, entries: &Vec<FileEntry>) -> (bytes: Vec<u8>)
    requires
        tag < 128,
    ensures
        bytes@ == varint(tag as nat) + counted_rows(entry_rows(entries.deep_view())),
        payload_of(bytes@.skip(1), Field::Rows) == Some(
            PayloadView::Rows(entry_rows(entries.deep_view())),
        ),
        row_entries(entry_rows(entries.deep_view())) == entries.deep_view(),
{
    let tuples = tuples_from_entries(entries);
    // Taking the length shows that it fits in a `usize`.
    let _count: usize = tuples.len();
    let bytes = to_postcard_u32_rows(tag, &tuples);
    proof {
        let rows = rows_of(tuples@);
        lemma_tag_is_one_byte(tag, counted_rows(rows));
        lemma_len_reads_back(rows.len(), rows_bytes(rows));
        lemma_rows_read_back(rows, Seq::empty());
        assert(rows_bytes(rows) + Seq::<u8>::empty() =~= rows_bytes(rows));
        assert(counted_rows(rows) =~= bytes@.skip(1));
        assert(row_entries(entry_rows(entries.deep_view())) =~= entries.deep_view());
    }
    bytes
}

/// Tell what follows a message's kind on the wire.
pub fn field_after(tag: u32) -> (field: Option<Field>)
    ensures
        field == field_of(tag),
{
    if tag == 0 || tag == 5 {
        Some(Field::Bytes)
    } else if tag == 3 || tag == 8 {
        Some(Field::Text)
    } else if tag == 4 {
        Some(Field::Rows)
    } else if tag <= 7 {
        Some(Field::Nothing)
    } else {
        None
    }
}

/// Make the message of this kind with this payload, if the two belong together.
pub fn build_msg(tag: u32, payload: Payload) -> (msg: Option<Msg>)
    ensures
        msg.deep_view() == built(tag, payload@),
{
    match payload {
        Payload::Nothing => if tag == 1 {
            Some(Msg::Ready)
        } else if tag == 2 {
            Some(Msg::RoomFull)
        } else if tag == 6 {
            Some(Msg::FileEnd)
        } else if tag == 7 {
            Some(Msg::Done)
        } else {
            None
        },
        Payload::Bytes(data) => if tag == 0 {
            Some(Msg::Password { enc: data })
        } else if tag == 5 {
            Some(Msg::DataChunk(data))
        } else {
            None
        },
        Payload::Text(text) => if tag == 3 {
            Some(Msg::RoomJoin { room: text })
        } else if tag == 8 {
            Some(Msg::Error { msg: text })
        } else {
            None
        },
        Payload::Rows(rows) => if tag == 4 {
            Some(Msg::Manifest { entries: entries_from_tuples(rows) })
        } else {
            None
        },
    }
}

/// Read a message from its wire format.
pub fn decode_msg(bytes: &[u8]) -> (msg: Option<Msg>)
    ensures
        msg.deep_view() == parsed(bytes@),
{
    let tag: u32 = match from_postcard_u32(bytes) {
        Some(t) => t,
        None => return None,
    };
    let payload = match field_after(tag) {
        None => return None,
        Some(Field::Nothing) => Payload::Nothing,
        Some(Field::Bytes) => match from_postcard_u32_bytes(bytes) {
            Some((_, data)) => Payload::Bytes(data),
            None => return None,
        },
        Some(Field::Text) => match from_postcard_u32_text(bytes) {
            Some((_, text)) => Payload::Text(text),
            None => return None,
        },
        Some(Field::Rows) => match from_postcard_u32_rows(bytes) {
            Some((_, rows)) => Payload::Rows(rows),
            None => return None,
        },
    };
    build_msg(tag, payload)
}

/// Why no message came out of a frame, or why no frame came.
#[derive(Debug, Clone, Copy, PartialEq, Eq, Structural)]
pub enum RecvError {
    /// The transport failed before a frame was there.
    Transport,
    /// The frame did not open.
    Sealed(CryptoError),
    /// The frame opened, and holds no message.
    Malformed,
}

/// What is said about a failure to receive; `transport` is what the transport
/// said about its own.
pub open spec fn recv_text(e: RecvError, transport: Seq<char>) -> Seq<char> {
    match e {
        RecvError::Transport => transport,
        RecvError::Sealed(c) => crypto_text(c),
        RecvError::Malformed => "malformed message"@,
    }
}

impl RecvError {
    /// What is said about it; `transport` is what the transport said.
    pub fn text(&self, transport: &str) -> (text: String)
        ensures
            text@ == recv_text(*self, transport@),
    {
        match self {
            RecvError::Transport => transport.to_owned(),
            RecvError::Sealed(c) => c.text(),
            RecvError::Malformed => "malformed message".to_owned(),
        }
    }
}

/// What a received message, the end of the stream or a failure says.
pub open spec fn incoming_view(incoming: Result<Option<Msg>, RecvError>) -> Result<
    Option<MsgView>,
    RecvError,
> {
    match incoming {
        Ok(msg) => Ok(msg.deep_view()),
        Err(e) => Err(e),
    }
}

/// What a frame says under `key`.
pub open spec fn frame_says(key: Seq<u8>, frame: Seq<u8>) -> Result<MsgView, RecvError> {
    match opened(key, frame) {
        Err(e) => Err(RecvError::Sealed(e)),
        Ok(plain) => match parsed(plain) {
            Some(msg) => Ok(msg),
            None => Err(RecvError::Malformed),
        },
    }
}

/// What comes in with a frame under `key`.
pub open spec fn frame_incoming(key: Seq<u8>, frame: Seq<u8>) -> Result<Option<MsgView>, RecvError> {
    match frame_says(key, frame) {
        Ok(msg) => Ok(Some(msg)),
        Err(e) => Err(e),
    }
}

/// Write and seal a message as one frame, under a fresh nonce. Opening the
/// frame with the same key gives the message back. There is no frame for a
/// message longer than what one nonce can seal.
pub fn seal_msg(key: &[u8; 32], msg: &Msg) -> (frame: Option<Vec<u8>>)
    ensures
        frame is Some <==> wire_bytes(msg@).len() <= MAX_PLAINTEXT,
        frame matches Some(f) ==> {
            &&& f@ == envelope(key@, f@.take(NONCE_LEN as int), wire_bytes(msg@))
            &&& exists|nonce: [u8; 12]| #[trigger] drawn(nonce) && nonce@ == f@.take(12)
            &&& frame_says(key@, f@) == Ok::<MsgView, RecvError>(msg@)
        },
{
    let bytes = encode_msg(msg);
    if bytes.len() as u64 > MAX_PLAINTEXT {
        return None;
    }
    Some(encrypt(key, bytes.as_slice()))
}

/// What a frame comes to that opened and was read, or that did not open.
pub fn frame_result(read: Result<Option<Msg>, CryptoError>) -> (result: Result<Msg, RecvError>)
    ensures
        match read {
            Ok(Some(msg)) => result matches Ok(m) && m@ == msg@,
            Ok(None) => result matches Err(RecvError::Malformed),
            Err(e) => result matches Err(RecvError::Sealed(f)) && f == e,
        },
{
    match read {
        Ok(Some(msg)) => Ok(msg),
        Ok(None) => Err(RecvError::Malformed),
        Err(e) => Err(RecvError::Sealed(e)),
    }
}

/// Open a frame and read its message.
pub fn open_msg(key: &[u8; 32], frame: &[u8]) -> (result: Result<Msg, RecvError>)
    ensures
        match result {
            Ok(msg) => frame_says(key@, frame@) == Ok::<MsgView, RecvError>(msg@),
            Err(e) => frame_says(key@, frame@) == Err::<MsgView, RecvError>(e),
        },
{
    match decrypt(key, frame) {
        Ok(plain) => frame_result(Ok(decode_msg(plain.as_slice()))),
        Err(e) => frame_result(Err(e)),
    }
}

/// What the next frame of a stream, or its end, says.
pub fn open_next(key: &[u8; 32], frame: Option<Vec<u8>>) -> (result: Result<
    Option<Msg>,
    RecvError,
>)
    ensures
        match frame {
            None => result matches Ok(None),
            Some(f) => match result {
                Ok(msg) => msg matches Some(m) && frame_says(key@, f@) == Ok::<MsgView, RecvError>(
                    m@,
                ),
                Err(e) => frame_says(key@, f@) == Err::<MsgView, RecvError>(e),
            },
        },
{
    match frame {
        None => Ok(None),
        Some(f) => match open_msg(key, f.as_slice()) {
            Ok(msg) => Ok(Some(msg)),
            Err(e) => Err(e),
        },
    }
}

/// What an entry says is all that it holds.
pub proof fn law_entry_says_all(entry: FileEntry)
    ensures
        entry@ == (EntryView {
            relpath: entry.relpath@,
            size: entry.size,
            sha256: entry.sha256@,
        }),
        entry.deep_view() == entry@,
{
}

/// What a message says is all that it holds.
pub proof fn law_message_says_all(
    bytes: Vec<u8>,
    text: String,
    entries: Vec<FileEntry>,
    i: int,
)
    ensures
        (Msg::Password { enc: bytes })@ == (MsgView::Password { enc: bytes@ }),
        Msg::Ready@ == MsgView::Ready,
        Msg::RoomFull@ == MsgView::RoomFull,
        (Msg::RoomJoin { room: text })@ == (MsgView::RoomJoin { room: text@ }),
        (Msg::Manifest { entries })@ matches MsgView::Manifest { entries: list } && list.len()
            == entries@.len() && (0 <= i < list.len() ==> list[i] == entries@[i]@),
        Msg::DataChunk(bytes)@ == MsgView::DataChunk(bytes@),
        Msg::FileEnd@ == MsgView::FileEnd,
        Msg::Done@ == MsgView::Done,
        (Msg::Error { msg: text })@ == (MsgView::Error { msg: text@ }),
{
}

/// What was read after a kind says all that it holds.
pub proof fn law_payload_says_all(
    bytes: Vec<u8>,
    text: String,
    rows: Vec<(String, u64, String)>,
    i: int,
)
    ensures
        Payload::Nothing@ == PayloadView::Nothing,
        Payload::Bytes(bytes)@ == PayloadView::Bytes(bytes@),
        Payload::Text(text)@ == PayloadView::Text(text@),
        Payload::Rows(rows)@ matches PayloadView::Rows(list) && list.len() == rows@.len() && (0 <= i
            < list.len() ==> list[i] == (rows@[i].0@, rows@[i].1, rows@[i].2@)),
{
}

/// Rows and entries hold the same fields, one for one.
pub proof fn law_rows_are_entries(entries: Seq<EntryView>, rows: Seq<Row>, i: int)
    ensures
        entry_rows(entries).len() == entries.len(),
        0 <= i < entries.len() ==> entry_rows(entries)[i] == (
            entries[i].relpath,
            entries[i].size,
            entries[i].sha256,
        ),
        row_entries(entry_rows(entries)) == entries,
        row_entries(rows).len() == rows.len(),
        0 <= i < rows.len() ==> row_entries(rows)[i] == (EntryView {
            relpath: rows[i].0,
            size: rows[i].1,
            sha256: rows[i].2,
        }),
{
    assert(row_entries(entry_rows(entries)) =~= entries);
}

/// On the wire, a list has its length in front and all of its elements behind.
pub proof fn law_layout_of_lists(bytes: Seq<u8>, text: Seq<char>, rows: Seq<Row>, row: Row)
    ensures
        counted(bytes) == varint(bytes.len()) + bytes,
        counted_text(text) == varint(encode_utf8(text).len()) + encode_utf8(text),
        row_bytes(row) == counted_text(row.0) + varint(row.1 as nat) + counted_text(row.2),
        counted_rows(rows) == varint(rows.len()) + rows_bytes(rows),
        rows_bytes(Seq::<Row>::empty()) == Seq::<u8>::empty(),
        rows_bytes(seq![row] + rows) == row_bytes(row) + rows_bytes(rows),
{
    let all = seq![row] + rows;
    assert(all.first() == row);
    assert(all.drop_first() =~= rows);
}

/// A message on the wire is one byte for its kind and then its whole field.
pub proof fn law_wire_is_kind_and_field(
    bytes: Seq<u8>,
    text: Seq<char>,
    entries: Seq<EntryView>,
)
    ensures
        wire_bytes(MsgView::Password { enc: bytes }) == seq![0u8] + counted(bytes),
        wire_bytes(MsgView::Ready) == seq![1u8],
        wire_bytes(MsgView::RoomFull) == seq![2u8],
        wire_bytes(MsgView::RoomJoin { room: text }) == seq![3u8] + counted_text(text),
        wire_bytes(MsgView::Manifest { entries }) == seq![4u8] + counted_rows(entry_rows(entries)),
        wire_bytes(MsgView::DataChunk(bytes)) == seq![5u8] + counted(bytes),
        wire_bytes(MsgView::FileEnd) == seq![6u8],
        wire_bytes(MsgView::Done) == seq![7u8],
        wire_bytes(MsgView::Error { msg: text }) == seq![8u8] + counted_text(text),
{
    lemma_tag_is_one_byte(0, Seq::empty());
    lemma_tag_is_one_byte(1, Seq::empty());
    lemma_tag_is_one_byte(2, Seq::empty());
    lemma_tag_is_one_byte(3, Seq::empty());
    lemma_tag_is_one_byte(4, Seq::empty());
    lemma_tag_is_one_byte(5, Seq::empty());
    lemma_tag_is_one_byte(6, Seq::empty());
    lemma_tag_is_one_byte(7, Seq::empty());
    lemma_tag_is_one_byte(8, Seq::empty());
    assert(wire_bytes(MsgView::Ready) =~= seq![1u8]);
    assert(wire_bytes(MsgView::RoomFull) =~= seq![2u8]);
    assert(wire_bytes(MsgView::FileEnd) =~= seq![6u8]);
    assert(wire_bytes(MsgView::Done) =~= seq![7u8]);
}

/// Numbers, bytes and text that were written read back as they were, and what
/// follows them is left.
pub proof fn law_fields_read_back(n: u32, big: u64, data: Seq<u8>, text: Seq<char>, rest: Seq<u8>)
    requires
        data.len() <= usize::MAX,
        encode_utf8(text).len() <= usize::MAX,
    ensures
        read_u32(varint(n as nat) + rest) == Some((n as nat, rest)),
        read_u64(varint(big as nat) + rest) == Some((big as nat, rest)),
        read_counted(counted(data) + rest) == Some((data, rest)),
        read_text(counted_text(text) + rest) == Some((text, rest)),
{
    assert(n < varint_limit(5, 15) && big < varint_limit(10, 1)) by {
        reveal_with_fuel(varint_limit, 11);
    }
    lemma_varint_reads_back(n as nat, 5, 15, rest);
    lemma_varint_reads_back(big as nat, 10, 1, rest);
    lemma_counted_reads_back(data, rest);
    lemma_text_reads_back(text, rest);
}

/// Bytes hold the message that their kind and the field behind it make, whatever
/// follows; with an unknown kind, or a field that is not whole, they hold none.
pub proof fn law_message_goes_by_its_kind(bytes: Seq<u8>)
    ensures
        match read_u32(bytes) {
            None => parsed(bytes) is None,
            Some((tag, rest)) => {
                &&& tag == 0 ==> parsed(bytes) == match read_counted(rest) {
                    Some((enc, _)) => Some(MsgView::Password { enc }),
                    None => None,
                }
                &&& tag == 1 ==> parsed(bytes) == Some(MsgView::Ready)
                &&& tag == 2 ==> parsed(bytes) == Some(MsgView::RoomFull)
                &&& tag == 3 ==> parsed(bytes) == match read_text(rest) {
                    Some((room, _)) => Some(MsgView::RoomJoin { room }),
                    None => None,
                }
                &&& tag == 4 ==> parsed(bytes) == match read_counted_rows(rest) {
                    Some(rows) => Some(MsgView::Manifest { entries: row_entries(rows) }),
                    None => None,
                }
                &&& tag == 5 ==> parsed(bytes) == match read_counted(rest) {
                    Some((sealed, _)) => Some(MsgView::DataChunk(sealed)),
                    None => None,
                }
                &&& tag == 6 ==> parsed(bytes) == Some(MsgView::FileEnd)
                &&& tag == 7 ==> parsed(bytes) == Some(MsgView::Done)
                &&& tag == 8 ==> parsed(bytes) == match read_text(rest) {
                    Some((msg, _)) => Some(MsgView::Error { msg }),
                    None => None,
                }
                &&& tag > 8 ==> parsed(bytes) is None
            },
        },
{
    lemma_u32_fits(bytes, 5);
}

/// What is read as a number of so many digits is below what they hold.
proof fn lemma_u32_fits(bytes: Seq<u8>, digits: nat)
    requires
        digits <= 5,
    ensures
        read_varint(bytes, digits, 15) matches Some((n, _)) ==> n < varint_limit(digits, 15),
        varint_limit(5, 15) == 0x1_0000_0000,
    decreases digits,
{
    reveal_with_fuel(varint_limit, 6);
    if digits > 0 && bytes.len() > 0 {
        lemma_u32_fits(bytes.drop_first(), (digits - 1) as nat);
    }
}

/// A kind and the field behind it make a message exactly where they belong
/// together, and the message holds the whole field.
pub proof fn law_kinds_and_fields(
    tag: u32,
    bytes: Seq<u8>,
    text: Seq<char>,
    rows: Seq<Row>,
)
    ensures
        field_of(tag) == Some(Field::Bytes) <==> tag == 0 || tag == 5,
        field_of(tag) == Some(Field::Text) <==> tag == 3 || tag == 8,
        field_of(tag) == Some(Field::Rows) <==> tag == 4,
        field_of(tag) == Some(Field::Nothing) <==> tag == 1 || tag == 2 || tag == 6 || tag == 7,
        field_of(tag) is None <==> tag > 8,
        built(tag, PayloadView::Bytes(bytes)) == if tag == 0 {
            Some(MsgView::Password { enc: bytes })
        } else if tag == 5 {
            Some(MsgView::DataChunk(bytes))
        } else {
            None
        },
        built(tag, PayloadView::Text(text)) == if tag == 3 {
            Some(MsgView::RoomJoin { room: text })
        } else if tag == 8 {
            Some(MsgView::Error { msg: text })
        } else {
            None
        },
        built(tag, PayloadView::Rows(rows)) == if tag == 4 {
            Some(MsgView::Manifest { entries: row_entries(rows) })
        } else {
            None
        },
        built(tag, PayloadView::Nothing) == if tag == 1 {
            Some(MsgView::Ready)
        } else if tag == 2 {
            Some(MsgView::RoomFull)
        } else if tag == 6 {
            Some(MsgView::FileEnd)
        } else if tag == 7 {
            Some(MsgView::Done)
        } else {
            None
        },
{
}

/// A frame says what its whole plaintext holds, and nothing where it does not
/// open or holds no message.
pub proof fn law_frame_says_its_plaintext(key: Seq<u8>, frame: Seq<u8>)
    ensures
        match opened(key, frame) {
            Err(e) => frame_says(key, frame) == Err::<MsgView, RecvError>(RecvError::Sealed(e)),
            Ok(plain) => match parsed(plain) {
                Some(msg) => frame_says(key, frame) == Ok::<MsgView, RecvError>(msg),
                None => frame_says(key, frame) == Err::<MsgView, RecvError>(RecvError::Malformed),
            },
        },
        match frame_says(key, frame) {
            Ok(msg) => frame_incoming(key, frame) == Ok::<Option<MsgView>, RecvError>(Some(msg)),
            Err(e) => frame_incoming(key, frame) == Err::<Option<MsgView>, RecvError>(e),
        },
{
}

/// What came in says all that came in.
pub proof fn law_incoming_says_all(msg: Msg, e: RecvError)
    ensures
        incoming_view(Ok(Some(msg))) == Ok::<Option<MsgView>, RecvError>(Some(msg@)),
        incoming_view(Ok(None)) == Ok::<Option<MsgView>, RecvError>(None),
        incoming_view(Err(e)) == Err::<Option<MsgView>, RecvError>(e),
{
}

/// Why nothing was received is told whole.
pub proof fn law_receive_failure_is_told_whole(e: CryptoError, transport: Seq<char>)
    ensures
        recv_text(RecvError::Transport, transport) == transport,
        recv_text(RecvError::Sealed(e), transport) == crypto_text(e),
        recv_text(RecvError::Malformed, transport) == "malformed message"@,
{
}

/// Rows that were written read back as they were, whatever follows them.
pub proof fn law_rows_read_back(rows: Seq<Row>, rest: Seq<u8>)
    requires
        rows.len() <= usize::MAX,
        forall|i: int|
            0 <= i < rows.len() ==> encode_utf8((#[trigger] rows[i]).0).len() <= usize::MAX
                && encode_utf8(rows[i].2).len() <= usize::MAX,
    ensures
        read_counted_rows(counted_rows(rows) + rest) == Some(rows),
{
    assert forall|i: int| 0 <= i < rows.len() implies row_fits(#[trigger] rows[i]) by {}
    assert(counted_rows(rows) + rest =~= varint(rows.len()) + (rows_bytes(rows) + rest));
    lemma_len_reads_back(rows.len(), rows_bytes(rows) + rest);
    lemma_rows_read_back(rows, rest);
}

/// A number is read digit by digit, the low one first, up to the first byte
/// without the top bit; it is refused where the bytes or the digits run out.
pub proof fn law_number_is_read_by_its_digits(b: u8, rest: Seq<u8>, digits: nat, last: u8)
    ensures
        read_varint(Seq::<u8>::empty(), digits, last) is None,
        read_varint(seq![b] + rest, 0, last) is None,
        b < 128 && (digits > 0 || b <= last) ==> read_varint(seq![b] + rest, digits + 1, last)
            == Some((b as nat, rest)),
        b < 128 && digits == 0 && b > last ==> read_varint(seq![b] + rest, digits + 1, last) is None,
        b >= 128 ==> match read_varint(rest, digits, last) {
            Some((high, after)) => read_varint(seq![b] + rest, digits + 1, last) == Some(
                ((b - 128 + 128 * high) as nat, after),
            ),
            None => read_varint(seq![b] + rest, digits + 1, last) is None,
        },
{
    assert((seq![b] + rest).drop_first() =~= rest);
}

/// Bytes with their number in front are read only where all of them are there,
/// and text only where they are UTF-8.
pub proof fn law_fields_are_read_whole(bytes: Seq<u8>)
    ensures
        read_u32(bytes) == read_varint(bytes, 5, 15),
        read_u64(bytes) == read_varint(bytes, 10, 1),
        match read_len(bytes) {
            None => read_counted(bytes) is None && read_counted_rows(bytes) is None,
            Some((n, rest)) => {
                &&& n > rest.len() ==> read_counted(bytes) is None
                &&& n <= rest.len() ==> (read_counted(bytes) matches Some((data, after))
                    && data.len() == n && data + after == rest)
                &&& read_counted_rows(bytes) == read_rows(rest, n)
            },
        },
        match read_counted(bytes) {
            Some((data, rest)) if valid_utf8(data) => read_text(bytes) == Some(
                (decode_utf8(data), rest),
            ),
            _ => read_text(bytes) is None,
        },
{
    if read_len(bytes) is Some {
        let (n, rest) = read_len(bytes)->0;
        if n <= rest.len() {
            assert(rest.take(n as int) + rest.skip(n as int) =~= rest);
        }
    }
}

} // verus!
