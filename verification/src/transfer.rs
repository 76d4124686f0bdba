//! A transfer between two peers: the sender announces its files in a manifest,
//! streams each file's chunks followed by `FileEnd`, and ends with `Done`; the
//! receiver rebuilds the files and checks each against its SHA-256.
//!
//! Chunks are sealed with the file key, which is derived from the code that the
//! two peers share.

use crate::crypto::{
    crypto_text, decrypt, derive_key, derived_key, digest_text, drawn, encrypt, envelope, hex_text,
    opened, sha256, CryptoError, FileDigest, NONCE_LEN, TAG_LEN,
};
use crate::framed::{
    frame_incoming, frame_says, incoming_view, EntryView, FileEntry, Msg, MsgView, RecvError,
};
use crate::paths::{
    is_plain, is_safe, law_safe_path_stays_inside, safe_path, safe_relpath_on, Platform,
};
use crate::text::phrase;
use vstd::prelude::*;
use vstd::string::StringExecFns;
use vstd::utf8::encode_utf8;

verus! {

/// How many bytes of a file are read, sealed and sent at once.
pub const CHUNK: usize = 65_536;

/// How many bytes these files hold together.
pub open spec fn total_len(files: Seq<Seq<u8>>) -> nat
    decreases files.len(),
{
    if files.len() == 0 {
        0
    } else {
        total_len(files.drop_last()) + files.last().len()
    }
}

/// What the chunks of a file hold together under `key`, if all of them open.
pub open spec fn plain_of(key: Seq<u8>, chunks: Seq<Seq<u8>>) -> Option<Seq<u8>>
    decreases chunks.len(),
{
    if chunks.len() == 0 {
        Some(Seq::<u8>::empty())
    } else {
        match (plain_of(key, chunks.drop_last()), opened(key, chunks.last())) {
            (Some(front), Ok(piece)) => Some(front + piece),
            _ => None,
        }
    }
}

/// The messages that carry these chunks.
pub open spec fn chunk_msgs(chunks: Seq<Seq<u8>>) -> Seq<MsgView> {
    chunks.map_values(|sealed: Seq<u8>| MsgView::DataChunk(sealed))
}

/// The messages that carry whole files, each given by its chunks.
pub open spec fn file_msgs(files: Seq<Seq<Seq<u8>>>) -> Seq<MsgView>
    decreases files.len(),
{
    if files.len() == 0 {
        Seq::<MsgView>::empty()
    } else {
        file_msgs(files.drop_last()) + chunk_msgs(files.last()).push(MsgView::FileEnd)
    }
}

/// What a sender has done so far.
pub struct SendView {
    /// The key that seals the chunks.
    pub key: Seq<u8>,
    /// The files to send.
    pub entries: Seq<EntryView>,
    /// The chunks of the files that are finished.
    pub files: Seq<Seq<Seq<u8>>>,
    /// What was read of those files.
    pub contents: Seq<Seq<u8>>,
    /// The chunks of the current file.
    pub chunks: Seq<Seq<u8>>,
    /// What was read of the current file.
    pub current: Seq<u8>,
}

/// The messages that a sender has handed out so far.
pub open spec fn said(s: SendView) -> Seq<MsgView> {
    seq![MsgView::Manifest { entries: s.entries }] + file_msgs(s.files) + chunk_msgs(s.chunks)
}

/// What holds of every sender: its chunks open under its key to what was read.
pub open spec fn faithful(s: SendView) -> bool {
    &&& s.files.len() == s.contents.len()
    &&& s.files.len() <= s.entries.len()
    &&& forall|i: int|
        0 <= i < s.files.len() ==> plain_of(s.key, #[trigger] s.files[i]) == Some(s.contents[i])
    &&& plain_of(s.key, s.chunks) == Some(s.current)
    &&& s.files.len() == s.entries.len() ==> s.chunks.len() == 0
}

/// The sending side of a transfer.
pub struct Sender {
    file_key: [u8; 32],
    entries: Vec<FileEntry>,
    index: usize,
    sent: u64,
    total: u64,
    history: Ghost<SendView>,
}

impl View for Sender {
    type V = SendView;

    closed spec fn view(&self) -> SendView {
        self.history@
    }
}

impl Sender {
    /// The counters and the history agree.
    pub closed spec fn wf(&self) -> bool {
        &&& faithful(self@)
        &&& self@.key == self.file_key@
        &&& self@.entries == self.entries.deep_view()
        &&& self@.files.len() == self.index
        &&& self@.current.len() == self.sent
        &&& total_len(self@.contents) + self@.current.len() == self.total
    }

    /// What a sender says is faithful to what was read, so that the laws on
    /// whole transfers apply to it.
    pub proof fn law_is_faithful(&self)
        requires
            self.wf(),
        ensures
            faithful(self@),
    {
    }

    /// Begin a transfer of these files to a peer with the same code. The
    /// manifest is the first message.
    pub fn start(code: &str, entries: Vec<FileEntry>) -> (result: (Sender, Msg))
        ensures
            result.0.wf(),
            result.0@ == (SendView {
                key: derived_key(encode_utf8(code@)),
                entries: entries.deep_view(),
                files: Seq::empty(),
                contents: Seq::empty(),
                chunks: Seq::empty(),
                current: Seq::empty(),
            }),
            result.1@ == (MsgView::Manifest { entries: entries.deep_view() }),
            said(result.0@) == seq![result.1@],
    {
        let file_key = derive_key(code.as_bytes());
        let listed = copy_entries(&entries);
        let history = Ghost(
            SendView {
                key: file_key@,
                entries: entries.deep_view(),
                files: Seq::empty(),
                contents: Seq::empty(),
                chunks: Seq::empty(),
                current: Seq::empty(),
            },
        );
        let sender = Sender { file_key, entries, index: 0, sent: 0, total: 0, history };
        proof {
            assert(said(sender@) =~= seq![MsgView::Manifest { entries: entries.deep_view() }]);
        }
        (sender, Msg::Manifest { entries: listed })
    }

    /// Which file is to be read next, or nothing when all were sent.
    pub fn pending(&self) -> (index: Option<usize>)
        requires
            self.wf(),
        ensures
            match index {
                Some(i) => i == self@.files.len() && i < self@.entries.len(),
                None => self@.files.len() == self@.entries.len(),
            },
    {
        if self.index < self.entries.len() {
            Some(self.index)
        } else {
            None
        }
    }

    /// How many bytes of the current file were sent.
    pub fn sent(&self) -> (bytes: u64)
        requires
            self.wf(),
        ensures
            bytes == self@.current.len(),
    {
        self.sent
    }

    /// How many bytes were sent of all files.
    pub fn total(&self) -> (bytes: u64)
        requires
            self.wf(),
        ensures
            bytes == total_len(self@.contents) + self@.current.len(),
    {
        self.total
    }

    /// Turn the next read of the current file into the message that carries it:
    /// a sealed chunk, or the end of the file where nothing was left to read.
    pub fn push(&mut self, data: &[u8]) -> (msg: Msg)
        requires
            old(self).wf(),
            old(self)@.files.len() < old(self)@.entries.len(),
            data@.len() <= CHUNK,
            total_len(old(self)@.contents) + old(self)@.current.len() + data@.len() <= u64::MAX,
        ensures
            final(self).wf(),
            said(final(self)@) == said(old(self)@).push(msg@),
            data@.len() == 0 ==> {
                &&& msg@ == MsgView::FileEnd
                &&& final(self)@ == (SendView {
                    files: old(self)@.files.push(old(self)@.chunks),
                    contents: old(self)@.contents.push(old(self)@.current),
                    chunks: Seq::empty(),
                    current: Seq::empty(),
                    ..old(self)@
                })
            },
            data@.len() > 0 ==> {
                &&& msg@ matches MsgView::DataChunk(sealed) && sealed == envelope(
                    old(self)@.key,
                    sealed.take(NONCE_LEN as int),
                    data@,
                ) && (exists|nonce: [u8; 12]| #[trigger]
                    drawn(nonce) && nonce@ == sealed.take(12)) && sealed.len() == NONCE_LEN
                    + data@.len() + TAG_LEN && opened(
                    old(self)@.key,
                    sealed,
                ) == Ok::<Seq<u8>, CryptoError>(data@)
                    && final(self)@ == (SendView {
                    chunks: old(self)@.chunks.push(sealed),
                    current: old(self)@.current + data@,
                    ..old(self)@
                })
            },
    {
        let ghost before = self@;
        if data.len() == 0 {
            let count: usize = self.entries.len();
            assert(self.index < count);
            self.history = Ghost(
                SendView {
                    files: before.files.push(before.chunks),
                    contents: before.contents.push(before.current),
                    chunks: Seq::empty(),
                    current: Seq::empty(),
                    ..before
                },
            );
            self.index = self.index + 1;
            self.sent = 0;
            proof {
                assert(self@.files.drop_last() =~= before.files);
                assert(self@.contents.drop_last() =~= before.contents);
                assert(said(self@) =~= said(before).push(MsgView::FileEnd));
            }
            return Msg::FileEnd;
        }
        let sealed = encrypt(&self.file_key, data);
        let ghost blob = sealed@;
        self.history = Ghost(
            SendView { chunks: before.chunks.push(blob), current: before.current + data@, ..before },
        );
        self.sent = self.sent + data.len() as u64;
        self.total = self.total + data.len() as u64;
        proof {
            assert(self@.chunks.drop_last() =~= before.chunks);
            assert(chunk_msgs(self@.chunks) =~= chunk_msgs(before.chunks).push(
                MsgView::DataChunk(blob),
            ));
            assert(said(self@) =~= said(before).push(MsgView::DataChunk(blob)));
        }
        Msg::DataChunk(sealed)
    }

    /// End the transfer when all files were sent: the last message, the number
    /// of files and the number of bytes.
    pub fn finish(self) -> (result: (Msg, usize, u64))
        requires
            self.wf(),
            self@.files.len() == self@.entries.len(),
        ensures
            result.0@ == MsgView::Done,
            result.1 == self@.entries.len(),
            result.2 == total_len(self@.contents),
    {
        (Msg::Done, self.entries.len(), self.total)
    }
}

/// The same entries once more.
fn copy_entries(entries: &Vec<FileEntry>) -> (copy: Vec<FileEntry>)
    ensures
        copy.deep_view() == entries.deep_view(),
{
    let mut copy: Vec<FileEntry> = Vec::new();
    let mut i: usize = 0;
    while i < entries.len()
        invariant
            i <= entries@.len(),
            copy@.len() == i,
            forall|j: int| 0 <= j < i ==> (#[trigger] copy@[j])@ == entries@[j]@,
        decreases entries@.len() - i,
    {
        copy.push(entries[i].clone());
        i = i + 1;
    }
    proof {
        assert(copy.deep_view() =~= entries.deep_view());
    }
    copy
}

/// Why a receiver gave up.
#[derive(Debug)]
pub enum ReceiveError {
    /// No message could be read.
    Receive(RecvError),
    /// The sender reported an error.
    SenderError { msg: String },
    /// Something else, or the end of the stream, came in place of the manifest.
    ExpectedManifest(Option<Msg>),
    /// A chunk did not open: the peers' codes differ, or it was altered.
    Unreadable(CryptoError),
    /// Something else, or the end of the stream, came inside a file.
    Unexpected(Option<Msg>),
    /// A file is not what the manifest announced.
    Integrity { relpath: String, expected: String, actual: String },
    /// Something else, or the end of the stream, came in place of `Done`.
    ExpectedDone(Option<Msg>),
}

/// What a [`ReceiveError`] says.
pub enum ErrorView {
    Receive(RecvError),
    SenderError { msg: Seq<char> },
    ExpectedManifest(Option<MsgView>),
    Unreadable(CryptoError),
    Unexpected(Option<MsgView>),
    Integrity { relpath: Seq<char>, expected: Seq<char>, actual: Seq<char> },
    ExpectedDone(Option<MsgView>),
}

impl View for ReceiveError {
    type V = ErrorView;

    open spec fn view(&self) -> ErrorView {
        match self {
            ReceiveError::Receive(e) => ErrorView::Receive(*e),
            ReceiveError::SenderError { msg } => ErrorView::SenderError { msg: msg@ },
            ReceiveError::ExpectedManifest(msg) => ErrorView::ExpectedManifest(msg.deep_view()),
            ReceiveError::Unreadable(e) => ErrorView::Unreadable(*e),
            ReceiveError::Unexpected(msg) => ErrorView::Unexpected(msg.deep_view()),
            ReceiveError::Integrity { relpath, expected, actual } => ErrorView::Integrity {
                relpath: relpath@,
                expected: expected@,
                actual: actual@,
            },
            ReceiveError::ExpectedDone(msg) => ErrorView::ExpectedDone(msg.deep_view()),
        }
    }
}

/// What is said about a file that is not what the manifest announced.
pub open spec fn integrity_text(relpath: Seq<char>, expected: Seq<char>, actual: Seq<char>) -> Seq<
    char,
> {
    "integrity check failed for "@ + relpath + ": expected "@ + expected + ", got "@ + actual
}

/// What is said about a transfer that failed; `detail` shows the message that
/// came, or says why none could be read.
pub open spec fn receive_text(e: ErrorView, detail: Seq<char>) -> Seq<char> {
    match e {
        ErrorView::Receive(_) => detail,
        ErrorView::SenderError { msg } => "sender error: "@ + msg,
        ErrorView::ExpectedManifest(_) => "expected Manifest, got "@ + detail,
        ErrorView::Unreadable(c) => crypto_text(c),
        ErrorView::Unexpected(_) => "unexpected message: "@ + detail,
        ErrorView::Integrity { relpath, expected, actual } => integrity_text(
            relpath,
            expected,
            actual,
        ),
        ErrorView::ExpectedDone(_) => "expected Done, got "@ + detail,
    }
}

/// What a receiver that gives up tells the sender.
pub open spec fn reported(e: ErrorView) -> Option<MsgView> {
    match e {
        ErrorView::Integrity { relpath, expected, actual } => Some(
            MsgView::Error { msg: integrity_text(relpath, expected, actual) },
        ),
        _ => None,
    }
}

/// Say that a file is not what the manifest announced.
fn say_integrity(relpath: &str, expected: &str, actual: &str) -> (text: String)
    ensures
        text@ == integrity_text(relpath@, expected@, actual@),
{
    let mut text = "integrity check failed for ".to_owned();
    text.append(relpath);
    text.append(": expected ");
    text.append(expected);
    text.append(", got ");
    text.append(actual);
    text
}

impl ReceiveError {
    /// What is said about it; `detail` shows the message that came, or says why
    /// none could be read.
    pub fn text(&self, detail: &str) -> (text: String)
        ensures
            text@ == receive_text(self@, detail@),
    {
        match self {
            ReceiveError::Receive(_) => detail.to_owned(),
            ReceiveError::SenderError { msg } => phrase("sender error: ", msg.as_str()),
            ReceiveError::ExpectedManifest(_) => phrase("expected Manifest, got ", detail),
            ReceiveError::Unreadable(c) => c.text(),
            ReceiveError::Unexpected(_) => phrase("unexpected message: ", detail),
            ReceiveError::Integrity { relpath, expected, actual } => say_integrity(
                relpath.as_str(),
                expected.as_str(),
                actual.as_str(),
            ),
            ReceiveError::ExpectedDone(_) => phrase("expected Done, got ", detail),
        }
    }

    /// The message to send to the peer before giving up, if there is one: a
    /// file that fails its check is reported.
    pub fn report(&self) -> (msg: Option<Msg>)
        ensures
            msg.deep_view() == reported(self@),
    {
        match self {
            ReceiveError::Integrity { relpath, expected, actual } => Some(
                Msg::Error {
                    msg: say_integrity(relpath.as_str(), expected.as_str(), actual.as_str()),
                },
            ),
            _ => None,
        }
    }
}

/// What a receiver does about a message.
#[derive(Debug)]
pub enum ReceiveStep {
    /// The manifest is there: create the first file under this path, if there
    /// is one.
    Started { first: Option<String> },
    /// Append this to the current file.
    Data(Vec<u8>),
    /// The current file is complete and verified: create the next one under
    /// this path, if there is one.
    FileDone { next: Option<String> },
    /// All files are there.
    Complete { files: usize, bytes: u64 },
    /// Give up.
    Failed(ReceiveError),
}

/// What a [`ReceiveStep`] says.
pub enum StepView {
    Started { first: Option<Seq<char>> },
    Data(Seq<u8>),
    FileDone { next: Option<Seq<char>> },
    Complete { files: nat, bytes: nat },
    Failed(ErrorView),
}

/// What an optional path says.
pub open spec fn path_view(path: Option<String>) -> Option<Seq<char>> {
    match path {
        Some(p) => Some(p@),
        None => None,
    }
}

impl View for ReceiveStep {
    type V = StepView;

    open spec fn view(&self) -> StepView {
        match self {
            ReceiveStep::Started { first } => StepView::Started { first: path_view(*first) },
            ReceiveStep::Data(data) => StepView::Data(data@),
            ReceiveStep::FileDone { next } => StepView::FileDone { next: path_view(*next) },
            ReceiveStep::Complete { files, bytes } => StepView::Complete {
                files: *files as nat,
                bytes: *bytes as nat,
            },
            ReceiveStep::Failed(e) => StepView::Failed(e@),
        }
    }
}

/// How far a receiver has come.
pub struct RecvView {
    /// The key that opens the chunks.
    pub key: Seq<u8>,
    /// Whose rules for paths the files are stored by.
    pub platform: Platform,
    /// The files announced, once they are.
    pub entries: Option<Seq<EntryView>>,
    /// The content of the files that are complete and verified.
    pub finished: Seq<Seq<u8>>,
    /// The content of the current file so far.
    pub current: Seq<u8>,
    /// Whether the transfer has ended, well or badly.
    pub over: bool,
}

/// A receiver that nothing came to yet.
pub open spec fn fresh(key: Seq<u8>, platform: Platform) -> RecvView {
    RecvView {
        key,
        platform,
        entries: None,
        finished: Seq::empty(),
        current: Seq::empty(),
        over: false,
    }
}

/// The path of the file at `index`, if there is one.
pub open spec fn path_at(platform: Platform, entries: Seq<EntryView>, index: int) -> Option<
    Seq<char>,
> {
    if 0 <= index < entries.len() {
        Some(safe_path(platform, entries[index].relpath))
    } else {
        None
    }
}

/// Giving up.
pub open spec fn given_up(s: RecvView, e: ErrorView) -> (RecvView, StepView) {
    (RecvView { over: true, ..s }, StepView::Failed(e))
}

/// What a receiver does about the next message, or about the end of the stream
/// or a failure in its place.
pub open spec fn received(s: RecvView, incoming: Result<Option<MsgView>, RecvError>) -> (
    RecvView,
    StepView,
) {
    match incoming {
        Err(e) => given_up(s, ErrorView::Receive(e)),
        Ok(msg) => match s.entries {
            None => match msg {
                Some(MsgView::Manifest { entries }) => (
                    RecvView { entries: Some(entries), ..s },
                    StepView::Started { first: path_at(s.platform, entries, 0) },
                ),
                Some(MsgView::Error { msg: text }) => given_up(
                    s,
                    ErrorView::SenderError { msg: text },
                ),
                other => given_up(s, ErrorView::ExpectedManifest(other)),
            },
            Some(entries) => if s.finished.len() < entries.len() {
                let entry = entries[s.finished.len() as int];
                match msg {
                    Some(MsgView::DataChunk(sealed)) => match opened(s.key, sealed) {
                        Ok(plain) => (
                            RecvView { current: s.current + plain, ..s },
                            StepView::Data(plain),
                        ),
                        Err(e) => given_up(s, ErrorView::Unreadable(e)),
                    },
                    Some(MsgView::FileEnd) => if digest_text(s.current) == entry.sha256 {
                        (
                            RecvView {
                                finished: s.finished.push(s.current),
                                current: Seq::empty(),
                                ..s
                            },
                            StepView::FileDone {
                                next: path_at(s.platform, entries, s.finished.len() as int + 1),
                            },
                        )
                    } else {
                        given_up(
                            RecvView { current: Seq::empty(), ..s },
                            ErrorView::Integrity {
                                relpath: entry.relpath,
                                expected: entry.sha256,
                                actual: digest_text(s.current),
                            },
                        )
                    },
                    Some(MsgView::Error { msg: text }) => given_up(
                        s,
                        ErrorView::SenderError { msg: text },
                    ),
                    other => given_up(s, ErrorView::Unexpected(other)),
                }
            } else {
                match msg {
                    Some(MsgView::Done) => (
                        RecvView { over: true, ..s },
                        StepView::Complete { files: entries.len(), bytes: total_len(s.finished) },
                    ),
                    other => given_up(s, ErrorView::ExpectedDone(other)),
                }
            },
        },
    }
}

/// What holds of every receiver: the files that count as finished are the first
/// ones of the manifest, and each has the SHA-256 that the manifest gives.
pub open spec fn verified(s: RecvView) -> bool {
    match s.entries {
        None => s.finished.len() == 0 && s.current.len() == 0,
        Some(entries) => {
            &&& s.finished.len() <= entries.len()
            &&& forall|i: int|
                0 <= i < s.finished.len() ==> digest_text(#[trigger] s.finished[i])
                    == entries[i].sha256
            &&& s.finished.len() == entries.len() ==> s.current.len() == 0
        },
    }
}

/// What a chunk comes to that opened, or did not.
pub fn chunk_result(plain: Result<Vec<u8>, CryptoError>) -> (result: Result<Vec<u8>, ReceiveError>)
    ensures
        match plain {
            Ok(data) => result matches Ok(d) && d@ == data@,
            Err(e) => result matches Err(f) && f@ == ErrorView::Unreadable(e),
        },
{
    match plain {
        Ok(data) => Ok(data),
        Err(e) => Err(ReceiveError::Unreadable(e)),
    }
}

/// Hold a file's digest against the one that the manifest gives.
pub fn check_digest(entry: &FileEntry, actual: String) -> (result: Result<(), ReceiveError>)
    ensures
        result is Ok <==> actual@ == entry@.sha256,
        result matches Err(e) ==> e@ == (ErrorView::Integrity {
            relpath: entry@.relpath,
            expected: entry@.sha256,
            actual: actual@,
        }),
{
    if actual == entry.sha256 {
        Ok(())
    } else {
        Err(
            ReceiveError::Integrity {
                relpath: entry.relpath.clone(),
                expected: entry.sha256.clone(),
                actual,
            },
        )
    }
}

/// The receiving side of a transfer.
pub struct Receiver {
    file_key: [u8; 32],
    platform: Platform,
    entries: Option<Vec<FileEntry>>,
    index: usize,
    digest: FileDigest,
    received: u64,
    total: u64,
    over: bool,
    finished: Ghost<Seq<Seq<u8>>>,
}

/// What an optional list of entries says.
spec fn entries_view(entries: Option<Vec<FileEntry>>) -> Option<Seq<EntryView>> {
    match entries {
        Some(list) => Some(list.deep_view()),
        None => None,
    }
}

impl View for Receiver {
    type V = RecvView;

    closed spec fn view(&self) -> RecvView {
        RecvView {
            key: self.file_key@,
            platform: self.platform,
            entries: entries_view(self.entries),
            finished: self.finished@,
            current: self.digest@,
            over: self.over,
        }
    }
}

impl Receiver {
    /// The counters agree with what came, and all that is finished was checked.
    pub closed spec fn wf(&self) -> bool {
        &&& verified(self@)
        &&& self.index == self.finished@.len()
        &&& self.received == self.digest@.len()
        &&& self.total == total_len(self.finished@) + self.digest@.len()
    }

    /// All that counts as finished was checked against the manifest.
    pub proof fn law_is_verified(&self)
        requires
            self.wf(),
        ensures
            verified(self@),
    {
    }

    /// A receiver for what a peer with the same code sends, which stores files
    /// by the rules of this platform.
    pub fn new(code: &str, platform: Platform) -> (receiver: Receiver)
        ensures
            receiver.wf(),
            receiver@ == fresh(derived_key(encode_utf8(code@)), platform),
    {
        let receiver = Receiver {
            file_key: derive_key(code.as_bytes()),
            platform,
            entries: None,
            index: 0,
            digest: FileDigest::new(),
            received: 0,
            total: 0,
            over: false,
            finished: Ghost(Seq::empty()),
        };
        receiver
    }

    /// How many bytes of the current file are there.
    pub fn received(&self) -> (bytes: u64)
        requires
            self.wf(),
        ensures
            bytes == self@.current.len(),
    {
        self.received
    }

    /// How many bytes are there of all files.
    pub fn total(&self) -> (bytes: u64)
        requires
            self.wf(),
        ensures
            bytes == total_len(self@.finished) + self@.current.len(),
    {
        self.total
    }

    /// The file that is being received, as the manifest describes it.
    pub fn current(&self) -> (entry: Option<FileEntry>)
        requires
            self.wf(),
        ensures
            match self@.entries {
                Some(entries) => if self@.finished.len() < entries.len() {
                    entry matches Some(e) && e@ == entries[self@.finished.len() as int]
                } else {
                    entry is None
                },
                None => entry is None,
            },
    {
        match &self.entries {
            Some(entries) => if self.index < entries.len() {
                Some(entries[self.index].clone())
            } else {
                None
            },
            None => None,
        }
    }

    fn path_of(&self, index: usize) -> (path: Option<String>)
        requires
            self.entries is Some,
        ensures
            path_view(path) == path_at(self@.platform, self@.entries->0, index as int),
    {
        match &self.entries {
            Some(entries) => if index < entries.len() {
                Some(safe_relpath_on(self.platform, entries[index].relpath.as_str()))
            } else {
                None
            },
            None => None,
        }
    }

    fn fail(&mut self, e: ReceiveError) -> (step: ReceiveStep)
        requires
            old(self).wf(),
        ensures
            final(self).wf(),
            (final(self)@, step@) == given_up(old(self)@, e@),
    {
        self.over = true;
        ReceiveStep::Failed(e)
    }

    /// Take in a chunk of the current file.
    fn chunk(&mut self, sealed: Vec<u8>) -> (step: ReceiveStep)
        requires
            old(self).wf(),
            old(self)@.entries matches Some(entries) && old(self)@.finished.len() < entries.len(),
            total_len(old(self)@.finished) + old(self)@.current.len() + sealed@.len() <= u64::MAX,
        ensures
            final(self).wf(),
            (final(self)@, step@) == received(
                old(self)@,
                Ok(Some(MsgView::DataChunk(sealed@))),
            ),
    {
        match chunk_result(decrypt(&self.file_key, sealed.as_slice())) {
            Ok(plain) => {
                let n: u64 = plain.len() as u64;
                self.digest.update(plain.as_slice());
                self.received = self.received + n;
                self.total = self.total + n;
                ReceiveStep::Data(plain)
            },
            Err(e) => self.fail(e),
        }
    }

    /// Check the current file against the manifest and go on to the next one.
    fn file_end(&mut self, count: usize) -> (step: ReceiveStep)
        requires
            old(self).wf(),
            old(self)@.entries matches Some(entries) && entries.len() == count,
            old(self)@.finished.len() < count,
        ensures
            final(self).wf(),
            (final(self)@, step@) == received(old(self)@, Ok(Some(MsgView::FileEnd))),
    {
        let ghost before = self@;
        let entry: FileEntry = self.current().unwrap();
        let mut digest = FileDigest::new();
        std::mem::swap(&mut self.digest, &mut digest);
        match check_digest(&entry, digest.finish()) {
            Ok(()) => {
                self.finished = Ghost(before.finished.push(before.current));
                let next = self.path_of(self.index + 1);
                self.index = self.index + 1;
                self.received = 0;
                proof {
                    assert(self@.finished.drop_last() =~= before.finished);
                }
                ReceiveStep::FileDone { next }
            },
            Err(e) => {
                self.total = self.total - self.received;
                self.received = 0;
                self.fail(e)
            },
        }
    }

    /// Decide what to do about the next message, or about the end of the stream
    /// or a failure in its place.
    pub fn step(&mut self, incoming: Result<Option<Msg>, RecvError>) -> (step: ReceiveStep)
        requires
            old(self).wf(),
            !old(self)@.over,
            incoming matches Ok(Some(Msg::DataChunk(sealed))) ==> total_len(old(self)@.finished)
                + old(self)@.current.len() + sealed@.len() <= u64::MAX,
        ensures
            final(self).wf(),
            (final(self)@, step@) == received(old(self)@, incoming_view(incoming)),
    {
        let msg = match incoming {
            Ok(msg) => msg,
            Err(e) => return self.fail(ReceiveError::Receive(e)),
        };
        let count: usize = match &self.entries {
            Some(entries) => entries.len(),
            None => {
                return match msg {
                    Some(Msg::Manifest { entries }) => {
                        self.entries = Some(entries);
                        let first = self.path_of(0);
                        ReceiveStep::Started { first }
                    },
                    Some(Msg::Error { msg: text }) => self.fail(
                        ReceiveError::SenderError { msg: text },
                    ),
                    other => self.fail(ReceiveError::ExpectedManifest(other)),
                };
            },
        };
        if self.index < count {
            match msg {
                Some(Msg::DataChunk(sealed)) => self.chunk(sealed),
                Some(Msg::FileEnd) => self.file_end(count),
                Some(Msg::Error { msg: text }) => self.fail(
                    ReceiveError::SenderError { msg: text },
                ),
                other => self.fail(ReceiveError::Unexpected(other)),
            }
        } else {
            match msg {
                Some(Msg::Done) => {
                    self.over = true;
                    ReceiveStep::Complete { files: count, bytes: self.total }
                },
                other => self.fail(ReceiveError::ExpectedDone(other)),
            }
        }
    }
}

/// Messages that all arrive.
pub open spec fn arriving(msgs: Seq<MsgView>) -> Seq<Result<Option<MsgView>, RecvError>> {
    msgs.map_values(|msg: MsgView| Ok(Some(msg)))
}

/// How far a receiver has come after all that came in. What comes after the end
/// of the transfer is not looked at.
pub open spec fn run(s: RecvView, incoming: Seq<Result<Option<MsgView>, RecvError>>) -> RecvView
    decreases incoming.len(),
{
    if incoming.len() == 0 {
        s
    } else {
        let before = run(s, incoming.drop_last());
        if before.over {
            before
        } else {
            received(before, incoming.last()).0
        }
    }
}

/// What a receiver has done about all that came in.
pub open spec fn steps(s: RecvView, incoming: Seq<Result<Option<MsgView>, RecvError>>) -> Seq<
    StepView,
>
    decreases incoming.len(),
{
    if incoming.len() == 0 {
        Seq::<StepView>::empty()
    } else {
        let before = run(s, incoming.drop_last());
        let done = steps(s, incoming.drop_last());
        if before.over {
            done
        } else {
            done.push(received(before, incoming.last()).1)
        }
    }
}

/// The files, with their paths and contents, that these steps write.
pub open spec fn stored(done: Seq<StepView>) -> Seq<(Seq<char>, Seq<u8>)>
    decreases done.len(),
{
    if done.len() == 0 {
        Seq::<(Seq<char>, Seq<u8>)>::empty()
    } else {
        let before = stored(done.drop_last());
        match done.last() {
            StepView::Started { first: Some(path) } => before.push((path, Seq::<u8>::empty())),
            StepView::FileDone { next: Some(path) } => before.push((path, Seq::<u8>::empty())),
            StepView::Data(data) => before.drop_last().push(
                (before.last().0, before.last().1 + data),
            ),
            _ => before,
        }
    }
}

/// The files of a manifest with their contents: first those in `finished`, then
/// the one that has come as far as `current`.
pub open spec fn written(
    platform: Platform,
    entries: Seq<EntryView>,
    finished: Seq<Seq<u8>>,
    current: Seq<u8>,
) -> Seq<(Seq<char>, Seq<u8>)> {
    let whole = Seq::new(
        finished.len(),
        |i: int| (safe_path(platform, entries[i].relpath), finished[i]),
    );
    if finished.len() < entries.len() {
        whole.push((safe_path(platform, entries[finished.len() as int].relpath), current))
    } else {
        whole
    }
}

/// Whether what was read of the first files is what the manifest announced.
pub open spec fn honest(s: SendView) -> bool {
    forall|i: int|
        0 <= i < s.contents.len() ==> digest_text(#[trigger] s.contents[i]) == s.entries[i].sha256
}

proof fn lemma_run_push(s: RecvView, msgs: Seq<MsgView>, msg: MsgView)
    ensures
        ({
            let before = run(s, arriving(msgs));
            let done = steps(s, arriving(msgs));
            let after = received(before, Ok(Some(msg)));
            !before.over ==> {
                &&& run(s, arriving(msgs.push(msg))) == after.0
                &&& steps(s, arriving(msgs.push(msg))) == done.push(after.1)
            }
        }),
{
    assert(arriving(msgs.push(msg)).drop_last() =~= arriving(msgs));
}

/// At every moment, a receiver with the same key to which all came that the
/// sender has said holds what the sender has read: the same finished files and
/// the same part of the current one, each stored under its safe path.
#[verifier::rlimit(40)]
pub proof fn law_receiver_follows_sender(s: SendView, platform: Platform)
    requires
        faithful(s),
        honest(s),
    ensures
        run(fresh(s.key, platform), arriving(said(s))) == (RecvView {
            key: s.key,
            platform,
            entries: Some(s.entries),
            finished: s.contents,
            current: s.current,
            over: false,
        }),
        stored(steps(fresh(s.key, platform), arriving(said(s)))) == written(
            platform,
            s.entries,
            s.contents,
            s.current,
        ),
    decreases s.files.len(), s.chunks.len(),
{
    let start = fresh(s.key, platform);
    if s.chunks.len() > 0 {
        let sealed = s.chunks.last();
        let front = plain_of(s.key, s.chunks.drop_last())->0;
        let piece = opened(s.key, sealed)->Ok_0;
        let before = SendView { chunks: s.chunks.drop_last(), current: front, ..s };
        law_receiver_follows_sender(before, platform);
        assert(said(s) =~= said(before).push(MsgView::DataChunk(sealed)));
        lemma_run_push(start, said(before), MsgView::DataChunk(sealed));
        let done = steps(start, arriving(said(before)));
        assert(steps(start, arriving(said(s))).drop_last() =~= done);
        assert(written(platform, s.entries, s.contents, s.current) =~= stored(
            steps(start, arriving(said(s))),
        ));
    } else if s.files.len() > 0 {
        let n = s.files.len() - 1;
        let before = SendView {
            files: s.files.drop_last(),
            contents: s.contents.drop_last(),
            chunks: s.files.last(),
            current: s.contents.last(),
            ..s
        };
        assert(plain_of(s.key, s.files[n]) == Some(s.contents[n]));
        assert(faithful(before)) by {
            assert forall|i: int| 0 <= i < before.files.len() implies plain_of(
                before.key,
                #[trigger] before.files[i],
            ) == Some(before.contents[i]) by {
                assert(before.files[i] == s.files[i]);
            }
        }
        assert(honest(before)) by {
            assert forall|i: int| 0 <= i < before.contents.len() implies digest_text(
                #[trigger] before.contents[i],
            ) == before.entries[i].sha256 by {
                assert(before.contents[i] == s.contents[i]);
            }
        }
        law_receiver_follows_sender(before, platform);
        assert(said(s) =~= said(before).push(MsgView::FileEnd));
        lemma_run_push(start, said(before), MsgView::FileEnd);
        assert(digest_text(s.contents[n]) == s.entries[n].sha256);
        assert(s.contents.drop_last().push(s.contents.last()) =~= s.contents);
        let done = steps(start, arriving(said(before)));
        assert(steps(start, arriving(said(s))).drop_last() =~= done);
        assert(s.current =~= Seq::<u8>::empty());
        assert(written(platform, s.entries, s.contents, s.current) =~= stored(
            steps(start, arriving(said(s))),
        ));
    } else {
        let manifest = MsgView::Manifest { entries: s.entries };
        let none = Seq::<MsgView>::empty();
        assert(said(s) =~= none.push(manifest));
        lemma_run_push(start, none, manifest);
        assert(arriving(none) =~= Seq::empty());
        let done = steps(start, arriving(none));
        assert(steps(start, arriving(said(s))).drop_last() =~= done);
        assert(s.contents =~= Seq::<Seq<u8>>::empty());
        assert(s.current =~= Seq::<u8>::empty());
        assert(stored(done) =~= Seq::<(Seq<char>, Seq<u8>)>::empty());
        assert(written(platform, s.entries, s.contents, s.current) =~= stored(
            steps(start, arriving(said(s))),
        ));
    }
}

/// A whole transfer delivers: when a sender has sent all its files, unchanged
/// since their digests were taken, and `Done`, a receiver with the same key
/// ends with success and has written exactly those files' contents under their
/// safe paths.
pub proof fn law_transfer_delivers(s: SendView, platform: Platform)
    requires
        faithful(s),
        honest(s),
        s.files.len() == s.entries.len(),
    ensures
        ({
            let incoming = arriving(said(s).push(MsgView::Done));
            let done = steps(fresh(s.key, platform), incoming);
            &&& run(fresh(s.key, platform), incoming).over
            &&& run(fresh(s.key, platform), incoming).finished == s.contents
            &&& done.len() > 0
            &&& done.last() == (StepView::Complete {
                files: s.entries.len(),
                bytes: total_len(s.contents),
            })
            &&& stored(done) == Seq::new(
                s.entries.len(),
                |i: int| (safe_path(platform, s.entries[i].relpath), s.contents[i]),
            )
        }),
{
    law_receiver_follows_sender(s, platform);
    lemma_run_push(fresh(s.key, platform), said(s), MsgView::Done);
    let done = steps(fresh(s.key, platform), arriving(said(s)));
    let all = steps(fresh(s.key, platform), arriving(said(s).push(MsgView::Done)));
    assert(all.drop_last() =~= done);
    assert(stored(all) =~= Seq::new(
        s.entries.len(),
        |i: int| (safe_path(platform, s.entries[i].relpath), s.contents[i]),
    ));
}

/// The messages of whole files are their ends and chunks that open.
proof fn lemma_file_msgs_are_sealed(key: Seq<u8>, files: Seq<Seq<Seq<u8>>>, i: int)
    requires
        forall|k: int| 0 <= k < files.len() ==> plain_of(key, #[trigger] files[k]) is Some,
        0 <= i < file_msgs(files).len(),
    ensures
        match file_msgs(files)[i] {
            MsgView::DataChunk(sealed) => opened(key, sealed) is Ok,
            MsgView::FileEnd => true,
            _ => false,
        },
    decreases files.len(),
{
    let front = files.drop_last();
    if i < file_msgs(front).len() {
        assert forall|k: int| 0 <= k < front.len() implies plain_of(
            key,
            #[trigger] front[k],
        ) is Some by {
            assert(front[k] == files[k]);
        }
        lemma_file_msgs_are_sealed(key, front, i);
    } else {
        let at = i - file_msgs(front).len();
        assert(plain_of(key, files[files.len() - 1]) is Some);
        if at < files.last().len() {
            lemma_chunks_open(key, files.last(), at);
        }
    }
}

/// Every chunk of a file that opens as a whole opens.
proof fn lemma_chunks_open(key: Seq<u8>, chunks: Seq<Seq<u8>>, i: int)
    requires
        plain_of(key, chunks) is Some,
        0 <= i < chunks.len(),
    ensures
        opened(key, chunks[i]) is Ok,
    decreases chunks.len(),
{
    if i < chunks.len() - 1 {
        lemma_chunks_open(key, chunks.drop_last(), i);
    }
}

/// Content travels sealed: after the manifest, all that a sender says is ends of
/// files and chunks sealed with the file key.
pub proof fn law_content_travels_sealed(s: SendView, i: int)
    requires
        faithful(s),
        0 <= i < said(s).len(),
    ensures
        i == 0 ==> said(s)[i] == (MsgView::Manifest { entries: s.entries }),
        i > 0 ==> match said(s)[i] {
            MsgView::DataChunk(sealed) => opened(s.key, sealed) is Ok,
            MsgView::FileEnd => true,
            _ => false,
        },
{
    if i > 0 {
        let at = i - 1;
        if at < file_msgs(s.files).len() {
            assert forall|k: int| 0 <= k < s.files.len() implies plain_of(
                s.key,
                #[trigger] s.files[k],
            ) is Some by {
                assert(plain_of(s.key, s.files[k]) == Some(s.contents[k]));
            }
            lemma_file_msgs_are_sealed(s.key, s.files, at);
            assert(said(s)[i] == file_msgs(s.files)[at]);
        } else {
            let k = at - file_msgs(s.files).len();
            lemma_chunks_open(s.key, s.chunks, k);
            assert(said(s)[i] == chunk_msgs(s.chunks)[k]);
        }
    }
}

/// A whole transfer delivers over a sealed channel: where each of its messages
/// travels in a frame that opens to it under the channel's key, a receiver that
/// opens the frames ends with success and has written the same files.
pub proof fn law_sealed_transfer_delivers(
    s: SendView,
    platform: Platform,
    channel: Seq<u8>,
    frames: Seq<Seq<u8>>,
)
    requires
        faithful(s),
        honest(s),
        s.files.len() == s.entries.len(),
        frames.len() == said(s).push(MsgView::Done).len(),
        forall|i: int|
            0 <= i < frames.len() ==> frame_says(channel, #[trigger] frames[i]) == Ok::<
                MsgView,
                RecvError,
            >(said(s).push(MsgView::Done)[i]),
    ensures
        ({
            let incoming = frames.map_values(|frame: Seq<u8>| frame_incoming(channel, frame));
            let done = steps(fresh(s.key, platform), incoming);
            &&& done.len() > 0
            &&& done.last() == (StepView::Complete {
                files: s.entries.len(),
                bytes: total_len(s.contents),
            })
            &&& stored(done) == Seq::new(
                s.entries.len(),
                |i: int| (safe_path(platform, s.entries[i].relpath), s.contents[i]),
            )
        }),
{
    let msgs = said(s).push(MsgView::Done);
    let incoming = frames.map_values(|frame: Seq<u8>| frame_incoming(channel, frame));
    assert forall|i: int| 0 <= i < frames.len() implies incoming[i] == arriving(msgs)[i] by {
        assert(frame_says(channel, frames[i]) == Ok::<MsgView, RecvError>(msgs[i]));
    }
    assert(incoming =~= arriving(msgs));
    law_transfer_delivers(s, platform);
}

/// A file that is not what the manifest announced makes the receiver give up at
/// its end, naming the file and both digests.
pub proof fn law_mismatch_is_noticed(s: SendView, platform: Platform)
    requires
        faithful(s),
        honest(s),
        s.files.len() < s.entries.len(),
        digest_text(s.current) != s.entries[s.files.len() as int].sha256,
    ensures
        ({
            let incoming = arriving(said(s).push(MsgView::FileEnd));
            let entry = s.entries[s.files.len() as int];
            let done = steps(fresh(s.key, platform), incoming);
            &&& run(fresh(s.key, platform), incoming).over
            &&& done.len() > 0
            &&& done.last() == StepView::Failed(
                ErrorView::Integrity {
                    relpath: entry.relpath,
                    expected: entry.sha256,
                    actual: digest_text(s.current),
                },
            )
        }),
{
    law_receiver_follows_sender(s, platform);
    lemma_run_push(fresh(s.key, platform), said(s), MsgView::FileEnd);
}

/// What a receiver has stored, whatever came in.
proof fn lemma_stored(
    key: Seq<u8>,
    platform: Platform,
    incoming: Seq<Result<Option<MsgView>, RecvError>>,
)
    ensures
        ({
            let s = run(fresh(key, platform), incoming);
            let done = steps(fresh(key, platform), incoming);
            &&& verified(s)
            &&& s.platform == platform
            &&& s.over ==> done.len() > 0 && (done.last() is Complete || done.last() is Failed)
            &&& !s.over ==> !(done.len() > 0 && done.last() is Complete)
            &&& !s.over ==> match s.entries {
                None => stored(done).len() == 0,
                Some(entries) => stored(done) == written(platform, entries, s.finished, s.current),
            }
            &&& s.over && done.last() is Complete ==> s.entries is Some && s.finished.len()
                == s.entries->0.len() && stored(done) == written(
                platform,
                s.entries->0,
                s.finished,
                s.current,
            )
        }),
    decreases incoming.len(),
{
    if incoming.len() > 0 {
        let front = incoming.drop_last();
        lemma_stored(key, platform, front);
        let before = run(fresh(key, platform), front);
        let old_steps = steps(fresh(key, platform), front);
        if !before.over {
            let (after, step) = received(before, incoming.last());
            let all = old_steps.push(step);
            assert(all.drop_last() =~= old_steps);
            assert(verified(after)) by {
                if step is FileDone {
                    let entries = before.entries->0;
                    assert forall|i: int| 0 <= i < after.finished.len() implies digest_text(
                        #[trigger] after.finished[i],
                    ) == entries[i].sha256 by {
                        if i < before.finished.len() {
                            assert(after.finished[i] == before.finished[i]);
                        }
                    }
                }
            }
            if after.entries is Some && !(step is Failed) {
                assert(stored(all) =~= written(
                    platform,
                    after.entries->0,
                    after.finished,
                    after.current,
                ));
            }
        }
    }
}

/// Success means verified: whatever a peer sends, a receiver that ends with
/// success has written one file for each entry of the manifest, under the
/// entry's safe path, and each has the SHA-256 that the entry gives.
pub proof fn law_complete_means_verified(
    key: Seq<u8>,
    platform: Platform,
    incoming: Seq<Result<Option<MsgView>, RecvError>>,
)
    requires
        steps(fresh(key, platform), incoming).len() > 0,
        steps(fresh(key, platform), incoming).last() is Complete,
    ensures
        ({
            let files = stored(steps(fresh(key, platform), incoming));
            &&& run(fresh(key, platform), incoming).entries matches Some(entries) && files.len()
                == entries.len() && forall|i: int|
                0 <= i < files.len() ==> (#[trigger] files[i]).0 == safe_path(
                    platform,
                    entries[i].relpath,
                ) && digest_text(files[i].1) == entries[i].sha256
        }),
{
    lemma_stored(key, platform, incoming);
    let s = run(fresh(key, platform), incoming);
    let files = stored(steps(fresh(key, platform), incoming));
    let entries = s.entries->0;
    assert forall|i: int| 0 <= i < files.len() implies (#[trigger] files[i]).0 == safe_path(
        platform,
        entries[i].relpath,
    ) && digest_text(files[i].1) == entries[i].sha256 by {
        assert(files[i].1 == s.finished[i]);
    }
}

/// Whatever a peer sends, a receiver writes only under safe paths.
pub proof fn law_stored_paths_are_safe(
    key: Seq<u8>,
    platform: Platform,
    incoming: Seq<Result<Option<MsgView>, RecvError>>,
    i: int,
)
    requires
        0 <= i < stored(steps(fresh(key, platform), incoming)).len(),
    ensures
        is_safe(stored(steps(fresh(key, platform), incoming))[i].0),
        is_plain(platform, stored(steps(fresh(key, platform), incoming))[i].0),
    decreases incoming.len(),
{
    if incoming.len() > 0 {
        let front = incoming.drop_last();
        let before = run(fresh(key, platform), front);
        let old_steps = steps(fresh(key, platform), front);
        if before.over {
            law_stored_paths_are_safe(key, platform, front, i);
        } else {
            let (after, step) = received(before, incoming.last());
            assert(old_steps.push(step).drop_last() =~= old_steps);
            lemma_stored(key, platform, front);
            if i < stored(old_steps).len() {
                law_stored_paths_are_safe(key, platform, front, i);
            } else {
                match step {
                    StepView::Started { first: Some(path) } => {
                        law_safe_path_stays_inside(platform, after.entries->0[0].relpath);
                    },
                    StepView::FileDone { next: Some(path) } => {
                        law_safe_path_stays_inside(
                            platform,
                            after.entries->0[after.finished.len() as int].relpath,
                        );
                    },
                    _ => {},
                }
            }
        }
    }
}

/// Bytes are counted once each.
pub proof fn law_every_byte_is_counted(files: Seq<Seq<u8>>, file: Seq<u8>)
    ensures
        total_len(Seq::<Seq<u8>>::empty()) == 0,
        total_len(files.push(file)) == total_len(files) + file.len(),
{
    assert(files.push(file).drop_last() =~= files);
}

/// What chunks hold together is what each of them opens to, one after the other,
/// and nothing where one does not open.
pub proof fn law_chunks_hold_their_pieces(key: Seq<u8>, chunks: Seq<Seq<u8>>, sealed: Seq<u8>)
    ensures
        plain_of(key, Seq::<Seq<u8>>::empty()) == Some(Seq::<u8>::empty()),
        match (plain_of(key, chunks), opened(key, sealed)) {
            (Some(front), Ok(piece)) => plain_of(key, chunks.push(sealed)) == Some(front + piece),
            _ => plain_of(key, chunks.push(sealed)) is None,
        },
{
    assert(chunks.push(sealed).drop_last() =~= chunks);
}

/// What a sender has said is the manifest, then for each finished file its chunks
/// and its end, then the chunks of the current file.
pub proof fn law_said_is_in_order(s: SendView, chunks: Seq<Seq<u8>>, sealed: Seq<u8>)
    ensures
        said(SendView { files: Seq::empty(), chunks: Seq::empty(), ..s }) == seq![
            MsgView::Manifest { entries: s.entries },
        ],
        said(SendView { chunks: chunks.push(sealed), ..s }) == said(
            SendView { chunks, ..s },
        ).push(MsgView::DataChunk(sealed)),
        said(SendView { files: s.files.push(chunks), chunks: Seq::empty(), ..s }) == said(
            SendView { chunks, ..s },
        ).push(MsgView::FileEnd),
{
    assert(s.files.push(chunks).drop_last() =~= s.files);
    assert(said(SendView { files: Seq::empty(), chunks: Seq::empty(), ..s }) =~= seq![
        MsgView::Manifest { entries: s.entries },
    ]);
    assert(said(SendView { chunks: chunks.push(sealed), ..s }) =~= said(
        SendView { chunks, ..s },
    ).push(MsgView::DataChunk(sealed)));
    assert(said(SendView { files: s.files.push(chunks), chunks: Seq::empty(), ..s }) =~= said(
        SendView { chunks, ..s },
    ).push(MsgView::FileEnd));
}

/// A receiver that nothing came to knows its key and its platform, and nothing
/// more.
pub proof fn law_receiver_starts_with_nothing(key: Seq<u8>, platform: Platform)
    ensures
        fresh(key, platform).key == key,
        fresh(key, platform).platform == platform,
        fresh(key, platform).entries is None,
        fresh(key, platform).finished.len() == 0,
        fresh(key, platform).current.len() == 0,
        !fresh(key, platform).over,
{
}

/// A failure to receive ends the transfer at any time, and changes nothing else.
pub proof fn law_failure_ends_the_transfer(s: RecvView, e: RecvError)
    ensures
        received(s, Err(e)) == (
            RecvView { over: true, ..s },
            StepView::Failed(ErrorView::Receive(e)),
        ),
{
}

/// The first message is the manifest: it is taken over whole, however long it is,
/// and the first of its files, if there is one, is begun under its safe path.
/// Anything else ends the transfer.
pub proof fn law_manifest_comes_first(s: RecvView, msg: Option<MsgView>)
    requires
        s.entries is None,
    ensures
        match msg {
            Some(MsgView::Manifest { entries }) => received(s, Ok(msg)) == (
                RecvView { entries: Some(entries), ..s },
                StepView::Started {
                    first: if entries.len() > 0 {
                        Some(safe_path(s.platform, entries[0].relpath))
                    } else {
                        None
                    },
                },
            ),
            Some(MsgView::Error { msg: text }) => received(s, Ok(msg)) == (
                RecvView { over: true, ..s },
                StepView::Failed(ErrorView::SenderError { msg: text }),
            ),
            _ => received(s, Ok(msg)) == (
                RecvView { over: true, ..s },
                StepView::Failed(ErrorView::ExpectedManifest(msg)),
            ),
        },
{
}

/// Inside a file a chunk is appended whole where it opens, and ends the transfer
/// where it does not.
pub proof fn law_chunk_is_appended(s: RecvView, entries: Seq<EntryView>, sealed: Seq<u8>)
    requires
        s.entries == Some(entries),
        s.finished.len() < entries.len(),
    ensures
        match opened(s.key, sealed) {
            Ok(plain) => received(s, Ok(Some(MsgView::DataChunk(sealed)))) == (
                RecvView { current: s.current + plain, ..s },
                StepView::Data(plain),
            ),
            Err(e) => received(s, Ok(Some(MsgView::DataChunk(sealed)))) == (
                RecvView { over: true, ..s },
                StepView::Failed(ErrorView::Unreadable(e)),
            ),
        },
{
}

/// At the end of a file it counts as finished exactly where its SHA-256 is the
/// one announced, and then the next file, if there is one, is begun under its
/// safe path. Otherwise the transfer ends, and both digests are named.
pub proof fn law_file_end_is_checked(s: RecvView, entries: Seq<EntryView>)
    requires
        s.entries == Some(entries),
        s.finished.len() < entries.len(),
    ensures
        ({
            let n = s.finished.len() as int;
            let actual = hex_text(sha256(s.current));
            let (after, step) = received(s, Ok(Some(MsgView::FileEnd)));
            &&& actual == entries[n].sha256 ==> after == (RecvView {
                finished: s.finished.push(s.current),
                current: Seq::empty(),
                ..s
            }) && step == (StepView::FileDone {
                next: if n + 1 < entries.len() {
                    Some(safe_path(s.platform, entries[n + 1].relpath))
                } else {
                    None
                },
            })
            &&& actual != entries[n].sha256 ==> after.over && after.finished == s.finished && step
                == StepView::Failed(
                ErrorView::Integrity {
                    relpath: entries[n].relpath,
                    expected: entries[n].sha256,
                    actual,
                },
            )
        }),
{
}

/// Inside a file anything but a chunk or its end ends the transfer: what the
/// sender says is passed on, and what was not expected is shown.
pub proof fn law_nothing_else_inside_a_file(
    s: RecvView,
    entries: Seq<EntryView>,
    msg: Option<MsgView>,
)
    requires
        s.entries == Some(entries),
        s.finished.len() < entries.len(),
        !(msg matches Some(MsgView::DataChunk(_))),
        msg != Some(MsgView::FileEnd),
    ensures
        match msg {
            Some(MsgView::Error { msg: text }) => received(s, Ok(msg)) == (
                RecvView { over: true, ..s },
                StepView::Failed(ErrorView::SenderError { msg: text }),
            ),
            _ => received(s, Ok(msg)) == (
                RecvView { over: true, ..s },
                StepView::Failed(ErrorView::Unexpected(msg)),
            ),
        },
{
}

/// When all files are there, `Done` ends the transfer well, with the number of
/// files and bytes, and anything else ends it badly.
pub proof fn law_done_comes_last(s: RecvView, entries: Seq<EntryView>, msg: Option<MsgView>)
    requires
        s.entries == Some(entries),
        s.finished.len() >= entries.len(),
    ensures
        msg == Some(MsgView::Done) ==> received(s, Ok(msg)) == (
            RecvView { over: true, ..s },
            StepView::Complete { files: entries.len(), bytes: total_len(s.finished) },
        ),
        msg != Some(MsgView::Done) ==> received(s, Ok(msg)) == (
            RecvView { over: true, ..s },
            StepView::Failed(ErrorView::ExpectedDone(msg)),
        ),
{
}

/// What the peer is told of a file that failed its check is whole, and of other
/// failures it is told nothing.
pub proof fn law_report_is_whole(e: ErrorView)
    ensures
        match e {
            ErrorView::Integrity { relpath, expected, actual } => reported(e) == Some(
                MsgView::Error {
                    msg: "integrity check failed for "@ + relpath + ": expected "@ + expected
                        + ", got "@ + actual,
                },
            ),
            _ => reported(e) is None,
        },
{
}

/// What is said about a failed transfer is whole.
pub proof fn law_receive_error_is_told_whole(e: ErrorView, detail: Seq<char>)
    ensures
        receive_text(e, detail) == match e {
            ErrorView::Receive(_) => detail,
            ErrorView::SenderError { msg } => "sender error: "@ + msg,
            ErrorView::ExpectedManifest(_) => "expected Manifest, got "@ + detail,
            ErrorView::Unreadable(CryptoError::TooShort) => "ciphertext too short"@,
            ErrorView::Unreadable(
                CryptoError::DecryptionFailed,
            ) => "decryption failed (wrong key or corrupted data)"@,
            ErrorView::Unexpected(_) => "unexpected message: "@ + detail,
            ErrorView::Integrity { relpath, expected, actual } => "integrity check failed for "@
                + relpath + ": expected "@ + expected + ", got "@ + actual,
            ErrorView::ExpectedDone(_) => "expected Done, got "@ + detail,
        },
{
}

/// What an error says is all that it holds.
pub proof fn law_receive_error_says_all(
    e: RecvError,
    c: CryptoError,
    msg: Msg,
    a: String,
    b: String,
    text: String,
)
    ensures
        ReceiveError::Receive(e)@ == ErrorView::Receive(e),
        (ReceiveError::SenderError { msg: text })@ == (ErrorView::SenderError { msg: text@ }),
        ReceiveError::ExpectedManifest(Some(msg))@ == ErrorView::ExpectedManifest(Some(msg@)),
        ReceiveError::ExpectedManifest(None)@ == ErrorView::ExpectedManifest(None),
        ReceiveError::Unreadable(c)@ == ErrorView::Unreadable(c),
        ReceiveError::Unexpected(Some(msg))@ == ErrorView::Unexpected(Some(msg@)),
        ReceiveError::Unexpected(None)@ == ErrorView::Unexpected(None),
        (ReceiveError::Integrity { relpath: text, expected: a, actual: b })@ == (
        ErrorView::Integrity { relpath: text@, expected: a@, actual: b@ }),
        ReceiveError::ExpectedDone(Some(msg))@ == ErrorView::ExpectedDone(Some(msg@)),
        ReceiveError::ExpectedDone(None)@ == ErrorView::ExpectedDone(None),
{
}

/// What a step says is all that it holds.
pub proof fn law_receive_step_says_all(
    path: String,
    data: Vec<u8>,
    files: usize,
    bytes: u64,
    e: ReceiveError,
)
    ensures
        (ReceiveStep::Started { first: Some(path) })@ == (StepView::Started { first: Some(path@) }),
        (ReceiveStep::Started { first: None })@ == (StepView::Started { first: None }),
        ReceiveStep::Data(data)@ == StepView::Data(data@),
        (ReceiveStep::FileDone { next: Some(path) })@ == (StepView::FileDone { next: Some(path@) }),
        (ReceiveStep::FileDone { next: None })@ == (StepView::FileDone { next: None }),
        (ReceiveStep::Complete { files, bytes })@ == (StepView::Complete {
            files: files as nat,
            bytes: bytes as nat,
        }),
        ReceiveStep::Failed(e)@ == StepView::Failed(e@),
{
}

} // verus!
