//! Paths as text, with `/` between their pieces.
//!
//! Paths that follow Windows' rules are brought into this form first (see
//! [`to_plain`]).

use crate::text::{chars_of, text_of};
use vstd::prelude::*;

verus! {

/// The pieces of `path` between its separators, empty ones among them.
pub open spec fn pieces(path: Seq<char>) -> Seq<Seq<char>>
    decreases path.len(),
{
    if path.len() == 0 {
        seq![Seq::<char>::empty()]
    } else {
        let front = pieces(path.drop_last());
        if path.last() == '/' {
            front.push(Seq::<char>::empty())
        } else {
            front.drop_last().push(front.last().push(path.last()))
        }
    }
}

/// The pieces put back together, one separator between two of them.
pub open spec fn joined(parts: Seq<Seq<char>>) -> Seq<char>
    decreases parts.len(),
{
    if parts.len() == 0 {
        Seq::<char>::empty()
    } else if parts.len() == 1 {
        parts[0]
    } else {
        joined(parts.drop_last()).push('/') + parts.last()
    }
}

/// Whether a piece names a file or a directory, rather than being empty, the
/// current directory or the parent directory.
pub open spec fn is_normal(piece: Seq<char>) -> bool {
    piece.len() > 0 && piece != "."@ && piece != ".."@
}

/// Whether a piece survives normalization: `.` and empty pieces do not count.
pub open spec fn is_component(piece: Seq<char>) -> bool {
    piece.len() > 0 && piece != "."@
}

/// Whose rules for paths apply.
#[derive(Debug, Clone, Copy, PartialEq, Eq, Structural)]
pub enum Platform {
    /// Pieces are separated by `/`.
    Unix,
    /// Pieces are separated by `/` or a backslash, and a prefix may stand in
    /// front: a drive such as `C:`, or one that starts with two separators and
    /// names a share, a device or a verbatim place.
    Windows,
}

/// `path` with every backslash turned into a separator.
pub open spec fn slashed(path: Seq<char>) -> Seq<char> {
    path.map_values(
        |c: char|
            if c == '\\' {
                '/'
            } else {
                c
            },
    )
}

/// Whether a drive stands in front of `path`.
pub open spec fn has_drive(path: Seq<char>) -> bool {
    path.len() >= 2 && path[1] == ':' && ('a' <= path[0] <= 'z' || 'A' <= path[0] <= 'Z')
}

/// How many pieces a prefix takes up that starts with two separators:
/// `//server/share`, `//./device`, `//?/name` or `//?/UNC/server/share`.
pub open spec fn prefix_len(parts: Seq<Seq<char>>) -> nat {
    if parts.len() < 4 || parts[0].len() > 0 || parts[1].len() > 0 || parts[2].len() == 0
        || parts[3].len() == 0 {
        0
    } else if parts[2] == "?"@ && parts[3] == "UNC"@ {
        if parts.len() < 6 {
            parts.len()
        } else {
            6
        }
    } else {
        4
    }
}

/// `path` with `/` between its pieces and without a prefix.
pub open spec fn plain_path(platform: Platform, path: Seq<char>) -> Seq<char> {
    let parts = pieces(slashed(path));
    match platform {
        Platform::Unix => path,
        Platform::Windows => if prefix_len(parts) > 0 {
            joined(parts.skip(prefix_len(parts) as int))
        } else if has_drive(path) {
            slashed(path.skip(2))
        } else {
            slashed(path)
        },
    }
}

/// `piece` without the drives in front of it.
pub open spec fn undriven(piece: Seq<char>) -> Seq<char>
    decreases piece.len(),
{
    if has_drive(piece) {
        undriven(piece.skip(2))
    } else {
        piece
    }
}

/// The pieces under which a file is stored: those that name something. On
/// Windows the first one loses a drive that stands in front of it.
pub open spec fn kept(platform: Platform, parts: Seq<Seq<char>>) -> Seq<Seq<char>>
    decreases parts.len(),
{
    if parts.len() == 0 {
        parts
    } else {
        let front = kept(platform, parts.drop_last());
        let piece = if platform == Platform::Windows && front.len() == 0 {
            undriven(parts.last())
        } else {
            parts.last()
        };
        if is_normal(piece) {
            front.push(piece)
        } else {
            front
        }
    }
}

/// The pieces of `path` under which a file is stored.
pub open spec fn kept_pieces(platform: Platform, path: Seq<char>) -> Seq<Seq<char>> {
    kept(platform, pieces(plain_path(platform, path)))
}

/// A path without root, without `.`, `..` or empty pieces, and not empty.
pub open spec fn is_safe(path: Seq<char>) -> bool {
    forall|i: int| 0 <= i < pieces(path).len() ==> is_normal(#[trigger] pieces(path)[i])
}

/// A path that leads nowhere outside of the directory it is joined to: it has
/// no root, and none of its pieces is `..`.
pub open spec fn is_inside(path: Seq<char>) -> bool {
    &&& path.len() > 0 ==> path[0] != '/'
    &&& !pieces(path).contains(".."@)
}

/// The path under which a received file is stored.
pub open spec fn safe_path(platform: Platform, rel: Seq<char>) -> Seq<char> {
    if kept_pieces(platform, rel).len() == 0 {
        "received.bin"@
    } else {
        joined(kept_pieces(platform, rel))
    }
}

/// Whether what only means something on Windows is absent there: backslashes,
/// and a drive in front.
pub open spec fn is_plain(platform: Platform, path: Seq<char>) -> bool {
    platform == Platform::Windows ==> !path.contains('\\') && !has_drive(path)
}

/// The last component of `path`, where it names a file or a directory.
pub open spec fn last_name(path: Seq<char>) -> Option<Seq<char>> {
    let parts = pieces(path).filter(|p: Seq<char>| is_component(p));
    if parts.len() == 0 || parts.last() == ".."@ {
        None
    } else {
        Some(parts.last())
    }
}

proof fn lemma_pieces_nonempty(path: Seq<char>)
    ensures
        pieces(path).len() > 0,
    decreases path.len(),
{
    if path.len() > 0 {
        lemma_pieces_nonempty(path.drop_last());
    }
}

/// Whether all of `chars` is one dot (`.`).
fn is_dot(chars: &[char]) -> (b: bool)
    ensures
        b == (chars@ == "."@),
{
    proof {
        reveal_strlit(".");
    }
    let b = chars.len() == 1 && chars[0] == '.';
    proof {
        if b {
            assert(chars@ =~= "."@);
        }
    }
    b
}

/// Whether all of `chars` is two dots (`..`).
fn is_dot_dot(chars: &[char]) -> (b: bool)
    ensures
        b == (chars@ == ".."@),
{
    proof {
        reveal_strlit("..");
    }
    let b = chars.len() == 2 && chars[0] == '.' && chars[1] == '.';
    proof {
        if b {
            assert(chars@ =~= ".."@);
        }
    }
    b
}

/// Split `path` at its separators.
fn split(path: &str) -> (parts: Vec<Vec<char>>)
    ensures
        parts@.len() == pieces(path@).len(),
        forall|i: int| 0 <= i < parts@.len() ==> #[trigger] parts@[i]@ == pieces(path@)[i],
{
    let chars = chars_of(path);
    let mut parts: Vec<Vec<char>> = Vec::new();
    let mut current: Vec<char> = Vec::new();
    let mut i: usize = 0;
    proof {
        assert(chars@.take(0) =~= Seq::<char>::empty());
    }
    while i < chars.len()
        invariant
            i <= chars@.len(),
            pieces(chars@.take(i as int)).len() == parts@.len() + 1,
            pieces(chars@.take(i as int)).last() == current@,
            forall|j: int|
                0 <= j < parts@.len() ==> #[trigger] parts@[j]@ == pieces(chars@.take(i as int))[j],
        decreases chars@.len() - i,
    {
        let c: char = chars[i];
        proof {
            assert(chars@.take(i + 1).drop_last() =~= chars@.take(i as int));
            assert(chars@.take(i + 1).last() == c);
        }
        if c == '/' {
            parts.push(current);
            current = Vec::new();
        } else {
            current.push(c);
        }
        i = i + 1;
    }
    proof {
        assert(chars@.take(chars@.len() as int) =~= path@);
    }
    parts.push(current);
    parts
}

/// Adding one element at the end of a filtered sequence.
proof fn lemma_filter_push<T>(s: Seq<T>, x: T, keep: spec_fn(T) -> bool)
    ensures
        s.push(x).filter(keep) == if keep(x) {
            s.filter(keep).push(x)
        } else {
            s.filter(keep)
        },
{
    reveal(Seq::filter);
    assert(s.push(x).drop_last() =~= s);
}

/// Turn every backslash of `path` into a separator.
fn with_slashes(path: &[char]) -> (out: String)
    ensures
        out@ == slashed(path@),
{
    let mut out = String::new();
    let mut i: usize = 0;
    while i < path.len()
        invariant
            i <= path@.len(),
            out@ == slashed(path@).take(i as int),
        decreases path@.len() - i,
    {
        if path[i] == '\\' {
            out.push('/');
        } else {
            out.push(path[i]);
        }
        proof {
            assert(slashed(path@).take(i + 1) =~= slashed(path@).take(i as int).push(
                slashed(path@)[i as int],
            ));
        }
        i = i + 1;
    }
    proof {
        assert(slashed(path@).take(path@.len() as int) =~= slashed(path@));
    }
    out
}

/// Whether a drive stands in front of `chars`.
fn starts_with_drive(chars: &[char]) -> (b: bool)
    ensures
        b == has_drive(chars@),
{
    chars.len() >= 2 && chars[1] == ':' && (('a' <= chars[0] && chars[0] <= 'z') || ('A' <= chars[0]
        && chars[0] <= 'Z'))
}

/// How many pieces a prefix takes up that starts with two separators.
fn count_prefix(parts: &Vec<Vec<char>>, Ghost(all): Ghost<Seq<Seq<char>>>) -> (n: usize)
    requires
        parts@.len() == all.len(),
        forall|i: int| 0 <= i < parts@.len() ==> #[trigger] parts@[i]@ == all[i],
    ensures
        n == prefix_len(all),
        n <= all.len(),
{
    if parts.len() < 4 || parts[0].len() > 0 || parts[1].len() > 0 || parts[2].len() == 0
        || parts[3].len() == 0 {
        return 0;
    }
    let mark = parts[2].as_slice();
    let name = parts[3].as_slice();
    proof {
        reveal_strlit("?");
        reveal_strlit("UNC");
        assert(mark@ == all[2] && name@ == all[3]);
    }
    let verbatim: bool = mark.len() == 1 && mark[0] == '?';
    let unc: bool = name.len() == 3 && name[0] == 'U' && name[1] == 'N' && name[2] == 'C';
    proof {
        if verbatim {
            assert(mark@ =~= "?"@);
        }
        if unc {
            assert(name@ =~= "UNC"@);
        }
    }
    if verbatim && unc {
        if parts.len() < 6 {
            parts.len()
        } else {
            6
        }
    } else {
        4
    }
}

/// Put the pieces from `from` on back together.
fn join_from(parts: &Vec<Vec<char>>, from: usize, Ghost(all): Ghost<Seq<Seq<char>>>) -> (out: Vec<
    char,
>)
    requires
        parts@.len() == all.len(),
        forall|i: int| 0 <= i < parts@.len() ==> #[trigger] parts@[i]@ == all[i],
        from <= all.len(),
    ensures
        out@ == joined(all.skip(from as int)),
{
    let mut out: Vec<char> = Vec::new();
    let mut i: usize = from;
    while i < parts.len()
        invariant
            from <= i <= parts@.len(),
            parts@.len() == all.len(),
            forall|k: int| 0 <= k < parts@.len() ==> #[trigger] parts@[k]@ == all[k],
            out@ == joined(all.subrange(from as int, i as int)),
        decreases parts@.len() - i,
    {
        let part = parts[i].as_slice();
        let ghost done = all.subrange(from as int, i as int);
        if i > from {
            out.push('/');
        }
        out.extend_from_slice(part);
        proof {
            let next = all.subrange(from as int, i + 1);
            assert(part@ == all[i as int]);
            assert(next.drop_last() =~= done);
            assert(next.last() == part@);
            if i > from {
                assert(out@ =~= joined(done).push('/') + part@);
            } else {
                assert(next.len() == 1);
                assert(out@ =~= part@);
            }
        }
        i = i + 1;
    }
    proof {
        assert(all.subrange(from as int, all.len() as int) =~= all.skip(from as int));
    }
    out
}

/// Bring a path into the form with `/` between its pieces and no prefix. A Unix
/// path has that form already.
pub fn to_plain(platform: Platform, path: &str) -> (out: String)
    ensures
        out@ == plain_path(platform, path@),
{
    match platform {
        Platform::Unix => path.to_owned(),
        Platform::Windows => {
            let chars = chars_of(path);
            let slice = chars.as_slice();
            let whole = with_slashes(slice);
            let parts = split(whole.as_str());
            let n: usize = count_prefix(&parts, Ghost(pieces(whole@)));
            if n > 0 {
                let rest = join_from(&parts, n, Ghost(pieces(whole@)));
                text_of(rest.as_slice())
            } else if starts_with_drive(slice) {
                let (_, rest) = slice.split_at(2);
                proof {
                    assert(rest@ =~= path@.skip(2));
                }
                with_slashes(rest)
            } else {
                whole
            }
        },
    }
}

/// `piece` without the drives in front of it.
fn without_drives(piece: &[char]) -> (rest: &[char])
    ensures
        rest@ == undriven(piece@),
    decreases piece@.len(),
{
    if starts_with_drive(piece) {
        let (_, rest) = piece.split_at(2);
        proof {
            assert(rest@ =~= piece@.skip(2));
        }
        without_drives(rest)
    } else {
        piece
    }
}

/// Keep only the pieces of `rel` that name something, dropping `..`, `.`, the
/// root and doubled separators, so that a received path cannot leave the
/// directory it is joined to. A path of which nothing is left becomes
/// `received.bin`. These are the rules of Unix.
pub fn safe_relpath(rel: &str) -> (path: String)
    ensures
        path@ == safe_path(Platform::Unix, rel@),
{
    safe_relpath_on(Platform::Unix, rel)
}

/// [`safe_relpath`] by the rules of a platform: on Windows backslashes separate
/// too, and a prefix in front, such as a drive or a share, is dropped.
pub fn safe_relpath_on(platform: Platform, rel: &str) -> (path: String)
    ensures
        path@ == safe_path(platform, rel@),
{
    let plain = to_plain(platform, rel);
    let windows: bool = platform == Platform::Windows;
    let parts = split(plain.as_str());
    let ghost all = pieces(plain@);
    let mut out: Vec<char> = Vec::new();
    let mut any: bool = false;
    let mut i: usize = 0;
    proof {
        assert(kept(platform, all.take(0)) =~= Seq::<Seq<char>>::empty());
    }
    while i < parts.len()
        invariant
            i <= parts@.len(),
            parts@.len() == all.len(),
            forall|j: int| 0 <= j < parts@.len() ==> #[trigger] parts@[j]@ == all[j],
            windows == (platform == Platform::Windows),
            any == (kept(platform, all.take(i as int)).len() > 0),
            out@ == joined(kept(platform, all.take(i as int))),
        decreases parts@.len() - i,
    {
        let whole = parts[i].as_slice();
        let part = if windows && !any {
            without_drives(whole)
        } else {
            whole
        };
        let ghost before = kept(platform, all.take(i as int));
        proof {
            assert(whole@ == all[i as int]);
            assert(all.take(i + 1).drop_last() =~= all.take(i as int));
            assert(all.take(i + 1).last() == all[i as int]);
        }
        if part.len() > 0 && !is_dot(part) && !is_dot_dot(part) {
            if any {
                out.push('/');
            }
            out.extend_from_slice(part);
            proof {
                let after = before.push(part@);
                assert(after.drop_last() =~= before);
                if any {
                    assert(out@ =~= joined(before).push('/') + part@);
                } else {
                    assert(before =~= Seq::<Seq<char>>::empty());
                    assert(out@ =~= part@);
                }
            }
            any = true;
        }
        i = i + 1;
    }
    proof {
        assert(all.take(all.len() as int) =~= all);
    }
    if any {
        text_of(out.as_slice())
    } else {
        "received.bin".to_owned()
    }
}

/// The last component of `path`: nothing for a path that ends in `..` or that
/// names nothing beyond its root or the current directory.
pub fn file_name(path: &str) -> (name: Option<String>)
    ensures
        match name {
            Some(n) => last_name(path@) == Some(n@),
            None => last_name(path@) is None,
        },
{
    let parts = split(path);
    let ghost all = pieces(path@);
    let ghost keep = |p: Seq<char>| is_component(p);
    let mut i: usize = parts.len();
    proof {
        assert(all.take(all.len() as int) =~= all);
    }
    while i > 0
        invariant
            i <= parts@.len(),
            all == pieces(path@),
            parts@.len() == all.len(),
            forall|j: int| 0 <= j < parts@.len() ==> #[trigger] parts@[j]@ == all[j],
            keep == (|p: Seq<char>| is_component(p)),
            all.take(i as int).filter(keep) == all.filter(keep),
        decreases i,
    {
        i = i - 1;
        let part = parts[i].as_slice();
        proof {
            assert(part@ == all[i as int]);
            assert(all.take(i + 1) =~= all.take(i as int).push(all[i as int]));
            lemma_filter_push(all.take(i as int), all[i as int], keep);
        }
        if part.len() > 0 && !is_dot(part) {
            if is_dot_dot(part) {
                return None;
            }
            return Some(text_of(part));
        }
    }
    proof {
        reveal(Seq::filter);
        assert(all.take(0).filter(keep) =~= Seq::<Seq<char>>::empty());
    }
    None
}

/// `path` extended by `name`, as joining two paths does: an absolute `name`
/// stands alone, and no separator is doubled.
pub open spec fn extended(path: Seq<char>, name: Seq<char>) -> Seq<char> {
    if name.len() > 0 && name[0] == '/' {
        name
    } else if path.len() == 0 || path.last() == '/' {
        path + name
    } else {
        path.push('/') + name
    }
}

/// Join `name` to `path`.
pub fn join(path: &str, name: &str) -> (out: String)
    ensures
        out@ == extended(path@, name@),
{
    let name_chars = chars_of(name);
    if name_chars.len() > 0 && name_chars[0] == '/' {
        return name.to_owned();
    }
    let mut chars = chars_of(path);
    if chars.len() > 0 && chars[chars.len() - 1] != '/' {
        chars.push('/');
    }
    chars.extend_from_slice(name_chars.as_slice());
    proof {
        assert(chars@ =~= extended(path@, name@));
    }
    text_of(chars.as_slice())
}

/// No piece holds a separator.
proof fn lemma_pieces_hold_no_separator(path: Seq<char>)
    ensures
        forall|i: int| 0 <= i < pieces(path).len() ==> !(#[trigger] pieces(path)[i]).contains('/'),
    decreases path.len(),
{
    if path.len() > 0 {
        let front = pieces(path.drop_last());
        lemma_pieces_hold_no_separator(path.drop_last());
        lemma_pieces_nonempty(path.drop_last());
        if path.last() != '/' {
            let grown = front.last().push(path.last());
            assert(!front[front.len() - 1].contains('/'));
            assert(!grown.contains('/')) by {
                assert forall|j: int| 0 <= j < grown.len() implies grown[j] != '/' by {
                    if j < front.last().len() {
                        assert(front.last()[j] == grown[j]);
                    }
                }
            }
        }
    }
}

/// Joining the pieces of a path gives the path back.
proof fn lemma_joined_pieces(path: Seq<char>)
    ensures
        joined(pieces(path)) == path,
    decreases path.len(),
{
    if path.len() == 0 {
        assert(joined(pieces(path)) =~= path);
    } else {
        let front = pieces(path.drop_last());
        lemma_joined_pieces(path.drop_last());
        lemma_pieces_nonempty(path.drop_last());
        let all = pieces(path);
        if path.last() == '/' {
            assert(all.drop_last() =~= front);
            assert(joined(all) =~= path);
        } else {
            assert(all.drop_last() =~= front.drop_last());
            assert(joined(all) =~= joined(front).push(path.last()));
            assert(path.drop_last().push(path.last()) =~= path);
        }
    }
}

/// Text without a separator is one piece.
proof fn lemma_pieces_of_one(piece: Seq<char>)
    requires
        !piece.contains('/'),
    ensures
        pieces(piece) == seq![piece],
    decreases piece.len(),
{
    if piece.len() == 0 {
        assert(piece =~= Seq::<char>::empty());
    } else {
        let front = piece.drop_last();
        assert(!front.contains('/')) by {
            assert forall|j: int| 0 <= j < front.len() implies front[j] != '/' by {
                assert(piece[j] == front[j]);
            }
        }
        lemma_pieces_of_one(front);
        assert(piece[piece.len() - 1] != '/');
        assert(front.push(piece.last()) =~= piece);
        assert(pieces(piece) =~= seq![piece]);
    }
}

/// A separator between two paths puts their pieces one after the other.
proof fn lemma_pieces_concat(a: Seq<char>, b: Seq<char>)
    ensures
        pieces(a.push('/') + b) == pieces(a) + pieces(b),
    decreases b.len(),
{
    let whole = a.push('/') + b;
    if b.len() == 0 {
        assert(whole =~= a.push('/'));
        assert(whole.drop_last() =~= a);
        assert(pieces(whole) =~= pieces(a) + pieces(b));
    } else {
        lemma_pieces_concat(a, b.drop_last());
        lemma_pieces_nonempty(b.drop_last());
        assert(whole.drop_last() =~= a.push('/') + b.drop_last());
        assert(whole.last() == b.last());
        let tail = pieces(b.drop_last());
        assert((pieces(a) + tail).last() == tail.last());
        assert((pieces(a) + tail).drop_last() =~= pieces(a) + tail.drop_last());
        assert(pieces(whole) =~= pieces(a) + pieces(b));
    }
}

/// The pieces of joined parts are those parts.
pub(crate) proof fn lemma_pieces_of_joined(parts: Seq<Seq<char>>)
    requires
        parts.len() > 0,
        forall|i: int| 0 <= i < parts.len() ==> !(#[trigger] parts[i]).contains('/'),
    ensures
        pieces(joined(parts)) == parts,
    decreases parts.len(),
{
    if parts.len() == 1 {
        lemma_pieces_of_one(parts[0]);
        assert(parts =~= seq![parts[0]]);
    } else {
        let front = parts.drop_last();
        assert forall|i: int| 0 <= i < front.len() implies !(#[trigger] front[i]).contains('/') by {
            assert(front[i] == parts[i]);
        }
        lemma_pieces_of_joined(front);
        assert(!parts[parts.len() - 1].contains('/'));
        lemma_pieces_concat(joined(front), parts.last());
        lemma_pieces_of_one(parts.last());
        assert(front + seq![parts.last()] =~= parts);
    }
}

/// Every element that a filter keeps is one of the sequence and is kept.
proof fn lemma_filter_members<T>(s: Seq<T>, keep: spec_fn(T) -> bool)
    ensures
        forall|i: int|
            0 <= i < s.filter(keep).len() ==> keep(#[trigger] s.filter(keep)[i]) && s.contains(
                s.filter(keep)[i],
            ),
    decreases s.len(),
{
    reveal(Seq::filter);
    if s.len() > 0 {
        lemma_filter_members(s.drop_last(), keep);
        assert forall|i: int| 0 <= i < s.filter(keep).len() implies keep(
            #[trigger] s.filter(keep)[i],
        ) && s.contains(s.filter(keep)[i]) by {
            let front = s.drop_last().filter(keep);
            if i < front.len() {
                let x = front[i];
                assert(s.drop_last().contains(x));
                let j = choose|j: int| 0 <= j < s.drop_last().len() && s.drop_last()[j] == x;
                assert(s[j] == x);
            } else {
                assert(s[s.len() - 1] == s.filter(keep)[i]);
            }
        }
    }
}

/// What stands in a piece stands in the path.
proof fn lemma_piece_chars(path: Seq<char>, i: int, c: char)
    requires
        0 <= i < pieces(path).len(),
        pieces(path)[i].contains(c),
    ensures
        path.contains(c),
    decreases path.len(),
{
    if path.len() > 0 {
        let front = pieces(path.drop_last());
        lemma_pieces_nonempty(path.drop_last());
        let piece = pieces(path)[i];
        let k = choose|k: int| 0 <= k < piece.len() && piece[k] == c;
        if path.last() != '/' && i == front.len() - 1 && k == front.last().len() {
            assert(path[path.len() - 1] == c);
        } else {
            assert(i < front.len());
            assert(front[i][k] == c);
            assert(front[i].contains(c));
            lemma_piece_chars(path.drop_last(), i, c);
            let m = choose|m: int| 0 <= m < path.drop_last().len() && path.drop_last()[m] == c;
            assert(path[m] == c);
        }
    }
}

/// What stands in joined parts is a separator or stands in one of them.
proof fn lemma_joined_chars(parts: Seq<Seq<char>>, c: char) -> (i: int)
    requires
        joined(parts).contains(c),
        c != '/',
    ensures
        0 <= i < parts.len(),
        parts[i].contains(c),
    decreases parts.len(),
{
    let whole = joined(parts);
    let k = choose|k: int| 0 <= k < whole.len() && whole[k] == c;
    if parts.len() == 1 {
        0
    } else {
        let front = joined(parts.drop_last());
        if k < front.len() {
            assert(front[k] == c);
            let i = lemma_joined_chars(parts.drop_last(), c);
            assert(parts.drop_last()[i] == parts[i]);
            i
        } else {
            assert(parts.last()[k - front.len() - 1] == c);
            parts.len() - 1
        }
    }
}

/// What stands in a piece without its drives stands in the piece, and no drive
/// is left in front.
proof fn lemma_undriven(piece: Seq<char>, c: char)
    ensures
        undriven(piece).contains(c) ==> piece.contains(c),
        !has_drive(undriven(piece)),
    decreases piece.len(),
{
    if has_drive(piece) {
        lemma_undriven(piece.skip(2), c);
        if piece.skip(2).contains(c) {
            let k = choose|k: int| 0 <= k < piece.skip(2).len() && piece.skip(2)[k] == c;
            assert(piece[k + 2] == c);
        }
    }
}

/// What holds of the pieces that are kept: each names something, what stands in
/// it stands in one of the given pieces, and on Windows the first has no drive.
proof fn lemma_kept(platform: Platform, parts: Seq<Seq<char>>, c: char)
    ensures
        forall|i: int|
            0 <= i < kept(platform, parts).len() ==> is_normal(#[trigger] kept(platform, parts)[i]),
        forall|i: int|
            0 <= i < kept(platform, parts).len() && (#[trigger] kept(platform, parts)[i]).contains(
                c,
            ) ==> exists|j: int| 0 <= j < parts.len() && (#[trigger] parts[j]).contains(c),
        platform == Platform::Windows && kept(platform, parts).len() > 0 ==> !has_drive(
            kept(platform, parts)[0],
        ),
    decreases parts.len(),
{
    if parts.len() > 0 {
        let front = kept(platform, parts.drop_last());
        let all = kept(platform, parts);
        lemma_kept(platform, parts.drop_last(), c);
        lemma_undriven(parts.last(), c);
        assert forall|i: int| 0 <= i < all.len() && (#[trigger] all[i]).contains(
            c,
        ) implies exists|j: int| 0 <= j < parts.len() && (#[trigger] parts[j]).contains(c) by {
            if i < front.len() {
                assert(front[i] == all[i]);
                let j = choose|j: int|
                    0 <= j < parts.drop_last().len() && (#[trigger] parts.drop_last()[j]).contains(
                        c,
                    );
                assert(parts[j] == parts.drop_last()[j]);
            } else {
                assert(parts[parts.len() - 1].contains(c));
            }
        }
        assert forall|i: int| 0 <= i < all.len() implies is_normal(#[trigger] all[i]) by {
            if i < front.len() {
                assert(front[i] == all[i]);
            }
        }
    }
}

/// What joined parts start with is what the first of them starts with.
proof fn lemma_joined_start(parts: Seq<Seq<char>>)
    requires
        parts.len() > 0,
        parts[0].len() > 0,
    ensures
        joined(parts).len() > 0,
        joined(parts)[0] == parts[0][0],
        parts[0].len() >= 2 ==> joined(parts).len() >= 2 && joined(parts)[1] == parts[0][1],
        parts[0].len() == 1 && joined(parts).len() >= 2 ==> joined(parts)[1] == '/',
    decreases parts.len(),
{
    if parts.len() > 1 {
        lemma_joined_start(parts.drop_last());
        assert(parts.drop_last()[0] == parts[0]);
    }
}

/// Whatever path a peer sends, the path used for it is safe: it is relative,
/// it is not empty, and none of its pieces is empty, `.` or `..`. On Windows it
/// holds no backslash and starts with no drive.
pub proof fn law_safe_path_stays_inside(platform: Platform, rel: Seq<char>)
    ensures
        is_safe(safe_path(platform, rel)),
        is_plain(platform, safe_path(platform, rel)),
        safe_path(platform, rel).len() > 0,
        safe_path(platform, rel)[0] != '/',
{
    let plain = plain_path(platform, rel);
    let names = kept_pieces(platform, rel);
    if names.len() == 0 {
        reveal_strlit("received.bin");
        reveal_strlit(".");
        reveal_strlit("..");
        assert(!"received.bin"@.contains('/'));
        lemma_pieces_of_one("received.bin"@);
    } else {
        lemma_kept(platform, pieces(plain), '/');
        lemma_pieces_hold_no_separator(plain);
        assert forall|i: int| 0 <= i < names.len() implies !(#[trigger] names[i]).contains('/') by {
            if names[i].contains('/') {
                let j = choose|j: int|
                    0 <= j < pieces(plain).len() && (#[trigger] pieces(plain)[j]).contains('/');
                assert(!pieces(plain)[j].contains('/'));
            }
        }
        lemma_pieces_of_joined(names);
        if platform == Platform::Windows {
            lemma_kept(platform, pieces(plain), '\\');
            assert(is_normal(names[0]));
            lemma_joined_start(names);
            if joined(names).contains('\\') {
                let i = lemma_joined_chars(names, '\\');
                assert(names[i].contains('\\'));
                let j = choose|j: int|
                    0 <= j < pieces(plain).len() && (#[trigger] pieces(plain)[j]).contains('\\');
                lemma_piece_chars(plain, j, '\\');
                lemma_plain_has_no_backslash(rel);
            }
        }
    }
    lemma_safe_starts_inside(safe_path(platform, rel));
}

/// A path brought into the plain form holds no backslash.
proof fn lemma_plain_has_no_backslash(path: Seq<char>)
    ensures
        !plain_path(Platform::Windows, path).contains('\\'),
{
    let whole = slashed(path);
    let parts = pieces(whole);
    let plain = plain_path(Platform::Windows, path);
    if plain.contains('\\') {
        let n = prefix_len(parts) as int;
        if n > 0 {
            let i = lemma_joined_chars(parts.skip(n), '\\');
            assert(parts.skip(n)[i] == parts[i + n]);
            lemma_piece_chars(whole, i + n, '\\');
            let k = choose|k: int| 0 <= k < whole.len() && whole[k] == '\\';
        } else {
            let k = choose|k: int| 0 <= k < plain.len() && plain[k] == '\\';
        }
    }
}

/// A path whose pieces are all normal is not empty and has no root.
proof fn lemma_safe_starts_inside(path: Seq<char>)
    requires
        is_safe(path),
    ensures
        path.len() > 0,
        path[0] != '/',
{
    lemma_pieces_nonempty(path);
    lemma_joined_pieces(path);
    assert(is_normal(pieces(path)[0]));
    lemma_first_piece(path);
}

/// The first piece of a path that starts with a separator is empty.
pub(crate) proof fn lemma_first_piece(path: Seq<char>)
    ensures
        path.len() == 0 ==> pieces(path)[0].len() == 0,
        path.len() > 0 && path[0] == '/' ==> pieces(path).len() > 1 && pieces(path)[0].len() == 0,
    decreases path.len(),
{
    if path.len() > 1 {
        lemma_first_piece(path.drop_last());
        lemma_pieces_nonempty(path.drop_last());
    } else if path.len() == 1 {
        assert(path.drop_last() =~= Seq::<char>::empty());
        assert(pieces(path.drop_last()) == seq![Seq::<char>::empty()]);
    }
}

/// A safe path has no root and no `..`.
pub proof fn law_safe_is_inside(path: Seq<char>)
    requires
        is_safe(path),
    ensures
        is_inside(path),
{
    lemma_safe_starts_inside(path);
    if pieces(path).contains(".."@) {
        let i = choose|i: int| 0 <= i < pieces(path).len() && pieces(path)[i] == ".."@;
        assert(is_normal(pieces(path)[i]));
    }
}

/// What a path's last component is called is a safe path of one piece.
pub(crate) proof fn lemma_last_name_is_safe(path: Seq<char>)
    ensures
        last_name(path) matches Some(name) ==> is_safe(name) && !name.contains('/') && name.len()
            > 0,
{
    let keep = |p: Seq<char>| is_component(p);
    let parts = pieces(path).filter(keep);
    if parts.len() > 0 && parts.last() != ".."@ {
        let name = parts.last();
        lemma_filter_members(pieces(path), keep);
        lemma_pieces_hold_no_separator(path);
        assert(keep(parts[parts.len() - 1]));
        let j = choose|j: int| 0 <= j < pieces(path).len() && pieces(path)[j] == name;
        assert(!pieces(path)[j].contains('/'));
        lemma_pieces_of_one(name);
    }
}

/// A piece that names something is a safe path.
pub(crate) proof fn lemma_piece_is_safe(piece: Seq<char>)
    requires
        is_normal(piece),
        !piece.contains('/'),
    ensures
        is_safe(piece),
{
    lemma_pieces_of_one(piece);
}

/// Pieces that all name something, the first without a drive, are all kept.
proof fn lemma_kept_all(platform: Platform, parts: Seq<Seq<char>>)
    requires
        forall|i: int| 0 <= i < parts.len() ==> is_normal(#[trigger] parts[i]),
        platform == Platform::Windows && parts.len() > 0 ==> !has_drive(parts[0]),
    ensures
        kept(platform, parts) == parts,
    decreases parts.len(),
{
    if parts.len() > 0 {
        let front = parts.drop_last();
        assert forall|i: int| 0 <= i < front.len() implies is_normal(#[trigger] front[i]) by {
            assert(front[i] == parts[i]);
        }
        lemma_kept_all(platform, front);
        assert(is_normal(parts[parts.len() - 1]));
        assert(front.push(parts.last()) =~= parts);
    }
}

/// A safe path is stored under its own name.
pub proof fn law_safe_path_keeps_safe(platform: Platform, rel: Seq<char>)
    requires
        is_safe(rel),
        is_plain(platform, rel),
    ensures
        safe_path(platform, rel) == rel,
{
    let parts = pieces(rel);
    lemma_pieces_nonempty(rel);
    lemma_joined_pieces(rel);
    assert(is_normal(parts[0]));
    lemma_joined_start(parts);
    if platform == Platform::Windows {
        assert(slashed(rel) =~= rel) by {
            assert forall|k: int| 0 <= k < rel.len() implies rel[k] != '\\' by {
                assert(rel.contains(rel[k]));
            }
        }
    }
    assert(plain_path(platform, rel) == rel);
    lemma_kept_all(platform, parts);
}

/// Making a path safe twice is making it safe once.
pub proof fn law_safe_path_idempotent(platform: Platform, rel: Seq<char>)
    ensures
        safe_path(platform, safe_path(platform, rel)) == safe_path(platform, rel),
{
    law_safe_path_stays_inside(platform, rel);
    law_safe_path_keeps_safe(platform, safe_path(platform, rel));
}

/// The pieces of a path are what stands between its separators: put together
/// they are the path again, and none of them holds a separator.
pub proof fn law_pieces_make_up_the_path(path: Seq<char>)
    ensures
        pieces(path).len() > 0,
        joined(pieces(path)) == path,
        forall|i: int| 0 <= i < pieces(path).len() ==> !(#[trigger] pieces(path)[i]).contains('/'),
{
    lemma_pieces_nonempty(path);
    lemma_joined_pieces(path);
    lemma_pieces_hold_no_separator(path);
}

/// Parts without separators, put together and taken apart again, are those
/// parts.
pub proof fn law_parts_come_apart_again(parts: Seq<Seq<char>>)
    requires
        parts.len() > 0,
        forall|i: int| 0 <= i < parts.len() ==> !(#[trigger] parts[i]).contains('/'),
    ensures
        pieces(joined(parts)) == parts,
{
    lemma_pieces_of_joined(parts);
}

/// Parts are put together with one separator between two of them, none lost.
pub proof fn law_joined_keeps_every_part(parts: Seq<Seq<char>>, part: Seq<char>)
    ensures
        joined(seq![part]) == part,
        parts.len() > 0 ==> joined(parts.push(part)) == joined(parts).push('/') + part,
{
    assert(parts.push(part).drop_last() =~= parts);
}

/// A path that ends in a name, whatever stands before it, has that whole name.
pub proof fn law_last_name_is_the_whole_name(path: Seq<char>, name: Seq<char>)
    requires
        name.len() > 0,
        name != "."@,
        name != ".."@,
        !name.contains('/'),
    ensures
        last_name(name) == Some(name),
        last_name(path.push('/') + name) == Some(name),
{
    let keep = |p: Seq<char>| is_component(p);
    lemma_pieces_of_one(name);
    lemma_pieces_concat(path, name);
    lemma_filter_push(Seq::<Seq<char>>::empty(), name, keep);
    assert(Seq::<Seq<char>>::empty().push(name) =~= seq![name]);
    assert(pieces(path) + seq![name] =~= pieces(path).push(name));
    lemma_filter_push(pieces(path), name, keep);
}

/// Separators and `.` at the end of a path do not change what it is called.
pub proof fn law_last_name_looks_past_the_end(path: Seq<char>)
    ensures
        last_name(path.push('/')) == last_name(path),
        last_name(path.push('/').push('.')) == last_name(path),
{
    reveal_strlit(".");
    let keep = |p: Seq<char>| is_component(p);
    let none = Seq::<char>::empty();
    let dot = seq!['.'];
    assert(path.push('/').drop_last() =~= path);
    lemma_filter_push(pieces(path), none, keep);
    assert(dot =~= "."@);
    assert(!dot.contains('/'));
    lemma_pieces_of_one(dot);
    lemma_pieces_concat(path, dot);
    assert(path.push('/') + dot =~= path.push('/').push('.'));
    assert(pieces(path) + seq![dot] =~= pieces(path).push(dot));
    lemma_filter_push(pieces(path), dot, keep);
}

/// A path that ends in `..` is called nothing, and so is one that is empty or
/// only the current directory.
pub proof fn law_no_last_name(path: Seq<char>)
    ensures
        last_name(Seq::<char>::empty()) is None,
        last_name("."@) is None,
        last_name(".."@) is None,
        last_name(path.push('/') + ".."@) is None,
{
    reveal_strlit(".");
    reveal_strlit("..");
    let keep = |p: Seq<char>| is_component(p);
    let none = Seq::<Seq<char>>::empty();
    lemma_pieces_of_one("."@);
    lemma_pieces_of_one(".."@);
    lemma_pieces_of_one(Seq::<char>::empty());
    lemma_filter_push(none, "."@, keep);
    lemma_filter_push(none, ".."@, keep);
    lemma_filter_push(none, Seq::<char>::empty(), keep);
    assert(none.push("."@) =~= seq!["."@]);
    assert(none.push(".."@) =~= seq![".."@]);
    assert(none.push(Seq::<char>::empty()) =~= seq![Seq::<char>::empty()]);
    reveal(Seq::filter);
    assert(none.filter(keep) =~= none);
    lemma_pieces_concat(path, ".."@);
    assert(pieces(path) + seq![".."@] =~= pieces(path).push(".."@));
    lemma_filter_push(pieces(path), ".."@, keep);
}

/// On Unix all pieces are kept but empty ones, `.` and `..`.
proof fn lemma_unix_keeps_names(parts: Seq<Seq<char>>, keep: spec_fn(Seq<char>) -> bool)
    requires
        forall|p: Seq<char>| #[trigger] keep(p) == (p.len() > 0 && p != "."@ && p != ".."@),
    ensures
        kept(Platform::Unix, parts) == parts.filter(keep),
    decreases parts.len(),
{
    if parts.len() == 0 {
        reveal(Seq::filter);
        assert(parts.filter(keep) =~= parts);
    } else {
        lemma_unix_keeps_names(parts.drop_last(), keep);
        lemma_filter_push(parts.drop_last(), parts.last(), keep);
        assert(parts.drop_last().push(parts.last()) =~= parts);
        assert(keep(parts.last()) == is_normal(parts.last()));
    }
}

/// What is stored of a path are all its pieces that name something, whole and in
/// order; only a path without any is stored under the stand-in.
pub proof fn law_safe_path_is_all_the_names(rel: Seq<char>)
    ensures
        ({
            let names = pieces(rel).filter(
                |p: Seq<char>| p.len() > 0 && p != "."@ && p != ".."@,
            );
            &&& names.len() == 0 ==> safe_path(Platform::Unix, rel) == "received.bin"@
            &&& names.len() > 0 ==> safe_path(Platform::Unix, rel) == joined(names)
        }),
{
    lemma_unix_keeps_names(
        pieces(rel),
        |p: Seq<char>| p.len() > 0 && p != "."@ && p != ".."@,
    );
}

/// A backslash is turned into a separator, and nothing else is changed.
pub proof fn law_slashed_changes_backslashes_only(path: Seq<char>, i: int)
    ensures
        slashed(path).len() == path.len(),
        0 <= i < path.len() ==> slashed(path)[i] == if path[i] == '\\' {
            '/'
        } else {
            path[i]
        },
{
}

/// What joined parts start with is the first part and a separator.
proof fn lemma_joined_front(parts: Seq<Seq<char>>)
    requires
        parts.len() >= 2,
    ensures
        joined(parts) == parts[0].push('/') + joined(parts.drop_first()),
    decreases parts.len(),
{
    let front = parts.drop_last();
    let rest = parts.drop_first();
    if parts.len() == 2 {
        assert(front =~= seq![parts[0]]);
        assert(rest =~= seq![parts[1]]);
        assert(joined(front) == parts[0]);
        assert(joined(rest) == parts[1]);
    } else {
        lemma_joined_front(front);
        assert(front.drop_first() =~= rest.drop_last());
        assert(rest.last() == parts.last());
        assert(joined(parts) =~= parts[0].push('/') + joined(rest));
    }
}

/// Only a path with two separators in front has a prefix of several pieces.
proof fn lemma_prefix_needs_two_separators(path: Seq<char>)
    requires
        !(path.len() >= 2 && path[0] == '/' && path[1] == '/'),
    ensures
        prefix_len(pieces(path)) == 0,
{
    let parts = pieces(path);
    if prefix_len(parts) > 0 {
        lemma_joined_pieces(path);
        lemma_joined_front(parts);
        let rest = parts.drop_first();
        lemma_joined_front(rest);
        assert(rest[0] == parts[1]);
        assert(joined(parts)[0] == '/');
        assert(joined(rest)[0] == '/');
        assert(joined(parts)[1] == joined(rest)[0]);
    }
}

/// A Unix path stays as it is. A Windows path without two separators in front
/// loses a drive, where one stands there, and has separators for backslashes.
pub proof fn law_plain_path(path: Seq<char>)
    ensures
        plain_path(Platform::Unix, path) == path,
        !(slashed(path).len() >= 2 && slashed(path)[0] == '/' && slashed(path)[1] == '/') ==> (
        if path.len() >= 2 && path[1] == ':' && ('a' <= path[0] <= 'z' || 'A' <= path[0] <= 'Z') {
            plain_path(Platform::Windows, path) == slashed(path.skip(2))
        } else {
            plain_path(Platform::Windows, path) == slashed(path)
        }),
{
    if !(slashed(path).len() >= 2 && slashed(path)[0] == '/' && slashed(path)[1] == '/') {
        lemma_prefix_needs_two_separators(slashed(path));
    }
}

/// On Windows it makes no difference whether a separator is written as `/` or as
/// a backslash.
pub proof fn law_backslash_separates_on_windows(path: Seq<char>)
    ensures
        plain_path(Platform::Windows, path) == plain_path(Platform::Windows, slashed(path)),
        safe_path(Platform::Windows, path) == safe_path(Platform::Windows, slashed(path)),
{
    assert(slashed(slashed(path)) =~= slashed(path));
    assert(has_drive(slashed(path)) == has_drive(path));
    if path.len() >= 2 {
        assert(slashed(slashed(path).skip(2)) =~= slashed(path.skip(2)));
    }
}

/// On Windows a share in front of a path is dropped, all of it and nothing more.
pub proof fn law_share_is_dropped_on_windows(
    server: Seq<char>,
    share: Seq<char>,
    rest: Seq<char>,
)
    requires
        server.len() > 0,
        share.len() > 0,
        !server.contains('/') && !server.contains('\\'),
        !share.contains('/') && !share.contains('\\'),
        !(server == "?"@ && share == "UNC"@),
    ensures
        plain_path(
            Platform::Windows,
            seq!['/', '/'] + server + seq!['/'] + share + seq!['/'] + rest,
        ) == slashed(rest),
{
    let path = seq!['/', '/'] + server + seq!['/'] + share + seq!['/'] + rest;
    let none = Seq::<char>::empty();
    lemma_slashed_name(server);
    lemma_slashed_name(share);
    let after_share = slashed(rest);
    let after_server = share.push('/') + after_share;
    let after_second = server.push('/') + after_server;
    let after_first = none.push('/') + after_second;
    assert(slashed(path) =~= none.push('/') + after_first);
    lemma_pieces_concat(share, after_share);
    lemma_pieces_concat(server, after_server);
    lemma_pieces_concat(none, after_second);
    lemma_pieces_concat(none, after_first);
    lemma_pieces_of_one(none);
    lemma_pieces_of_one(server);
    lemma_pieces_of_one(share);
    lemma_pieces_nonempty(after_share);
    let parts = pieces(slashed(path));
    assert(parts =~= seq![none, none, server, share] + pieces(after_share));
    assert(prefix_len(parts) == 4);
    assert(parts.skip(4) =~= pieces(after_share));
    lemma_joined_pieces(after_share);
}

/// The same with the verbatim spelling of a share.
pub proof fn law_verbatim_share_is_dropped_on_windows(
    server: Seq<char>,
    share: Seq<char>,
    rest: Seq<char>,
)
    requires
        !server.contains('/') && !server.contains('\\'),
        !share.contains('/') && !share.contains('\\'),
    ensures
        plain_path(
            Platform::Windows,
            seq!['/', '/', '?', '/', 'U', 'N', 'C', '/'] + server + seq!['/'] + share + seq!['/']
                + rest,
        ) == slashed(rest),
{
    reveal_strlit("?");
    reveal_strlit("UNC");
    let path = seq!['/', '/', '?', '/', 'U', 'N', 'C', '/'] + server + seq!['/'] + share + seq!['/']
        + rest;
    let none = Seq::<char>::empty();
    let mark = seq!['?'];
    let unc = seq!['U', 'N', 'C'];
    lemma_slashed_name(server);
    lemma_slashed_name(share);
    let after_share = slashed(rest);
    let after_server = share.push('/') + after_share;
    let after_unc = server.push('/') + after_server;
    let after_mark = unc.push('/') + after_unc;
    let after_second = mark.push('/') + after_mark;
    let after_first = none.push('/') + after_second;
    assert(slashed(path) =~= none.push('/') + after_first);
    lemma_pieces_concat(share, after_share);
    lemma_pieces_concat(server, after_server);
    lemma_pieces_concat(unc, after_unc);
    lemma_pieces_concat(mark, after_mark);
    lemma_pieces_concat(none, after_second);
    lemma_pieces_concat(none, after_first);
    lemma_pieces_of_one(none);
    lemma_pieces_of_one(server);
    lemma_pieces_of_one(share);
    lemma_pieces_of_one(mark);
    lemma_pieces_of_one(unc);
    lemma_pieces_nonempty(after_share);
    let parts = pieces(slashed(path));
    assert(parts =~= seq![none, none, mark, unc, server, share] + pieces(after_share));
    assert(mark =~= "?"@);
    assert(unc =~= "UNC"@);
    assert(prefix_len(parts) == 6);
    assert(parts.skip(6) =~= pieces(after_share));
    lemma_joined_pieces(after_share);
}

/// A name without backslashes has none to turn.
proof fn lemma_slashed_name(name: Seq<char>)
    requires
        !name.contains('\\'),
    ensures
        slashed(name) == name,
        forall|k: int| 0 <= k < name.len() ==> #[trigger] name[k] != '\\',
{
    assert forall|k: int| 0 <= k < name.len() implies #[trigger] name[k] != '\\' by {
        assert(name.contains(name[k]));
    }
    assert(slashed(name) =~= name);
}

/// What is kept of pieces behind others goes by what is kept of those others.
proof fn lemma_kept_behind(
    platform: Platform,
    a: Seq<Seq<char>>,
    b: Seq<Seq<char>>,
    rest: Seq<Seq<char>>,
)
    requires
        kept(platform, a) == kept(platform, b),
    ensures
        kept(platform, a + rest) == kept(platform, b + rest),
    decreases rest.len(),
{
    if rest.len() == 0 {
        assert(a + rest =~= a);
        assert(b + rest =~= b);
    } else {
        lemma_kept_behind(platform, a, b, rest.drop_last());
        assert((a + rest).drop_last() =~= a + rest.drop_last());
        assert((b + rest).drop_last() =~= b + rest.drop_last());
    }
}

/// What is kept of one piece.
proof fn lemma_kept_one(platform: Platform, piece: Seq<char>)
    ensures
        ({
            let name = if platform == Platform::Windows {
                undriven(piece)
            } else {
                piece
            };
            kept(platform, seq![piece]) == if is_normal(name) {
                seq![name]
            } else {
                Seq::<Seq<char>>::empty()
            }
        }),
{
    let none = Seq::<Seq<char>>::empty();
    assert(seq![piece].drop_last() =~= none);
    assert(kept(platform, none) =~= none);
}

/// Behind a piece that is kept, all names are.
proof fn lemma_kept_after_name(name: Seq<char>, rest: Seq<Seq<char>>)
    requires
        is_normal(name),
        !has_drive(name),
    ensures
        kept(Platform::Windows, seq![name] + rest) == seq![name] + kept(Platform::Unix, rest),
    decreases rest.len(),
{
    if rest.len() == 0 {
        lemma_kept_one(Platform::Windows, name);
        assert(seq![name] + rest =~= seq![name]);
        assert(kept(Platform::Unix, rest) =~= rest);
    } else {
        lemma_kept_after_name(name, rest.drop_last());
        assert((seq![name] + rest).drop_last() =~= seq![name] + rest.drop_last());
        let front = kept(Platform::Unix, rest.drop_last());
        assert(seq![name] + front.push(rest.last()) =~= (seq![name] + front).push(rest.last()));
    }
}

/// On Windows, what is kept of the pieces of a path is decided from the front: a
/// piece that names nothing is dropped, a drive in front of the first name is
/// dropped from it, and from the first name on all names are kept whole, as on
/// Unix.
pub proof fn law_windows_drops_drives_only(
    drive: char,
    piece: Seq<char>,
    rest: Seq<Seq<char>>,
)
    ensures
        'a' <= drive <= 'z' || 'A' <= drive <= 'Z' ==> kept(
            Platform::Windows,
            seq![seq![drive, ':'] + piece] + rest,
        ) == kept(Platform::Windows, seq![piece] + rest),
        piece.len() == 0 || piece == "."@ || piece == ".."@ ==> kept(
            Platform::Windows,
            seq![piece] + rest,
        ) == kept(Platform::Windows, rest),
        piece.len() > 0 && piece != "."@ && piece != ".."@ && !(piece.len() >= 2 && piece[1] == ':'
            && ('a' <= piece[0] <= 'z' || 'A' <= piece[0] <= 'Z')) ==> kept(
            Platform::Windows,
            seq![piece] + rest,
        ) == seq![piece] + kept(Platform::Unix, rest),
{
    reveal_strlit(".");
    reveal_strlit("..");
    lemma_kept_one(Platform::Windows, piece);
    if 'a' <= drive <= 'z' || 'A' <= drive <= 'Z' {
        let driven = seq![drive, ':'] + piece;
        lemma_kept_one(Platform::Windows, driven);
        assert(driven.skip(2) =~= piece);
        assert(has_drive(driven));
        assert(undriven(driven) == undriven(piece));
        lemma_kept_behind(Platform::Windows, seq![driven], seq![piece], rest);
    }
    if piece.len() == 0 || piece == "."@ || piece == ".."@ {
        let none = Seq::<Seq<char>>::empty();
        assert(!has_drive(piece));
        assert(kept(Platform::Windows, none) =~= none);
        lemma_kept_behind(Platform::Windows, seq![piece], none, rest);
        assert(none + rest =~= rest);
    } else if !has_drive(piece) {
        lemma_kept_after_name(piece, rest);
    }
}

/// What is stored on Windows are the pieces that are kept there of the path
/// without its prefix; only where there is none is it the stand-in.
pub proof fn law_windows_stores_what_is_kept(rel: Seq<char>)
    ensures
        ({
            let names = kept(
                Platform::Windows,
                pieces(plain_path(Platform::Windows, rel)),
            );
            &&& names.len() == 0 ==> safe_path(Platform::Windows, rel) == "received.bin"@
            &&& names.len() > 0 ==> safe_path(Platform::Windows, rel) == joined(names)
        }),
{
}

/// A name is put behind a path whole, with one separator between the two; an
/// absolute one stands alone.
pub proof fn law_extended_by_the_whole_name(path: Seq<char>, name: Seq<char>)
    ensures
        name.len() > 0 && name[0] == '/' ==> extended(path, name) == name,
        !(name.len() > 0 && name[0] == '/') && path.len() > 0 && path.last() != '/' ==> extended(
            path,
            name,
        ) == path + seq!['/'] + name,
        !(name.len() > 0 && name[0] == '/') && (path.len() == 0 || path.last() == '/')
            ==> extended(path, name) == path + name,
{
    assert(path.push('/') =~= path + seq!['/']);
}

/// On Windows two separators in front make a prefix only where a server and a
/// share follow; a share with nothing behind it leaves nothing.
pub proof fn law_two_separators_need_a_share(
    server: Seq<char>,
    share: Seq<char>,
    rest: Seq<char>,
)
    requires
        !server.contains('/') && !server.contains('\\'),
        !share.contains('/') && !share.contains('\\'),
    ensures
        plain_path(Platform::Windows, seq!['/', '/'] + server) == seq!['/', '/'] + server,
        plain_path(Platform::Windows, seq!['/', '/', '/'] + rest) == seq!['/', '/', '/'] + slashed(
            rest,
        ),
        server.len() > 0 && share.len() > 0 ==> plain_path(
            Platform::Windows,
            seq!['/', '/'] + server + seq!['/'] + share,
        ) == Seq::<char>::empty(),
{
    reveal_strlit("?");
    reveal_strlit("UNC");
    let none = Seq::<char>::empty();
    lemma_slashed_name(server);
    lemma_slashed_name(share);
    lemma_pieces_of_one(none);
    lemma_pieces_of_one(server);
    lemma_pieces_of_one(share);
    let alone = seq!['/', '/'] + server;
    assert(slashed(alone) =~= alone);
    assert(alone =~= none.push('/') + (none.push('/') + server));
    lemma_pieces_concat(none, server);
    lemma_pieces_concat(none, none.push('/') + server);
    assert(pieces(alone) =~= seq![none, none, server]);
    let third = seq!['/', '/', '/'] + rest;
    let after_third = none.push('/') + slashed(rest);
    let after_second = none.push('/') + after_third;
    assert(slashed(third) =~= seq!['/', '/', '/'] + slashed(rest));
    assert(slashed(third) =~= none.push('/') + after_second);
    lemma_pieces_concat(none, slashed(rest));
    lemma_pieces_concat(none, after_third);
    lemma_pieces_concat(none, after_second);
    assert(pieces(slashed(third)) =~= seq![none, none, none] + pieces(slashed(rest)));
    if server.len() > 0 && share.len() > 0 {
        let path = seq!['/', '/'] + server + seq!['/'] + share;
        let tail = server.push('/') + share;
        assert(slashed(path) =~= none.push('/') + (none.push('/') + tail));
        lemma_pieces_concat(server, share);
        lemma_pieces_concat(none, tail);
        lemma_pieces_concat(none, none.push('/') + tail);
        let parts = pieces(slashed(path));
        assert(parts =~= seq![none, none, server, share]);
        assert(prefix_len(parts) == 4);
        assert(parts.skip(4) =~= Seq::<Seq<char>>::empty());
    }
}

} // verus!
