//! Building the list of files to send.
//!
//! The program walks the file system; what each entry contributes, under which
//! path, and what the finished list looks like is decided here.

use crate::framed::FileEntry;
use crate::paths::{
    extended, file_name, is_inside, is_normal, is_plain, is_safe, join, joined, last_name, pieces,
    safe_path, Platform,
};
use crate::paths::{
    law_last_name_is_the_whole_name, law_last_name_looks_past_the_end, law_no_last_name,
    law_safe_path_keeps_safe, lemma_first_piece, lemma_last_name_is_safe, lemma_piece_is_safe,
    lemma_pieces_of_joined,
};
use crate::text::phrase;
use vstd::multiset::Multiset;
use vstd::prelude::*;
use vstd::utf8::{encode_utf8, encode_utf8_decode_utf8};

verus! {

/// A manifest entry with the place of its content on the sender's machine.
/// Only the entry is sent; the source is used to read the file again.
pub struct ManifestItem<S> {
    pub entry: FileEntry,
    pub source: S,
}

/// Why there is no list to send.
#[derive(Debug, PartialEq, Eq)]
pub enum ManifestError {
    /// Two inputs have this name, or two entries have this path.
    Duplicate { name: String },
    /// There is nothing to send.
    NoFiles,
}

impl ManifestError {
    /// What is said about it.
    pub fn text(&self) -> (text: String)
        ensures
            text@ == match *self {
                ManifestError::Duplicate { name } => "duplicate entry name: "@ + name@,
                ManifestError::NoFiles => "no files to send (all inputs empty or skipped)"@,
            },
    {
        match self {
            ManifestError::Duplicate { name } => phrase("duplicate entry name: ", name.as_str()),
            ManifestError::NoFiles => "no files to send (all inputs empty or skipped)".to_owned(),
        }
    }
}

/// What an input or a directory entry is.
#[derive(Debug, Clone, Copy, PartialEq, Eq, Structural)]
pub enum EntryKind {
    Symlink,
    Directory,
    File,
    Other,
}

/// What to do about an input.
#[derive(Debug)]
pub enum InputStep {
    /// Walk the directory; its files' paths start with `prefix`.
    Walk { prefix: String },
    /// Add the file under this path.
    Add { relpath: String },
    /// Symbolic links are not followed.
    SkipSymlink,
    /// Neither a file nor a directory.
    SkipSpecial,
}

/// The name under which an input stands at the top of the transfer, if it
/// stands there.
pub open spec fn top_name(step: InputStep) -> Option<Seq<char>> {
    match step {
        InputStep::Walk { prefix } => Some(prefix@),
        InputStep::Add { relpath } => Some(relpath@),
        InputStep::SkipSymlink => None,
        InputStep::SkipSpecial => None,
    }
}

impl InputStep {
    /// The name under which the input stands at the top of the transfer.
    pub fn name(&self) -> (name: Option<String>)
        ensures
            match name {
                Some(n) => top_name(*self) == Some(n@),
                None => top_name(*self) is None,
            },
    {
        match self {
            InputStep::Walk { prefix } => Some(prefix.clone()),
            InputStep::Add { relpath } => Some(relpath.clone()),
            InputStep::SkipSymlink => None,
            InputStep::SkipSpecial => None,
        }
    }
}

/// What an input given as `path` is called in the transfer: its own name, or
/// a stand-in where it has none.
pub open spec fn input_name(path: Seq<char>, stand_in: Seq<char>) -> Seq<char> {
    match last_name(path) {
        Some(name) => name,
        None => stand_in,
    }
}

fn own_name(path: &str, stand_in: &str) -> (name: String)
    ensures
        name@ == input_name(path@, stand_in@),
{
    match file_name(path) {
        Some(name) => name,
        None => stand_in.to_owned(),
    }
}

/// Decide what an input contributes. `path` has `/` between its pieces, and
/// `kind` is that of the path itself, not of what a link leads to.
pub fn input_step(path: &str, kind: EntryKind) -> (step: InputStep)
    ensures
        match kind {
            EntryKind::Symlink => step is SkipSymlink,
            EntryKind::Directory => step matches InputStep::Walk { prefix } && prefix@
                == input_name(path@, "dir"@),
            EntryKind::File => step matches InputStep::Add { relpath } && relpath@ == input_name(
                path@,
                "file"@,
            ),
            EntryKind::Other => step is SkipSpecial,
        },
{
    match kind {
        EntryKind::Symlink => InputStep::SkipSymlink,
        EntryKind::Directory => InputStep::Walk { prefix: own_name(path, "dir") },
        EntryKind::File => InputStep::Add { relpath: own_name(path, "file") },
        EntryKind::Other => InputStep::SkipSpecial,
    }
}

/// Whether no two of these names are the same.
pub open spec fn all_differ(names: Seq<String>) -> bool {
    forall|i: int, j: int|
        0 <= i < j < names.len() ==> (#[trigger] names[i])@ != (#[trigger] names[j])@
}

/// Whether two of these names are `name`.
pub open spec fn comes_twice(names: Seq<String>, name: Seq<char>) -> bool {
    exists|i: int, j: int|
        0 <= i < j < names.len() && (#[trigger] names[i])@ == name && (#[trigger] names[j])@ == name
}

/// Refuse inputs of which two have the same name at the top of the transfer,
/// before anything is read or sent. The smallest name that comes twice is given.
pub fn check_inputs(names: &Vec<String>) -> (result: Result<(), ManifestError>)
    ensures
        result is Ok <==> all_differ(names@),
        result matches Err(e) ==> (e matches ManifestError::Duplicate { name } && comes_twice(
            names@,
            name@,
        ) && forall|other: Seq<char>| #[trigger]
            comes_twice(names@, other) ==> name_le(name@, other)),
{
    let mut best: Option<usize> = None;
    let mut j: usize = 0;
    while j < names.len()
        invariant
            j <= names@.len(),
            best_among(names@, best, j as int, 0),
        decreases names@.len() - j,
    {
        let mut i: usize = 0;
        while i < j
            invariant
                i <= j,
                j < names@.len(),
                best_among(names@, best, j as int, i as int),
            decreases j - i,
        {
            if names[i] == names[j] {
                let better: bool = match best {
                    None => true,
                    Some(k) => !text_le(names[k].as_str(), names[j].as_str()),
                };
                let ghost before = best;
                if better {
                    best = Some(j);
                }
                proof {
                    lemma_best(names@, before, best, j as int, i as int);
                }
            }
            i = i + 1;
        }
        j = j + 1;
    }
    match best {
        None => {
            proof {
                assert forall|a: int, b: int| 0 <= a < b < names@.len() implies (
                #[trigger] names@[a])@ != (#[trigger] names@[b])@ by {}
            }
            Ok(())
        },
        Some(k) => {
            proof {
                assert forall|other: Seq<char>| #[trigger]
                    comes_twice(names@, other) implies name_le(names@[k as int]@, other) by {
                    let (a, b) = choose|a: int, b: int|
                        0 <= a < b < names@.len() && (#[trigger] names@[a])@ == other && (
                        #[trigger] names@[b])@ == other;
                    assert(names@[a]@ == names@[b]@);
                }
            }
            Err(ManifestError::Duplicate { name: names[k].clone() })
        },
    }
}

/// Whether `best` stands for the smallest name that comes twice, as far as pairs
/// before `j` and those of `j` with a place before `i` show.
spec fn best_among(names: Seq<String>, best: Option<usize>, j: int, i: int) -> bool {
    &&& best matches Some(k) ==> k < names.len() && comes_twice(names, names[k as int]@)
    &&& forall|a: int, b: int|
        0 <= a < b < names.len() && (b < j || (b == j && a < i)) && (#[trigger] names[a])@ == (
        #[trigger] names[b])@ ==> best is Some && name_le(names[best->0 as int]@, names[a]@)
}

proof fn lemma_best(
    names: Seq<String>,
    before: Option<usize>,
    after: Option<usize>,
    j: int,
    i: int,
)
    requires
        0 <= i < j < names.len(),
        j <= usize::MAX,
        names[i]@ == names[j]@,
        best_among(names, before, j, i),
        after == (if before is None || !name_le(names[before->0 as int]@, names[j]@) {
            Some(j as usize)
        } else {
            before
        }),
    ensures
        best_among(names, after, j, i + 1),
{
    lemma_bytes_le_refl(encode_utf8(names[j]@));
    assert(comes_twice(names, names[j]@));
    if before is Some {
        let old_best = names[before->0 as int]@;
        lemma_bytes_le_total(encode_utf8(old_best), encode_utf8(names[j]@));
        assert forall|a: int, b: int|
            0 <= a < b < names.len() && (b < j || (b == j && a < i + 1)) && (#[trigger] names[a])@
                == (#[trigger] names[b])@ implies name_le(names[after->0 as int]@, names[a]@) by {
            if b == j && a == i {
            } else {
                assert(name_le(old_best, names[a]@));
                if after != before {
                    lemma_bytes_le_trans(
                        encode_utf8(names[j]@),
                        encode_utf8(old_best),
                        encode_utf8(names[a]@),
                    );
                }
            }
        }
    }
}

/// What to do about an entry of a walked directory.
#[derive(Debug)]
pub enum WalkStep {
    /// Symbolic links are not followed.
    SkipSymlink,
    /// Walk the directory; its files' paths start with `prefix`.
    Descend { prefix: String },
    /// Add the file under this path.
    Add { relpath: String },
    /// Neither a file nor a directory.
    SkipSpecial,
}

/// Decide what an entry called `name` contributes, in a directory whose files'
/// paths start with `prefix`.
pub fn walk_step(prefix: &str, name: &str, kind: EntryKind) -> (step: WalkStep)
    ensures
        match kind {
            EntryKind::Symlink => step is SkipSymlink,
            EntryKind::Directory => step matches WalkStep::Descend { prefix: p } && p@ == extended(
                prefix@,
                name@,
            ),
            EntryKind::File => step matches WalkStep::Add { relpath } && relpath@ == extended(
                prefix@,
                name@,
            ),
            EntryKind::Other => step is SkipSpecial,
        },
{
    match kind {
        EntryKind::Symlink => WalkStep::SkipSymlink,
        EntryKind::Directory => WalkStep::Descend { prefix: join(prefix, name) },
        EntryKind::File => WalkStep::Add { relpath: join(prefix, name) },
        EntryKind::Other => WalkStep::SkipSpecial,
    }
}

/// Byte strings in dictionary order.
pub open spec fn bytes_le(a: Seq<u8>, b: Seq<u8>) -> bool
    decreases a.len(),
{
    a.len() == 0 || (b.len() > 0 && (a[0] < b[0] || (a[0] == b[0] && bytes_le(
        a.drop_first(),
        b.drop_first(),
    ))))
}

/// Names in dictionary order of their UTF-8 bytes.
pub open spec fn name_le(a: Seq<char>, b: Seq<char>) -> bool {
    bytes_le(encode_utf8(a), encode_utf8(b))
}

/// Names in strict order.
pub open spec fn name_lt(a: Seq<char>, b: Seq<char>) -> bool {
    name_le(a, b) && a != b
}

/// The paths of a list of items.
pub open spec fn names<S>(items: Seq<ManifestItem<S>>) -> Seq<Seq<char>> {
    items.map_values(|item: ManifestItem<S>| item.entry.relpath@)
}

/// Names in order, equal ones allowed.
pub open spec fn in_order(list: Seq<Seq<char>>) -> bool {
    forall|i: int, j: int| 0 <= i <= j < list.len() ==> name_le(#[trigger] list[i], #[trigger] list[j])
}

/// Names in strict order: no two are equal.
pub open spec fn strictly_in_order(list: Seq<Seq<char>>) -> bool {
    forall|i: int, j: int| 0 <= i < j < list.len() ==> name_lt(#[trigger] list[i], #[trigger] list[j])
}

/// How often a path occurs among the items.
pub open spec fn occurrences<S>(items: Seq<ManifestItem<S>>, name: Seq<char>) -> nat {
    names(items).to_multiset().count(name)
}

proof fn lemma_bytes_le_refl(a: Seq<u8>)
    ensures
        bytes_le(a, a),
    decreases a.len(),
{
    if a.len() > 0 {
        lemma_bytes_le_refl(a.drop_first());
    }
}

proof fn lemma_bytes_le_total(a: Seq<u8>, b: Seq<u8>)
    ensures
        bytes_le(a, b) || bytes_le(b, a),
    decreases a.len(),
{
    if a.len() > 0 && b.len() > 0 {
        lemma_bytes_le_total(a.drop_first(), b.drop_first());
    }
}

proof fn lemma_bytes_le_trans(a: Seq<u8>, b: Seq<u8>, c: Seq<u8>)
    requires
        bytes_le(a, b),
        bytes_le(b, c),
    ensures
        bytes_le(a, c),
    decreases a.len(),
{
    if a.len() > 0 && a[0] == b[0] && b[0] == c[0] {
        lemma_bytes_le_trans(a.drop_first(), b.drop_first(), c.drop_first());
    }
}

proof fn lemma_bytes_le_antisym(a: Seq<u8>, b: Seq<u8>)
    requires
        bytes_le(a, b),
        bytes_le(b, a),
    ensures
        a == b,
    decreases a.len(),
{
    if a.len() > 0 {
        lemma_bytes_le_antisym(a.drop_first(), b.drop_first());
        assert(a =~= seq![a[0]] + a.drop_first());
        assert(b =~= seq![b[0]] + b.drop_first());
    } else {
        assert(b.len() == 0);
        assert(a =~= b);
    }
}

proof fn lemma_name_le_antisym(a: Seq<char>, b: Seq<char>)
    requires
        name_le(a, b),
        name_le(b, a),
    ensures
        a == b,
{
    lemma_bytes_le_antisym(encode_utf8(a), encode_utf8(b));
    encode_utf8_decode_utf8(a);
    encode_utf8_decode_utf8(b);
}

/// Whether `a` stands before `b` in the dictionary or is the same.
fn text_le(a: &str, b: &str) -> (le: bool)
    ensures
        le == name_le(a@, b@),
{
    let x = a.as_bytes();
    let y = b.as_bytes();
    let mut i: usize = 0;
    proof {
        assert(x@.skip(0) =~= x@);
        assert(y@.skip(0) =~= y@);
    }
    while i < x.len()
        invariant
            x@ == encode_utf8(a@),
            y@ == encode_utf8(b@),
            i <= x@.len(),
            i <= y@.len(),
            bytes_le(x@, y@) == bytes_le(x@.skip(i as int), y@.skip(i as int)),
        decreases x@.len() - i,
    {
        if i >= y.len() {
            return false;
        }
        if x[i] != y[i] {
            return x[i] < y[i];
        }
        proof {
            assert(x@.skip(i as int).drop_first() =~= x@.skip(i + 1));
            assert(y@.skip(i as int).drop_first() =~= y@.skip(i + 1));
        }
        i = i + 1;
    }
    true
}

spec fn rel<S>(item: ManifestItem<S>) -> Seq<char> {
    item.entry.relpath@
}

/// No item of `low` comes after an item of `high`.
spec fn all_below<S>(low: Seq<ManifestItem<S>>, high: Seq<ManifestItem<S>>) -> bool {
    forall|i: int, j: int|
        0 <= i < low.len() && 0 <= j < high.len() ==> name_le(
            rel(#[trigger] low[i]),
            rel(#[trigger] high[j]),
        )
}

spec fn items_in_order<S>(items: Seq<ManifestItem<S>>) -> bool {
    forall|i: int, j: int|
        0 <= i <= j < items.len() ==> name_le(rel(#[trigger] items[i]), rel(#[trigger] items[j]))
}

spec fn items_reversed<S>(items: Seq<ManifestItem<S>>) -> bool {
    forall|i: int, j: int|
        0 <= i <= j < items.len() ==> name_le(rel(#[trigger] items[j]), rel(#[trigger] items[i]))
}

/// Turn a list in falling order around.
fn turn_around<S>(list: Vec<ManifestItem<S>>) -> (out: Vec<ManifestItem<S>>)
    requires
        items_reversed(list@),
    ensures
        items_in_order(out@),
        out@.to_multiset() == list@.to_multiset(),
        out@.len() == list@.len(),
{
    let mut list = list;
    let ghost all = list@;
    let mut out: Vec<ManifestItem<S>> = Vec::new();
    proof {
        broadcast use vstd::seq_lib::group_to_multiset_ensures;

        assert(out@.to_multiset() =~= Multiset::<ManifestItem<S>>::empty());
        assert(list@.to_multiset().add(out@.to_multiset()) =~= list@.to_multiset());
    }
    while list.len() > 0
        invariant
            items_reversed(list@),
            items_in_order(out@),
            all_below(out@, list@),
            list@.len() + out@.len() == all.len(),
            list@.to_multiset().add(out@.to_multiset()) == all.to_multiset(),
        decreases list@.len(),
    {
        let ghost list_before = list@;
        let ghost out_before = out@;
        let item = list.pop().unwrap();
        proof {
            broadcast use vstd::seq_lib::group_to_multiset_ensures;

            assert(list_before =~= list@.push(item));
            assert(list_before[list_before.len() - 1] == item);
            assert(out_before.push(item).to_multiset() =~= out_before.to_multiset().insert(item));
            assert(list_before.to_multiset() =~= list@.to_multiset().insert(item));
            assert(list@.to_multiset().add(out_before.push(item).to_multiset())
                =~= list_before.to_multiset().add(out_before.to_multiset()));
            let grown = out_before.push(item);
            assert forall|i: int, j: int| 0 <= i <= j < grown.len() implies name_le(
                rel(#[trigger] grown[i]),
                rel(#[trigger] grown[j]),
            ) by {
                if j == out_before.len() {
                    if i < out_before.len() {
                        assert(name_le(rel(out_before[i]), rel(list_before[list_before.len() - 1])));
                    } else {
                        lemma_bytes_le_refl(encode_utf8(rel(item)));
                    }
                }
            }
            assert forall|i: int, j: int|
                0 <= i < grown.len() && 0 <= j < list@.len() implies name_le(
                rel(#[trigger] grown[i]),
                rel(#[trigger] list@[j]),
            ) by {
                assert(list@[j] == list_before[j]);
                if i < out_before.len() {
                    assert(name_le(rel(out_before[i]), rel(list_before[j])));
                } else {
                    assert(name_le(rel(list_before[list_before.len() - 1]), rel(list_before[j])));
                }
            }
            assert forall|i: int, j: int| 0 <= i <= j < list@.len() implies name_le(
                rel(#[trigger] list@[j]),
                rel(#[trigger] list@[i]),
            ) by {
                assert(name_le(rel(list_before[j]), rel(list_before[i])));
            }
        }
        out.push(item);
    }
    proof {
        broadcast use vstd::seq_lib::group_to_multiset_ensures;

        assert(list@.to_multiset() =~= Multiset::<ManifestItem<S>>::empty());
        assert(list@.to_multiset().add(out@.to_multiset()) =~= out@.to_multiset());
    }
    out
}

/// Everything in a list in order is below a bound that its last item is below.
proof fn lemma_below_last<S>(items: Seq<ManifestItem<S>>, bound: Seq<char>)
    requires
        items_in_order(items),
        items.len() > 0,
        name_le(rel(items.last()), bound),
    ensures
        forall|i: int| 0 <= i < items.len() ==> name_le(rel(#[trigger] items[i]), bound),
{
    assert forall|i: int| 0 <= i < items.len() implies name_le(rel(#[trigger] items[i]), bound) by {
        assert(name_le(rel(items[i]), rel(items[items.len() - 1])));
        lemma_bytes_le_trans(
            encode_utf8(rel(items[i])),
            encode_utf8(rel(items.last())),
            encode_utf8(bound),
        );
    }
}

/// Moving the last item of `from`, which no other item is above, onto the
/// falling list keeps what the merge relies on.
proof fn lemma_merge_step<S>(
    from: Seq<ManifestItem<S>>,
    other: Seq<ManifestItem<S>>,
    rev: Seq<ManifestItem<S>>,
)
    requires
        from.len() > 0,
        items_in_order(from),
        items_in_order(other),
        items_reversed(rev),
        all_below(from, rev),
        all_below(other, rev),
        forall|i: int| 0 <= i < other.len() ==> name_le(rel(#[trigger] other[i]), rel(from.last())),
    ensures
        items_in_order(from.drop_last()),
        items_reversed(rev.push(from.last())),
        all_below(from.drop_last(), rev.push(from.last())),
        all_below(other, rev.push(from.last())),
        from.drop_last().to_multiset().add(other.to_multiset()).add(
            rev.push(from.last()).to_multiset(),
        ) == from.to_multiset().add(other.to_multiset()).add(rev.to_multiset()),
{
    broadcast use vstd::seq_lib::group_to_multiset_ensures;

    let last = from.last();
    let front = from.drop_last();
    let grown = rev.push(last);
    assert(front.push(last) =~= from);
    assert(from.to_multiset() =~= front.to_multiset().insert(last));
    assert(grown.to_multiset() =~= rev.to_multiset().insert(last));
    assert(front.to_multiset().add(other.to_multiset()).add(grown.to_multiset())
        =~= from.to_multiset().add(other.to_multiset()).add(rev.to_multiset()));
    assert forall|i: int, j: int| 0 <= i <= j < front.len() implies name_le(
        rel(#[trigger] front[i]),
        rel(#[trigger] front[j]),
    ) by {
        assert(name_le(rel(from[i]), rel(from[j])));
    }
    assert forall|i: int, j: int| 0 <= i <= j < grown.len() implies name_le(
        rel(#[trigger] grown[j]),
        rel(#[trigger] grown[i]),
    ) by {
        if j == rev.len() {
            if i < rev.len() {
                assert(name_le(rel(from[from.len() - 1]), rel(rev[i])));
            } else {
                lemma_bytes_le_refl(encode_utf8(rel(last)));
            }
        } else {
            assert(name_le(rel(rev[j]), rel(rev[i])));
        }
    }
    assert forall|i: int, j: int| 0 <= i < front.len() && 0 <= j < grown.len() implies name_le(
        rel(#[trigger] front[i]),
        rel(#[trigger] grown[j]),
    ) by {
        assert(front[i] == from[i]);
        if j < rev.len() {
            assert(name_le(rel(from[i]), rel(rev[j])));
        } else {
            assert(name_le(rel(from[i]), rel(from[from.len() - 1])));
        }
    }
    assert forall|i: int, j: int| 0 <= i < other.len() && 0 <= j < grown.len() implies name_le(
        rel(#[trigger] other[i]),
        rel(#[trigger] grown[j]),
    ) by {
        if j < rev.len() {
            assert(name_le(rel(other[i]), rel(rev[j])));
        }
    }
}

/// Merge two lists that are in order.
fn merge<S>(left: Vec<ManifestItem<S>>, right: Vec<ManifestItem<S>>) -> (out: Vec<ManifestItem<S>>)
    requires
        items_in_order(left@),
        items_in_order(right@),
    ensures
        items_in_order(out@),
        out@.to_multiset() == left@.to_multiset().add(right@.to_multiset()),
{
    let ghost target = left@.to_multiset().add(right@.to_multiset());
    let mut a = left;
    let mut b = right;
    let mut rev: Vec<ManifestItem<S>> = Vec::new();
    proof {
        broadcast use vstd::seq_lib::group_to_multiset_ensures;

        assert(rev@.to_multiset() =~= Multiset::<ManifestItem<S>>::empty());
        assert(target.add(rev@.to_multiset()) =~= target);
    }
    while a.len() > 0 || b.len() > 0
        invariant
            items_in_order(a@),
            items_in_order(b@),
            items_reversed(rev@),
            all_below(a@, rev@),
            all_below(b@, rev@),
            a@.to_multiset().add(b@.to_multiset()).add(rev@.to_multiset()) == target,
        decreases a@.len() + b@.len(),
    {
        let from_b: bool = if a.len() == 0 {
            true
        } else if b.len() == 0 {
            false
        } else {
            text_le(
                a[a.len() - 1].entry.relpath.as_str(),
                b[b.len() - 1].entry.relpath.as_str(),
            )
        };
        let ghost a_before = a@;
        let ghost b_before = b@;
        let ghost rev_before = rev@;
        if from_b {
            proof {
                if a_before.len() > 0 {
                    lemma_below_last(a_before, rel(b_before.last()));
                }
                lemma_merge_step(b_before, a_before, rev_before);
                assert(a_before.to_multiset().add(b_before.to_multiset())
                    =~= b_before.to_multiset().add(a_before.to_multiset()));
                assert(a_before.to_multiset().add(b_before.drop_last().to_multiset())
                    =~= b_before.drop_last().to_multiset().add(a_before.to_multiset()));
            }
            let item = b.pop().unwrap();
            rev.push(item);
            proof {
                assert(b@ =~= b_before.drop_last());
            }
        } else {
            proof {
                if b_before.len() > 0 {
                    lemma_bytes_le_total(
                        encode_utf8(rel(a_before.last())),
                        encode_utf8(rel(b_before.last())),
                    );
                    lemma_below_last(b_before, rel(a_before.last()));
                }
                lemma_merge_step(a_before, b_before, rev_before);
            }
            let item = a.pop().unwrap();
            rev.push(item);
            proof {
                assert(a@ =~= a_before.drop_last());
            }
        }
    }
    proof {
        broadcast use vstd::seq_lib::group_to_multiset_ensures;

        assert(a@.to_multiset() =~= Multiset::<ManifestItem<S>>::empty());
        assert(b@.to_multiset() =~= Multiset::<ManifestItem<S>>::empty());
        assert(a@.to_multiset().add(b@.to_multiset()).add(rev@.to_multiset())
            =~= rev@.to_multiset());
    }
    turn_around(rev)
}

/// Sort items by path.
fn sort_items<S>(items: Vec<ManifestItem<S>>) -> (out: Vec<ManifestItem<S>>)
    ensures
        items_in_order(out@),
        out@.to_multiset() == items@.to_multiset(),
    decreases items@.len(),
{
    let ghost all = items@;
    let mut left = items;
    if left.len() <= 1 {
        proof {
            assert forall|i: int, j: int| 0 <= i <= j < left@.len() implies name_le(
                rel(#[trigger] left@[i]),
                rel(#[trigger] left@[j]),
            ) by {
                lemma_bytes_le_refl(encode_utf8(rel(left@[i])));
            }
        }
        return left;
    }
    let half: usize = left.len() / 2;
    let right = left.split_off(half);
    proof {
        assert(left@ + right@ =~= all);
        vstd::seq_lib::lemma_multiset_commutative(left@, right@);
    }
    let l = sort_items(left);
    let r = sort_items(right);
    merge(l, r)
}

/// Lists with the same items hold the same paths.
proof fn lemma_same_names<S>(a: Seq<ManifestItem<S>>, b: Seq<ManifestItem<S>>)
    requires
        a.to_multiset() == b.to_multiset(),
    ensures
        names(a).to_multiset() == names(b).to_multiset(),
    decreases a.len(),
{
    broadcast use vstd::seq_lib::group_to_multiset_ensures;

    vstd::seq_lib::to_multiset_len(a);
    vstd::seq_lib::to_multiset_len(b);
    if a.len() == 0 {
        assert(names(a) =~= names(b));
    } else {
        let x = a.last();
        let at = a.len() - 1;
        assert(a[at] == x);
        assert(a.to_multiset().count(x) > 0);
        assert(b.contains(x));
        let k = choose|k: int| 0 <= k < b.len() && b[k] == x;
        assert(a.remove(at).to_multiset() =~= a.to_multiset().remove(x));
        assert(b.remove(k).to_multiset() =~= b.to_multiset().remove(x));
        lemma_same_names(a.remove(at), b.remove(k));
        assert(names(a.remove(at)) =~= names(a).remove(at));
        assert(names(b.remove(k)) =~= names(b).remove(k));
        assert(names(a).to_multiset() =~= names(a).remove(at).to_multiset().insert(rel(x))) by {
            assert(names(a).remove(at).push(rel(x)) =~= names(a));
        }
        assert(names(b).to_multiset() =~= names(b).remove(k).to_multiset().insert(rel(x))) by {
            assert(names(b).contains(names(b)[k]));
        }
    }
}

/// What stands at two places occurs at least twice.
proof fn lemma_twice(list: Seq<Seq<char>>, i: int, j: int)
    requires
        0 <= i < j < list.len(),
        list[i] == list[j],
    ensures
        list.to_multiset().count(list[i]) >= 2,
{
    broadcast use vstd::seq_lib::group_to_multiset_ensures;

    let rest = list.remove(j);
    assert(rest[i] == list[i]);
    assert(rest.contains(list[i]));
    assert(rest.to_multiset().count(list[i]) > 0);
    assert(rest.to_multiset() =~= list.to_multiset().remove(list[j]));
    assert(list.to_multiset().count(list[i]) > 0);
}

/// What occurs at least twice stands at two places.
proof fn lemma_two_places(list: Seq<Seq<char>>, name: Seq<char>) -> (places: (int, int))
    requires
        list.to_multiset().count(name) >= 2,
    ensures
        0 <= places.0 < places.1 < list.len(),
        list[places.0] == name,
        list[places.1] == name,
{
    broadcast use vstd::seq_lib::group_to_multiset_ensures;

    assert(list.contains(name));
    let i = choose|i: int| 0 <= i < list.len() && list[i] == name;
    let rest = list.remove(i);
    assert(rest.to_multiset() =~= list.to_multiset().remove(name));
    assert(rest.to_multiset().count(name) > 0);
    assert(rest.contains(name));
    let j = choose|j: int| 0 <= j < rest.len() && rest[j] == name;
    if j < i {
        (j, i)
    } else {
        (i, j + 1)
    }
}

/// In a list in order, equal names stand next to each other.
proof fn lemma_equal_names_are_neighbours(list: Seq<Seq<char>>, i: int, j: int)
    requires
        in_order(list),
        0 <= i < j < list.len(),
        list[i] == list[j],
    ensures
        list[i] == list[i + 1],
{
    assert(name_le(list[i], list[i + 1]));
    assert(name_le(list[i + 1], list[j]));
    lemma_name_le_antisym(list[i], list[i + 1]);
}

/// Whether these items make a manifest: there is one, and no two have the same
/// path.
pub open spec fn sendable<S>(items: Seq<ManifestItem<S>>) -> bool {
    items.len() > 0 && forall|name: Seq<char>| #[trigger] occurrences(items, name) <= 1
}

/// Make the list to send out of what was collected: sorted by path, no path
/// twice, and not empty.
pub fn build_manifest<S>(items: Vec<ManifestItem<S>>) -> (result: Result<
    Vec<ManifestItem<S>>,
    ManifestError,
>)
    ensures
        result is Ok <==> sendable(items@),
        match result {
            Ok(list) => {
                &&& list@.to_multiset() == items@.to_multiset()
                &&& strictly_in_order(names(list@))
            },
            Err(ManifestError::Duplicate { name }) => {
                &&& occurrences(items@, name@) >= 2
                &&& forall|other: Seq<char>| #[trigger]
                    occurrences(items@, other) >= 2 ==> name_le(name@, other)
            },
            Err(ManifestError::NoFiles) => items@.len() == 0,
        },
{
    let ghost given = items@;
    let list = sort_items(items);
    let ghost sorted = names(list@);
    proof {
        lemma_same_names(given, list@);
        assert forall|i: int, j: int| 0 <= i <= j < sorted.len() implies name_le(
            #[trigger] sorted[i],
            #[trigger] sorted[j],
        ) by {
            assert(name_le(rel(list@[i]), rel(list@[j])));
        }
        vstd::seq_lib::to_multiset_len(given);
        vstd::seq_lib::to_multiset_len(list@);
    }
    let mut i: usize = 1;
    while i < list.len()
        invariant
            1 <= i,
            given == items@,
            sorted == names(list@),
            in_order(sorted),
            forall|name: Seq<char>| #[trigger]
                occurrences(given, name) == sorted.to_multiset().count(name),
            forall|k: int| 0 <= k && k + 1 < i && k + 1 < list@.len() ==> sorted[k] != #[trigger]
                sorted[k + 1],
        decreases list@.len() - i,
    {
        if list[i - 1].entry.relpath == list[i].entry.relpath {
            let name = list[i].entry.relpath.clone();
            proof {
                assert(sorted[i - 1] == sorted[i as int] && sorted[i as int] == name@);
                lemma_twice(sorted, i - 1, i as int);
                assert forall|other: Seq<char>| #[trigger]
                    occurrences(given, other) >= 2 implies name_le(name@, other) by {
                    let (a, b) = lemma_two_places(sorted, other);
                    if a < i - 1 {
                        lemma_equal_names_are_neighbours(sorted, a, b);
                        assert(sorted[a] != sorted[a + 1]);
                    }
                    assert(name_le(sorted[i - 1], sorted[a]));
                }
                assert(occurrences(given, name@) >= 2);
            }
            return Err(ManifestError::Duplicate { name });
        }
        i = i + 1;
    }
    proof {
        assert forall|a: int, b: int| 0 <= a < b < sorted.len() implies name_lt(
            #[trigger] sorted[a],
            #[trigger] sorted[b],
        ) by {
            if sorted[a] == sorted[b] {
                lemma_equal_names_are_neighbours(sorted, a, b);
                assert(sorted[a] != sorted[a + 1]);
            }
        }
        assert forall|name: Seq<char>| #[trigger] occurrences(given, name) <= 1 by {
            if sorted.to_multiset().count(name) >= 2 {
                let (a, b) = lemma_two_places(sorted, name);
                assert(name_lt(sorted[a], sorted[b]));
            }
        }
    }
    if list.len() == 0 {
        return Err(ManifestError::NoFiles);
    }
    Ok(list)
}

/// The manifest does not depend on the order in which files were found: two
/// manifests of the same items are the same list.
pub proof fn law_manifest_is_canonical<S>(a: Seq<ManifestItem<S>>, b: Seq<ManifestItem<S>>)
    requires
        strictly_in_order(names(a)),
        strictly_in_order(names(b)),
        a.to_multiset() == b.to_multiset(),
    ensures
        a == b,
    decreases a.len(),
{
    broadcast use vstd::seq_lib::group_to_multiset_ensures;

    vstd::seq_lib::to_multiset_len(a);
    vstd::seq_lib::to_multiset_len(b);
    if a.len() == 0 {
        assert(a =~= b);
    } else {
        let x = a.last();
        let y = b.last();
        assert(a[a.len() - 1] == x && b[b.len() - 1] == y);
        assert(a.to_multiset().count(x) > 0);
        assert(b.to_multiset().count(y) > 0);
        assert(b.contains(x) && a.contains(y));
        let k = choose|k: int| 0 <= k < b.len() && b[k] == x;
        let m = choose|m: int| 0 <= m < a.len() && a[m] == y;
        assert(k == b.len() - 1) by {
            if k < b.len() - 1 {
                assert(name_lt(names(b)[k], names(b)[b.len() - 1]));
                if m < a.len() - 1 {
                    assert(name_lt(names(a)[m], names(a)[a.len() - 1]));
                    lemma_name_le_antisym(rel(x), rel(y));
                }
            }
        }
        assert(a.drop_last().push(x) =~= a);
        assert(b.drop_last().push(x) =~= b);
        assert(a.drop_last().to_multiset() =~= a.to_multiset().remove(x));
        assert(b.drop_last().to_multiset() =~= b.to_multiset().remove(x));
        assert forall|i: int, j: int| 0 <= i < j < names(a.drop_last()).len() implies name_lt(
            #[trigger] names(a.drop_last())[i],
            #[trigger] names(a.drop_last())[j],
        ) by {
            assert(name_lt(names(a)[i], names(a)[j]));
        }
        assert forall|i: int, j: int| 0 <= i < j < names(b.drop_last()).len() implies name_lt(
            #[trigger] names(b.drop_last())[i],
            #[trigger] names(b.drop_last())[j],
        ) by {
            assert(name_lt(names(b)[i], names(b)[j]));
        }
        law_manifest_is_canonical(a.drop_last(), b.drop_last());
    }
}

/// The path that a walk has put together after these directory entries below
/// `top`, the last of them a file or a directory.
pub open spec fn walked(top: Seq<char>, entries: Seq<Seq<char>>) -> Seq<char>
    decreases entries.len(),
{
    if entries.len() == 0 {
        top
    } else {
        extended(walked(top, entries.drop_last()), entries.last())
    }
}

/// What an entry of a directory can be called: no name is empty or holds a
/// separator.
pub open spec fn is_entry_name(name: Seq<char>) -> bool {
    name.len() > 0 && !name.contains('/')
}

/// The name that an input has in the transfer is safe, whatever path was given.
pub proof fn law_input_name_is_safe(path: Seq<char>)
    ensures
        is_safe(input_name(path, "dir"@)),
        is_safe(input_name(path, "file"@)),
        is_entry_name(input_name(path, "dir"@)),
        is_entry_name(input_name(path, "file"@)),
{
    lemma_last_name_is_safe(path);
    reveal_strlit("dir");
    reveal_strlit("file");
    reveal_strlit(".");
    reveal_strlit("..");
    assert(!"dir"@.contains('/'));
    assert(!"file"@.contains('/'));
    lemma_piece_is_safe("dir"@);
    lemma_piece_is_safe("file"@);
}

proof fn lemma_walked_end(top: Seq<char>, entries: Seq<Seq<char>>)
    requires
        is_entry_name(top),
        forall|i: int| 0 <= i < entries.len() ==> is_entry_name(#[trigger] entries[i]),
    ensures
        walked(top, entries).len() > 0,
        walked(top, entries).last() != '/',
        entries.len() > 0 ==> walked(top, entries) == walked(top, entries.drop_last()).push('/')
            + entries.last(),
    decreases entries.len(),
{
    if entries.len() > 0 {
        let front = entries.drop_last();
        assert forall|i: int| 0 <= i < front.len() implies is_entry_name(#[trigger] front[i]) by {
            assert(front[i] == entries[i]);
        }
        lemma_walked_end(top, front);
        let name = entries.last();
        assert(is_entry_name(entries[entries.len() - 1]));
        assert(name.contains(name[0]));
        assert(name.contains(name[name.len() - 1]));
    } else {
        assert(top.contains(top[top.len() - 1]));
    }
}

/// The walk keeps the tree: a file below a directory gets the directory's name
/// and the names on the way down to it, with separators between them.
pub proof fn law_walk_keeps_the_tree(top: Seq<char>, entries: Seq<Seq<char>>)
    requires
        is_entry_name(top),
        forall|i: int| 0 <= i < entries.len() ==> is_entry_name(#[trigger] entries[i]),
    ensures
        walked(top, entries) == joined(seq![top] + entries),
    decreases entries.len(),
{
    let all = seq![top] + entries;
    if entries.len() > 0 {
        let front = entries.drop_last();
        assert forall|i: int| 0 <= i < front.len() implies is_entry_name(#[trigger] front[i]) by {
            assert(front[i] == entries[i]);
        }
        law_walk_keeps_the_tree(top, front);
        lemma_walked_end(top, entries);
        assert(all.drop_last() =~= seq![top] + front);
        assert(all.last() == entries.last());
    } else {
        assert(all =~= seq![top]);
    }
}

/// The pieces of a walked path are the names on the way down to it.
pub proof fn law_walked_path_has_the_names(top: Seq<char>, entries: Seq<Seq<char>>)
    requires
        is_entry_name(top),
        forall|i: int| 0 <= i < entries.len() ==> is_entry_name(#[trigger] entries[i]),
    ensures
        pieces(walked(top, entries)) == seq![top] + entries,
{
    let all = seq![top] + entries;
    law_walk_keeps_the_tree(top, entries);
    assert forall|i: int| 0 <= i < all.len() implies !(#[trigger] all[i]).contains('/') by {
        if i > 0 {
            assert(all[i] == entries[i - 1]);
        }
    }
    lemma_pieces_of_joined(all);
}

/// Every path that a walk adds to the manifest is relative and has no `..`: no
/// entry of a directory is called `..`.
pub proof fn law_walked_path_is_inside(path: Seq<char>, entries: Seq<Seq<char>>)
    requires
        forall|i: int|
            0 <= i < entries.len() ==> is_entry_name(#[trigger] entries[i]) && entries[i] != ".."@,
    ensures
        is_inside(walked(input_name(path, "dir"@), entries)),
{
    let top = input_name(path, "dir"@);
    let whole = walked(top, entries);
    let all = seq![top] + entries;
    law_input_name_is_safe(path);
    law_walked_path_has_the_names(top, entries);
    lemma_first_piece(whole);
    assert(all[0] == top);
    assert(top != ".."@) by {
        assert(is_entry_name(top));
        law_walked_path_has_the_names(top, Seq::empty());
        assert(walked(top, Seq::empty()) == top);
        assert(pieces(top)[0] == top);
    }
    assert(!all.contains(".."@)) by {
        assert forall|i: int| 0 <= i < all.len() implies all[i] != ".."@ by {
            if i > 0 {
                assert(all[i] == entries[i - 1]);
            }
        }
    }
}

/// A receiver stores a walked file under the very path that the manifest gives,
/// where no name on the way is `.` or `..` and, on Windows, none holds a
/// backslash or a colon.
pub proof fn law_walked_path_is_kept(
    platform: Platform,
    path: Seq<char>,
    entries: Seq<Seq<char>>,
)
    requires
        forall|i: int|
            0 <= i < entries.len() ==> is_entry_name(#[trigger] entries[i]) && entries[i] != ".."@
                && entries[i] != "."@,
        is_plain(platform, walked(input_name(path, "dir"@), entries)),
    ensures
        safe_path(platform, walked(input_name(path, "dir"@), entries)) == walked(
            input_name(path, "dir"@),
            entries,
        ),
{
    let top = input_name(path, "dir"@);
    let all = seq![top] + entries;
    law_input_name_is_safe(path);
    law_walked_path_has_the_names(top, entries);
    law_walked_path_has_the_names(top, Seq::empty());
    assert(walked(top, Seq::empty()) == top);
    assert(is_safe(walked(top, entries))) by {
        assert forall|i: int| 0 <= i < all.len() implies is_normal(#[trigger] all[i]) by {
            if i > 0 {
                assert(all[i] == entries[i - 1]);
            } else {
                assert(pieces(top)[0] == top);
            }
        }
    }
    law_safe_path_keeps_safe(platform, walked(top, entries));
}

/// Files below inputs with different names, and different files below one
/// input, have different paths.
pub proof fn law_walked_path_is_unique(
    top: Seq<char>,
    entries: Seq<Seq<char>>,
    other_top: Seq<char>,
    other_entries: Seq<Seq<char>>,
)
    requires
        is_entry_name(top),
        is_entry_name(other_top),
        forall|i: int| 0 <= i < entries.len() ==> is_entry_name(#[trigger] entries[i]),
        forall|i: int| 0 <= i < other_entries.len() ==> is_entry_name(#[trigger] other_entries[i]),
        walked(top, entries) == walked(other_top, other_entries),
    ensures
        top == other_top,
        entries == other_entries,
{
    law_walked_path_has_the_names(top, entries);
    law_walked_path_has_the_names(other_top, other_entries);
    let a = seq![top] + entries;
    let b = seq![other_top] + other_entries;
    assert(a == b);
    assert(a[0] == top && b[0] == other_top);
    assert(a.drop_first() =~= entries);
    assert(b.drop_first() =~= other_entries);
}

/// Byte strings are ordered as in a dictionary: what two have in common at the
/// front does not count, however long it is, the first byte in which they differ
/// decides, and a string comes before every longer one that starts with it.
pub proof fn law_order_is_that_of_a_dictionary(
    common: Seq<u8>,
    small: u8,
    large: u8,
    a: Seq<u8>,
    b: Seq<u8>,
)
    requires
        small < large,
    ensures
        bytes_le(common + seq![small] + a, common + seq![large] + b),
        !bytes_le(common + seq![large] + b, common + seq![small] + a),
        bytes_le(common, common + a),
        a.len() > 0 ==> !bytes_le(common + a, common),
    decreases common.len(),
{
    let low = common + seq![small] + a;
    let high = common + seq![large] + b;
    if common.len() > 0 {
        let rest = common.drop_first();
        law_order_is_that_of_a_dictionary(rest, small, large, a, b);
        assert(low.drop_first() =~= rest + seq![small] + a);
        assert(high.drop_first() =~= rest + seq![large] + b);
        assert((common + a).drop_first() =~= rest + a);
    }
}

/// The order of names is one: every two names can be put in order, in one way
/// only, and by their UTF-8 bytes.
pub proof fn law_names_have_an_order(a: Seq<char>, b: Seq<char>, c: Seq<char>)
    ensures
        name_le(a, b) <==> bytes_le(encode_utf8(a), encode_utf8(b)),
        name_lt(a, b) <==> name_le(a, b) && a != b,
        name_le(a, a),
        name_le(a, b) || name_le(b, a),
        name_le(a, b) && name_le(b, a) ==> a == b,
        name_le(a, b) && name_le(b, c) ==> name_le(a, c),
{
    lemma_bytes_le_refl(encode_utf8(a));
    lemma_bytes_le_total(encode_utf8(a), encode_utf8(b));
    if name_le(a, b) && name_le(b, a) {
        lemma_name_le_antisym(a, b);
    }
    if name_le(a, b) && name_le(b, c) {
        lemma_bytes_le_trans(encode_utf8(a), encode_utf8(b), encode_utf8(c));
    }
}

/// The paths of a list are those of its items, one for one, and in strict order
/// each is smaller than every later one.
pub proof fn law_paths_of_a_list<S>(items: Seq<ManifestItem<S>>, i: int, j: int)
    requires
        0 <= i < j < items.len(),
    ensures
        names(items).len() == items.len(),
        names(items)[i] == items[i].entry.relpath@,
        strictly_in_order(names(items)) ==> name_lt(
            items[i].entry.relpath@,
            items[j].entry.relpath@,
        ),
{
    if strictly_in_order(names(items)) {
        assert(name_lt(names(items)[i], names(items)[j]));
    }
}

/// A path occurs twice exactly where two items have it.
pub proof fn law_twice_means_two_items<S>(items: Seq<ManifestItem<S>>, name: Seq<char>)
    ensures
        occurrences(items, name) >= 2 <==> exists|i: int, j: int|
            0 <= i < j < items.len() && (#[trigger] items[i]).entry.relpath@ == name && (
            #[trigger] items[j]).entry.relpath@ == name,
{
    let list = names(items);
    if occurrences(items, name) >= 2 {
        let (i, j) = lemma_two_places(list, name);
        assert(items[i].entry.relpath@ == list[i] && items[j].entry.relpath@ == list[j]);
    }
    if exists|i: int, j: int|
        0 <= i < j < items.len() && (#[trigger] items[i]).entry.relpath@ == name && (
        #[trigger] items[j]).entry.relpath@ == name {
        let (i, j) = choose|i: int, j: int|
            0 <= i < j < items.len() && (#[trigger] items[i]).entry.relpath@ == name && (
            #[trigger] items[j]).entry.relpath@ == name;
        assert(list[i] == name && list[j] == name);
        lemma_twice(list, i, j);
    }
}

/// Items can be sent exactly where there are any and no two have the same path,
/// however many they are.
pub proof fn law_sendable_means_different_paths<S>(items: Seq<ManifestItem<S>>)
    ensures
        sendable(items) <==> items.len() > 0 && forall|i: int, j: int|
            0 <= i < j < items.len() ==> (#[trigger] items[i]).entry.relpath@ != (
            #[trigger] items[j]).entry.relpath@,
{
    if sendable(items) {
        assert forall|i: int, j: int| 0 <= i < j < items.len() implies (
        #[trigger] items[i]).entry.relpath@ != (#[trigger] items[j]).entry.relpath@ by {
            law_twice_means_two_items(items, items[i].entry.relpath@);
            assert(occurrences(items, items[i].entry.relpath@) <= 1);
        }
    }
    if items.len() > 0 && forall|i: int, j: int|
        0 <= i < j < items.len() ==> (#[trigger] items[i]).entry.relpath@ != (
        #[trigger] items[j]).entry.relpath@ {
        assert forall|name: Seq<char>| #[trigger] occurrences(items, name) <= 1 by {
            law_twice_means_two_items(items, name);
        }
    }
}

/// Inputs are told apart by their whole names: they all differ exactly where no
/// name comes twice, and a name comes twice exactly where it stands at two places.
pub proof fn law_inputs_are_told_apart_by_name(names: Seq<String>, name: Seq<char>)
    ensures
        all_differ(names) <==> forall|i: int, j: int|
            0 <= i < j < names.len() ==> (#[trigger] names[i])@ != (#[trigger] names[j])@,
        comes_twice(names, name) <==> exists|i: int, j: int|
            0 <= i < j < names.len() && (#[trigger] names[i])@ == name && (#[trigger] names[j])@
                == name,
{
}

/// An input is called what its path ends in, whatever stands before it: that
/// whole name, and the stand-in only where there is none.
pub proof fn law_input_is_called_by_its_name(
    path: Seq<char>,
    name: Seq<char>,
    stand_in: Seq<char>,
)
    ensures
        name.len() > 0 && name != "."@ && name != ".."@ && !name.contains('/') ==> {
            &&& input_name(name, stand_in) == name
            &&& input_name(path.push('/') + name, stand_in) == name
            &&& input_name((path.push('/') + name).push('/'), stand_in) == name
        },
        input_name(path.push('/'), stand_in) == input_name(path, stand_in),
        input_name(path.push('/') + ".."@, stand_in) == stand_in,
        input_name(Seq::<char>::empty(), stand_in) == stand_in,
{
    if name.len() > 0 && name != "."@ && name != ".."@ && !name.contains('/') {
        law_last_name_is_the_whole_name(path, name);
        law_last_name_looks_past_the_end(path.push('/') + name);
    }
    law_last_name_looks_past_the_end(path);
    law_no_last_name(path);
}

/// An input stands at the top of the transfer under the very name that its files
/// start with, and a skipped one does not stand there.
pub proof fn law_top_name_is_that_of_the_step(name: String)
    ensures
        top_name(InputStep::Walk { prefix: name }) == Some(name@),
        top_name(InputStep::Add { relpath: name }) == Some(name@),
        top_name(InputStep::SkipSymlink) is None,
        top_name(InputStep::SkipSpecial) is None,
{
}

} // verus!
