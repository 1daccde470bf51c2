//! Unfolding a tree.
//!
//! There is no file system here: a cursor gives the files of a tree one at a time, with their paths,
//! kinds and contents, and a walk hands them to a callback. The trees that are open are kept in a
//! list, not on the call stack.

use vstd::prelude::*;

use crate::build::is_dir_mode;
use crate::bytes::{cut, from_index, lemma_cut_len, lit, owned, same, text};
use crate::err::{agrees, Error, Result};
use crate::object::{first_entry, lemma_first_entry_len, EntryView, Kind, TreeIter};
use crate::oid::Oid;
use crate::Odb;

verus! {

/// What an entry of a tree is, after its mode.
#[derive(Debug, Clone, Copy, PartialEq, Eq, Structural)]
pub enum EntryKind {
    File,
    Executable,
    /// The contents are the path that the link leads to.
    Symlink,
    /// A submodule. The contents are the twenty bytes of the id of a commit; there is no blob.
    Gitlink,
}

/// How many trees may be open at once.
pub const MAX_TREE_DEPTH: usize = 256;

/// A call of the callback.
pub struct VisitView {
    pub path: Seq<u8>,
    pub kind: EntryKind,
    pub content: Seq<u8>,
}

/// The kind of a file, after its mode.
pub open spec fn file_kind(mode: Seq<u8>) -> Option<EntryKind> {
    if mode == lit("100644") || mode == lit("100664") {
        Some(EntryKind::File)
    } else if mode == lit("100755") {
        Some(EntryKind::Executable)
    } else if mode == lit("120000") {
        Some(EntryKind::Symlink)
    } else {
        None
    }
}

/// The body of a tree.
pub open spec fn tree_in<O: Odb>(odb: &O, oid: Seq<u8>) -> Result<Seq<u8>> {
    match odb.lookup(oid) {
        Some((Kind::Tree, body)) => Ok(body),
        Some(_) => Err(Error::Corrupt("not a tree")),
        None => Err(Error::MissingBase),
    }
}

/// The path of an entry in the directory `prefix`.
pub open spec fn joined(prefix: Seq<u8>, name: Seq<u8>) -> Seq<u8> {
    if prefix.len() == 0 {
        name
    } else {
        prefix.push(47) + name
    }
}

/// The call for an entry that is no directory.
pub open spec fn file_in<O: Odb>(odb: &O, prefix: Seq<u8>, e: EntryView) -> Result<VisitView> {
    let path = joined(prefix, e.name);
    if e.mode == lit("160000") {
        Ok(VisitView { path, kind: EntryKind::Gitlink, content: e.oid })
    } else {
        match file_kind(e.mode) {
            None => Err(Error::Corrupt("tree entry mode")),
            Some(kind) => match odb.lookup(e.oid) {
                Some((Kind::Blob, content)) => Ok(VisitView { path, kind, content }),
                _ => Err(Error::MissingBase),
            },
        }
    }
}

/// The calls for the entries of a tree from `body` on, where `depth` trees are open, and what puts
/// an end to them.
pub open spec fn listed<O: Odb>(odb: &O, prefix: Seq<u8>, body: Seq<u8>, depth: nat) -> (
    Seq<VisitView>,
    Option<Error>,
)
    decreases MAX_TREE_DEPTH - depth, body.len(),
{
    proof {
        lemma_first_entry_len(body);
    }
    if body.len() == 0 {
        (Seq::empty(), None)
    } else {
        match first_entry(body) {
            Err(e) => (Seq::empty(), Some(e)),
            Ok((entry, rest)) => if is_dir_mode(entry.mode) {
                if depth >= MAX_TREE_DEPTH {
                    (Seq::empty(), Some(Error::Corrupt("tree nesting too deep")))
                } else {
                    match tree_in(odb, entry.oid) {
                        Err(e) => (Seq::empty(), Some(e)),
                        Ok(child) => followed_by(
                            listed(odb, joined(prefix, entry.name), child, depth + 1),
                            listed(odb, prefix, rest, depth),
                        ),
                    }
                }
            } else {
                match file_in(odb, prefix, entry) {
                    Err(e) => (Seq::empty(), Some(e)),
                    Ok(v) => followed_by((seq![v], None), listed(odb, prefix, rest, depth)),
                }
            },
        }
    }
}

/// One list of calls after another, unless the first one was put to an end.
pub open spec fn followed_by(
    a: (Seq<VisitView>, Option<Error>),
    b: (Seq<VisitView>, Option<Error>),
) -> (Seq<VisitView>, Option<Error>) {
    if a.1 is Some {
        a
    } else {
        (a.0 + b.0, b.1)
    }
}

/// The calls for a whole tree, and what puts an end to them.
pub open spec fn tree_listing<O: Odb>(odb: &O, tree: Seq<u8>) -> (Seq<VisitView>, Option<Error>) {
    match tree_in(odb, tree) {
        Err(e) => (Seq::empty(), Some(e)),
        Ok(body) => listed(odb, Seq::empty(), body, 1),
    }
}

/// The callback may answer `r` to the call `v`.
pub open spec fn answered<F: FnMut(&[u8], EntryKind, &[u8]) -> Result<()>>(
    visit: F,
    v: VisitView,
    r: Result<()>,
) -> bool {
    exists|path: &[u8], content: &[u8]|
        path@ == v.path && content@ == v.content && #[trigger] call_ensures(
            visit,
            (path, v.kind, content),
            r,
        )
}

/// The result of a walk with the given answers: the first error that the callback answers stops it.
pub open spec fn walked(
    listing: (Seq<VisitView>, Option<Error>),
    answers: Seq<Result<()>>,
    r: Result<()>,
) -> bool {
    &&& answers.len() <= listing.0.len()
    &&& forall|i: int| 0 <= i < answers.len() - 1 ==> (#[trigger] answers[i]) is Ok
    &&& if answers.len() > 0 && answers.last() is Err {
        r == answers.last()
    } else {
        answers.len() == listing.0.len() && r == (match listing.1 {
            Some(e) => Err(e),
            None => Ok(()),
        })
    }
}

// --- walking ---------------------------------------------------------------------------------------------

/// How many entries there are to look at.
spec fn work<O: Odb>(odb: &O, body: Seq<u8>, depth: nat) -> nat
    decreases MAX_TREE_DEPTH - depth, body.len(),
{
    proof {
        lemma_first_entry_len(body);
    }
    if body.len() == 0 {
        1
    } else {
        match first_entry(body) {
            Err(e) => 1,
            Ok((entry, rest)) => 1 + work(odb, rest, depth) + (if is_dir_mode(entry.mode) && depth
                < MAX_TREE_DEPTH && tree_in(odb, entry.oid) is Ok {
                work(odb, tree_in(odb, entry.oid)->Ok_0, depth + 1)
            } else {
                0
            }),
        }
    }
}

/// A tree that is open.
struct Frame {
    prefix: Vec<u8>,
    body: Vec<u8>,
    pos: usize,
}

impl Frame {
    spec fn rest(self) -> Seq<u8> {
        self.body@.skip(self.pos as int)
    }
}

spec fn frames_ok(stack: Seq<Frame>) -> bool {
    &&& stack.len() <= MAX_TREE_DEPTH
    &&& forall|i: int| 0 <= i < stack.len() ==> (#[trigger] stack[i]).pos <= stack[i].body@.len()
}

/// The calls for the rest of all open trees.
spec fn listed_rest<O: Odb>(odb: &O, stack: Seq<Frame>) -> (Seq<VisitView>, Option<Error>)
    decreases stack.len(),
{
    if stack.len() == 0 {
        (Seq::empty(), None)
    } else {
        let top = stack.last();
        followed_by(
            listed(odb, top.prefix@, top.rest(), stack.len()),
            listed_rest(odb, stack.drop_last()),
        )
    }
}

spec fn work_rest<O: Odb>(odb: &O, stack: Seq<Frame>) -> nat
    decreases stack.len(),
{
    if stack.len() == 0 {
        0
    } else {
        work(odb, stack.last().rest(), stack.len()) + work_rest(odb, stack.drop_last())
    }
}

proof fn lemma_followed_assoc(
    a: (Seq<VisitView>, Option<Error>),
    b: (Seq<VisitView>, Option<Error>),
    c: (Seq<VisitView>, Option<Error>),
)
    ensures
        followed_by(followed_by(a, b), c) == followed_by(a, followed_by(b, c)),
{
    assert(a.0 + b.0 + c.0 =~= a.0 + (b.0 + c.0));
}

/// What the first entry takes up.
proof fn lemma_entry_length(s: Seq<u8>)
    ensures
        first_entry(s) matches Ok((e, rest)) ==> e.mode.len() + e.name.len() + 22 <= s.len() && rest
            == s.skip((e.mode.len() + e.name.len() + 22) as int),
{
    lemma_cut_len(s, 32);
    if let Some((mode, after)) = cut(s, 32) {
        lemma_cut_len(after, 0);
        if let Some((name, tail)) = cut(after, 0) {
            if tail.len() >= 20 {
                assert(tail.skip(20) =~= s.skip((mode.len() + name.len() + 22) as int));
            }
        }
    }
}

fn read_tree<O: Odb>(odb: &O, oid: &Oid) -> (r: Result<Vec<u8>>)
    ensures
        agrees(r, tree_in(odb, oid@)),
{
    match odb.read(oid) {
        Some((Kind::Tree, body)) => Ok(body),
        Some(_) => Err(Error::Corrupt("not a tree")),
        None => Err(Error::MissingBase),
    }
}

fn kind_of_file(mode: &[u8]) -> (r: Option<EntryKind>)
    ensures
        r == file_kind(mode@),
{
    if same(mode, text("100644")) || same(mode, text("100664")) {
        Some(EntryKind::File)
    } else if same(mode, text("100755")) {
        Some(EntryKind::Executable)
    } else if same(mode, text("120000")) {
        Some(EntryKind::Symlink)
    } else {
        None
    }
}

/// A file of a tree: its path, written with slashes, its kind and its contents.
#[derive(Debug, Clone, PartialEq, Eq)]
pub struct TreeFile {
    pub path: Vec<u8>,
    pub kind: EntryKind,
    pub content: Vec<u8>,
}

impl View for TreeFile {
    type V = VisitView;

    open spec fn view(&self) -> VisitView {
        VisitView { path: self.path@, kind: self.kind, content: self.content@ }
    }
}

/// The files of a tree, one at a time, in the order of the trees.
pub struct Cursor<'a, O: Odb> {
    odb: &'a O,
    stack: Vec<Frame>,
    /// Why the tree itself could not be read, until that was told.
    failed: Option<Error>,
}

impl<'a, O: Odb> Cursor<'a, O> {
    #[verifier::type_invariant]
    spec fn well_formed(self) -> bool {
        frames_ok(self.stack@)
    }

    /// The files that are still to come, and what puts an end to them.
    pub closed spec fn left(self) -> (Seq<VisitView>, Option<Error>) {
        if self.failed is Some {
            (Seq::empty(), self.failed)
        } else {
            listed_rest(self.odb, self.stack@)
        }
    }

    pub fn new(odb: &'a O, tree: &Oid) -> (r: Self)
        ensures
            r.left() == tree_listing(odb, tree@),
    {
        let mut stack: Vec<Frame> = Vec::new();
        match read_tree(odb, tree) {
            Ok(root) => {
                stack.push(Frame { prefix: Vec::new(), body: root, pos: 0 });
                proof {
                    assert(stack@.last().prefix@ =~= Seq::<u8>::empty());
                    assert(stack@.last().rest() =~= root@);
                    assert(stack@.drop_last() =~= Seq::<Frame>::empty());
                    let first = listed(odb, Seq::empty(), root@, 1);
                    assert(listed_rest(odb, stack@.drop_last()) == (
                        Seq::<VisitView>::empty(),
                        None::<Error>,
                    ));
                    assert(first.0 + Seq::<VisitView>::empty() =~= first.0);
                }
                Cursor { odb, stack, failed: None }
            },
            Err(e) => Cursor { odb, stack, failed: Some(e) },
        }
    }

    /// The next file, or what puts an end to them; nothing more comes after that.
    pub fn next(&mut self) -> (r: Option<Result<TreeFile>>)
        ensures
            match r {
                Some(Ok(v)) => old(self).left().0.len() > 0 && v@ == old(self).left().0[0]
                    && final(self).left() == (old(self).left().0.skip(1), old(self).left().1),
                Some(Err(e)) => old(self).left() == (Seq::<VisitView>::empty(), Some(e))
                    && final(self).left() == (Seq::<VisitView>::empty(), None::<Error>),
                None => old(self).left() == (Seq::<VisitView>::empty(), None::<Error>)
                    && final(self).left() == old(self).left(),
            },
    {
        proof {
            use_type_invariant(&*self);
        }
        let odb = self.odb;
        let ghost whole = self.left();
        let mut stack: Vec<Frame> = Vec::new();
        std::mem::swap(&mut stack, &mut self.stack);
        if let Some(e) = self.failed {
            self.failed = None;
            return Some(Err(e));
        }
        loop
            invariant
                whole == old(self).left(),
                whole == listed_rest(odb, stack@),
                frames_ok(stack@),
                self.odb == odb,
                self.stack@.len() == 0,
                self.failed is None,
            decreases work_rest(odb, stack@),
        {
            let ghost before = stack@;
            let Some(mut top) = stack.pop() else {
                return None;
            };
            let ghost below = stack@;
            let ghost depth = before.len();
            let ghost rest = top.rest();
            let ghost others = listed_rest(odb, below);
            proof {
                assert(before.drop_last() =~= below);
                assert(before.last() == top);
                assert(before[before.len() - 1] == top);
                assert forall|i: int| 0 <= i < below.len() implies (#[trigger] below[i]).pos
                    <= below[i].body@.len() by {
                    assert(below[i] == before[i]);
                }
                assert(whole == followed_by(listed(odb, top.prefix@, rest, depth), others));
                lemma_entry_length(rest);
                lemma_first_entry_len(rest);
            }
            let mut it = TreeIter::new(from_index(top.body.as_slice(), top.pos));
            let entry = match it.next() {
                None => {
                    assert(followed_by((Seq::empty(), None), others) =~= others) by {
                        assert(Seq::<VisitView>::empty() + others.0 =~= others.0);
                    }
                    continue;
                },
                Some(Err(e)) => {
                    return Some(Err(e));
                },
                Some(Ok(entry)) => entry,
            };
            let mut path: Vec<u8> = owned(top.prefix.as_slice());
            if path.len() > 0 {
                path.push(47);
            }
            path.extend_from_slice(entry.name);
            assert(path@ =~= joined(top.prefix@, entry.name@));
            assert(entry@.mode.len() + entry@.name.len() + 22 <= rest.len());
            assert(rest.len() <= top.body.len());
            let consumed: usize = entry.mode.len() + entry.name.len() + 22;
            let oid = entry.oid;
            let directory = same(entry.mode, text("40000")) || same(entry.mode, text("040000"));
            let gitlink = same(entry.mode, text("160000"));
            let file = kind_of_file(entry.mode);
            let ghost view = entry@;
            let ghost next = rest.skip(consumed as int);
            let ghost after = listed(odb, top.prefix@, next, depth);
            top.pos = top.pos + consumed;
            assert(top.rest() =~= next);
            let ghost now = top;
            stack.push(top);
            proof {
                assert(stack@.drop_last() =~= below);
                assert(stack@.last() == now);
                assert(listed_rest(odb, stack@) == followed_by(after, others));
            }
            if directory {
                if stack.len() >= MAX_TREE_DEPTH {
                    return Some(Err(Error::Corrupt("tree nesting too deep")));
                }
                let child = match read_tree(odb, &oid) {
                    Ok(body) => body,
                    Err(e) => {
                        return Some(Err(e));
                    },
                };
                let ghost open = stack@;
                let frame = Frame { prefix: path, body: child, pos: 0 };
                stack.push(frame);
                proof {
                    assert(frame.rest() =~= child@);
                    assert(stack@.drop_last() =~= open);
                    assert(stack@.last() == frame);
                    let inner = listed(odb, path@, child@, depth + 1);
                    lemma_followed_assoc(inner, after, others);
                    assert(listed_rest(odb, stack@) == followed_by(inner, listed_rest(odb, open)));
                    assert(work_rest(odb, open) == work(odb, next, depth) + work_rest(odb, below));
                    assert(work_rest(odb, stack@) == work(odb, child@, depth + 1) + work_rest(odb, open));
                    assert(work(odb, rest, depth) == 1 + work(odb, next, depth) + work(
                        odb,
                        child@,
                        depth + 1,
                    ));
                }
                continue;
            }
            let content: Vec<u8>;
            let kind: EntryKind;
            if gitlink {
                kind = EntryKind::Gitlink;
                content = owned(oid.as_bytes().as_slice());
            } else {
                match file {
                    None => {
                        return Some(Err(Error::Corrupt("tree entry mode")));
                    },
                    Some(k) => {
                        kind = k;
                    },
                }
                match odb.read(&oid) {
                    Some((Kind::Blob, blob)) => {
                        content = blob;
                    },
                    _ => {
                        return Some(Err(Error::MissingBase));
                    },
                }
            }
            let file = TreeFile { path, kind, content };
            proof {
                assert(file_in(odb, now.prefix@, view) == Ok::<_, Error>(file@));
                lemma_followed_assoc((seq![file@], None), after, others);
                assert(whole == followed_by((seq![file@], None), listed_rest(odb, stack@)));
                assert(whole.0.skip(1) =~= listed_rest(odb, stack@).0);
            }
            self.stack = stack;
            return Some(Ok(file));
        }
    }
}

/// Calls `visit` with the path, the kind and the contents of every file of a tree, in the order of
/// the trees, until it answers with an error: a loop over a [`Cursor`].
///
/// The contract says what `visit` answers to each file and what is returned. That each file is
/// handed over once, in order, and none after an error is not in it: a contract sees of a callback
/// only which answers it may give to a call. [`Cursor::next`] says it of the files themselves.
pub fn walk<O: Odb, F: FnMut(&[u8], EntryKind, &[u8]) -> Result<()>>(
    odb: &O,
    tree: Oid,
    visit: &mut F,
) -> (r: Result<()>)
    requires
        forall|f: F, path: &[u8], kind: EntryKind, content: &[u8]|
            call_requires(f, (path, kind, content)),
    ensures
        exists|answers: Seq<Result<()>>| #[trigger]
            walked(tree_listing(odb, tree@), answers, r) && forall|i: int|
                0 <= i < answers.len() ==> answered(
                    *old(visit),
                    tree_listing(odb, tree@).0[i],
                    #[trigger] answers[i],
                ),
{
    let ghost whole = tree_listing(odb, tree@);
    let ghost f0 = *visit;
    let ghost mut answers: Seq<Result<()>> = Seq::empty();
    let mut cursor = Cursor::new(odb, &tree);
    assert(whole.0.skip(0) =~= whole.0);
    loop
        invariant
            forall|f: F, path: &[u8], kind: EntryKind, content: &[u8]|
                call_requires(f, (path, kind, content)),
            f0 == *old(visit),
            *visit == f0,
            whole == tree_listing(odb, tree@),
            answers.len() <= whole.0.len(),
            cursor.left() == (whole.0.skip(answers.len() as int), whole.1),
            forall|i: int| 0 <= i < answers.len() ==> (#[trigger] answers[i]) is Ok,
            forall|i: int| 0 <= i < answers.len() ==> answered(f0, whole.0[i], #[trigger] answers[i]),
        decreases cursor.left().0.len(),
    {
        match cursor.next() {
            None => {
                assert(walked(whole, answers, Ok(())));
                return Ok(());
            },
            Some(Err(e)) => {
                assert(walked(whole, answers, Err(e)));
                return Err(e);
            },
            Some(Ok(file)) => {
                let path = file.path.as_slice();
                let content = file.content.as_slice();
                let answer = visit(path, file.kind, content);
                proof {
                    let call = whole.0[answers.len() as int];
                    assert(path@ == call.path && content@ == call.content);
                    assert(answered(f0, call, answer));
                    assert(whole.0.skip(answers.len() as int).skip(1) =~= whole.0.skip(
                        (answers.len() + 1) as int,
                    ));
                    answers = answers.push(answer);
                    if answer is Err {
                        assert(walked(whole, answers, answer));
                    }
                }
                answer?;
            },
        }
    }
}

} // verus!
