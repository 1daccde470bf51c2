//! Objects: commits, trees, blobs and tags.
//!
//! The id of an object is the SHA-1 digest of `<type> <size>`, a zero byte and the body. What is
//! parsed here is the body alone.

use vstd::prelude::*;

use crate::bytes::{
    after_prefix, all_digits, cut, cut_at, decimal, decimal_value, from_index, is_digit,
    lemma_cut_len, lemma_decimal_value_mono, lit, opt_view, push_decimal, same, strip_prefix, text, up_to,
    views,
};
use crate::err::{agrees, Error, Result};
use crate::oid::{from_hex, Oid};
use crate::sha1::{digest_oid, sha1};

verus! {

// --- kinds and ids -------------------------------------------------------------------

#[derive(Debug, Clone, Copy, PartialEq, Eq, Structural)]
pub enum Kind {
    Commit,
    Tree,
    Blob,
    Tag,
}

/// The kind with the given name.
pub open spec fn kind_named(name: Seq<u8>) -> Result<Kind> {
    if name == lit("commit") {
        Ok(Kind::Commit)
    } else if name == lit("tree") {
        Ok(Kind::Tree)
    } else if name == lit("blob") {
        Ok(Kind::Blob)
    } else if name == lit("tag") {
        Ok(Kind::Tag)
    } else {
        Err(Error::Corrupt("object type name"))
    }
}

impl Kind {
    /// The name of the kind.
    pub open spec fn name(self) -> Seq<char> {
        match self {
            Kind::Commit => "commit"@,
            Kind::Tree => "tree"@,
            Kind::Blob => "blob"@,
            Kind::Tag => "tag"@,
        }
    }

    pub fn as_str(&self) -> (r: &'static str)
        ensures
            r@ == self.name(),
    {
        match self {
            Kind::Commit => "commit",
            Kind::Tree => "tree",
            Kind::Blob => "blob",
            Kind::Tag => "tag",
        }
    }

    pub fn from_name(name: &[u8]) -> (r: Result<Self>)
        ensures
            r == kind_named(name@),
    {
        if same(name, text("commit")) {
            Ok(Kind::Commit)
        } else if same(name, text("tree")) {
            Ok(Kind::Tree)
        } else if same(name, text("blob")) {
            Ok(Kind::Blob)
        } else if same(name, text("tag")) {
            Ok(Kind::Tag)
        } else {
            Err(Error::Corrupt("object type name"))
        }
    }
}

/// What stands before the body of an object when its id is computed.
pub open spec fn object_header(kind: Kind, len: nat) -> Seq<u8> {
    vstd::utf8::encode_utf8(kind.name()) + seq![32u8] + decimal(len) + seq![0u8]
}

/// The id of an object.
pub open spec fn object_id(kind: Kind, body: Seq<u8>) -> Seq<u8> {
    sha1(object_header(kind, body.len()) + body)
}

/// The id of the object with the given body.
pub fn compute_oid(kind: Kind, body: &[u8]) -> (r: Oid)
    ensures
        r@ == object_id(kind, body@),
{
    let mut header: Vec<u8> = Vec::new();
    header.extend_from_slice(kind.as_str().as_bytes());
    header.push(32);
    push_decimal(&mut header, body.len() as u64);
    header.push(0);
    assert(header@ =~= object_header(kind, body@.len()));
    let parts: [&[u8]; 2] = [header.as_slice(), body];
    proof {
        let all = views(parts@);
        assert(all =~= seq![header@, body@]);
        assert(all.drop_first() =~= seq![body@]);
        assert(all.drop_first().drop_first() =~= Seq::<Seq<u8>>::empty());
        reveal_with_fuel(Seq::flatten, 3);
        assert(all.flatten() =~= header@ + body@);
    }
    digest_oid(parts.as_slice())
}

// --- signatures ------------------------------------------------------------------------

/// Who did something, and when.
#[derive(Debug, Clone, Copy, PartialEq, Eq)]
pub struct Sig<'a> {
    pub name: &'a [u8],
    pub email: &'a [u8],
    /// Seconds since the epoch.
    pub time: i64,
    /// The time zone as it is written (such as `+0900`).
    pub tz: &'a [u8],
}

/// The contents of a signature.
pub struct SigView {
    pub name: Seq<u8>,
    pub email: Seq<u8>,
    pub time: int,
    pub tz: Seq<u8>,
}

impl<'a> View for Sig<'a> {
    type V = SigView;

    open spec fn view(&self) -> SigView {
        SigView { name: self.name@, email: self.email@, time: self.time as int, tz: self.tz@ }
    }
}

/// A decimal number with an optional minus sign, no greater in size than an `i64` goes up to.
pub open spec fn signed_value(s: Seq<u8>) -> Option<int> {
    let neg = s.len() > 0 && s[0] == 45;
    let digits = if neg {
        s.skip(1)
    } else {
        s
    };
    if digits.len() == 0 || !all_digits(digits) || decimal_value(digits) > i64::MAX {
        None
    } else if neg {
        Some(-(decimal_value(digits) as int))
    } else {
        Some(decimal_value(digits) as int)
    }
}

/// A string without the space at its end, where it has one.
pub open spec fn without_space(s: Seq<u8>) -> Seq<u8> {
    if s.len() > 0 && s.last() == 32 {
        s.drop_last()
    } else {
        s
    }
}

/// The signature in `name <email> time tz`; the time zone may be absent.
pub open spec fn sig_view(v: Seq<u8>) -> Result<SigView> {
    match cut(v, 60) {
        None => Err(Error::Corrupt("signature email start")),
        Some((name, after)) => match cut(after, 62) {
            None => Err(Error::Corrupt("signature email end")),
            Some((email, tail)) => {
                let rest = if tail.len() > 0 {
                    tail.skip(1)
                } else {
                    tail
                };
                let (time, tz) = match cut(rest, 32) {
                    Some(parts) => parts,
                    None => (rest, Seq::empty()),
                };
                match signed_value(time) {
                    None => Err(Error::Corrupt("signature timestamp")),
                    Some(t) => Ok(SigView { name: without_space(name), email, time: t, tz }),
                }
            },
        },
    }
}

fn parse_i64(s: &[u8]) -> (r: Option<i64>)
    ensures
        match r {
            Some(v) => signed_value(s@) == Some(v as int),
            None => signed_value(s@) is None,
        },
{
    let neg = s.len() > 0 && s[0] == 45;
    let digits = if neg {
        from_index(s, 1)
    } else {
        s
    };
    if digits.len() == 0 {
        return None;
    }
    let ghost d = digits@;
    let mut value: i64 = 0;
    let mut i: usize = 0;
    assert(d.take(0) =~= Seq::<u8>::empty());
    while i < digits.len()
        invariant
            i <= digits.len(),
            d == digits@,
            d.len() > 0,
            neg == (s@.len() > 0 && s@[0] == 45),
            d == (if neg {
                s@.skip(1)
            } else {
                s@
            }),
            all_digits(d.take(i as int)),
            value == decimal_value(d.take(i as int)),
            0 <= value,
        decreases digits.len() - i,
    {
        let c = digits[i];
        let ghost next = d.take(i + 1);
        assert(next.drop_last() =~= d.take(i as int));
        if c < 48 || c > 57 {
            assert(!is_digit(d[i as int]));
            return None;
        }
        assert(all_digits(next)) by {
            assert forall|k: int| 0 <= k < next.len() implies is_digit(#[trigger] next[k]) by {
                if k < i {
                    assert(next[k] == d.take(i as int)[k]);
                }
            }
        }
        let digit: i64 = (c - 48) as i64;
        if value > (i64::MAX - digit) / 10 {
            proof {
                if all_digits(d) {
                    lemma_decimal_value_mono(d, i + 1);
                }
            }
            return None;
        }
        value = value * 10 + digit;
        i += 1;
    }
    assert(d.take(i as int) =~= d);
    if neg {
        Some(-value)
    } else {
        Some(value)
    }
}

pub(crate) fn parse_sig<'a>(v: &'a [u8]) -> (r: Result<Sig<'a>>)
    ensures
        agrees(r, sig_view(v@)),
{
    let Some((name, after)) = cut_at(v, 60) else {
        return Err(Error::Corrupt("signature email start"));
    };
    let Some((email, tail)) = cut_at(after, 62) else {
        return Err(Error::Corrupt("signature email end"));
    };
    let name = if name.len() > 0 && name[name.len() - 1] == 32 {
        let short = up_to(name, name.len() - 1);
        assert(short@ =~= name@.drop_last());
        short
    } else {
        name
    };
    let rest = if tail.len() > 0 {
        from_index(tail, 1)
    } else {
        tail
    };
    let (time, tz) = match cut_at(rest, 32) {
        Some(parts) => parts,
        None => {
            let none = from_index(rest, rest.len());
            assert(none@ =~= Seq::<u8>::empty());
            (rest, none)
        },
    };
    match parse_i64(time) {
        Some(time) => Ok(Sig { name, email, time, tz }),
        None => Err(Error::Corrupt("signature timestamp")),
    }
}

// --- commits -----------------------------------------------------------------------------

#[derive(Debug, Clone, PartialEq, Eq)]
pub struct Commit<'a> {
    pub tree: Oid,
    pub parents: Vec<Oid>,
    pub author: Sig<'a>,
    pub committer: Sig<'a>,
    /// What follows the headers and the empty line.
    pub message: &'a [u8],
}

/// The contents of a commit.
pub struct CommitView {
    pub tree: Seq<u8>,
    pub parents: Seq<Seq<u8>>,
    pub author: SigView,
    pub committer: SigView,
    pub message: Seq<u8>,
}

/// The bytes of a list of ids.
pub open spec fn oid_views(v: Seq<Oid>) -> Seq<Seq<u8>> {
    Seq::new(v.len(), |i: int| v[i]@)
}

impl<'a> View for Commit<'a> {
    type V = CommitView;

    open spec fn view(&self) -> CommitView {
        CommitView {
            tree: self.tree@,
            parents: oid_views(self.parents@),
            author: self.author@,
            committer: self.committer@,
            message: self.message@,
        }
    }
}

/// What the headers of a commit have said so far.
pub struct CommitHeaders {
    pub tree: Option<Seq<u8>>,
    pub parents: Seq<Seq<u8>>,
    pub author: Option<SigView>,
    pub committer: Option<SigView>,
}

/// One more header line. Other headers, and lines that continue one, say nothing.
pub open spec fn commit_header(h: CommitHeaders, line: Seq<u8>) -> Result<CommitHeaders> {
    if let Some(v) = after_prefix(line, lit("tree ")) {
        match from_hex(v) {
            Ok(oid) => Ok(CommitHeaders { tree: Some(oid), ..h }),
            Err(e) => Err(e),
        }
    } else if let Some(v) = after_prefix(line, lit("parent ")) {
        match from_hex(v) {
            Ok(oid) => Ok(CommitHeaders { parents: h.parents.push(oid), ..h }),
            Err(e) => Err(e),
        }
    } else if let Some(v) = after_prefix(line, lit("author ")) {
        match sig_view(v) {
            Ok(sig) => Ok(CommitHeaders { author: Some(sig), ..h }),
            Err(e) => Err(e),
        }
    } else if let Some(v) = after_prefix(line, lit("committer ")) {
        match sig_view(v) {
            Ok(sig) => Ok(CommitHeaders { committer: Some(sig), ..h }),
            Err(e) => Err(e),
        }
    } else {
        Ok(h)
    }
}

/// The header lines up to the empty one, and what follows that.
pub open spec fn commit_headers(rest: Seq<u8>, h: CommitHeaders) -> Result<(CommitHeaders, Seq<u8>)>
    decreases rest.len(),
{
    proof {
        lemma_cut_len(rest, 10);
    }
    match cut(rest, 10) {
        None => Err(Error::Corrupt("unterminated header line")),
        Some((line, next)) => if line.len() == 0 {
            Ok((h, next))
        } else {
            match commit_header(h, line) {
                Ok(g) => commit_headers(next, g),
                Err(e) => Err(e),
            }
        },
    }
}

pub open spec fn no_commit_headers() -> CommitHeaders {
    CommitHeaders { tree: None, parents: Seq::empty(), author: None, committer: None }
}

/// The commit that a body holds.
pub open spec fn commit_view(body: Seq<u8>) -> Result<CommitView> {
    match commit_headers(body, no_commit_headers()) {
        Err(e) => Err(e),
        Ok((h, message)) => if h.tree is None {
            Err(Error::Corrupt("commit without tree"))
        } else if h.author is None {
            Err(Error::Corrupt("commit without author"))
        } else if h.committer is None {
            Err(Error::Corrupt("commit without committer"))
        } else {
            Ok(
                CommitView {
                    tree: h.tree->0,
                    parents: h.parents,
                    author: h.author->0,
                    committer: h.committer->0,
                    message,
                },
            )
        },
    }
}

proof fn lemma_headers_ids(rest: Seq<u8>, h: CommitHeaders)
    requires
        forall|i: int| 0 <= i < h.parents.len() ==> (#[trigger] h.parents[i]).len() == 20,
    ensures
        commit_headers(rest, h) matches Ok((g, _)) ==> forall|i: int|
            0 <= i < g.parents.len() ==> (#[trigger] g.parents[i]).len() == 20,
    decreases rest.len(),
{
    lemma_cut_len(rest, 10);
    if let Some((line, next)) = cut(rest, 10) {
        if line.len() > 0 {
            if let Ok(g) = commit_header(h, line) {
                assert forall|i: int| 0 <= i < g.parents.len() implies (#[trigger] g.parents[i]).len() == 20 by {
                    if i < h.parents.len() {
                        assert(g.parents[i] == h.parents[i]);
                    }
                }
                lemma_headers_ids(next, g);
            }
        }
    }
}

/// The ids of the parents of a commit have twenty bytes.
pub proof fn lemma_commit_ids(body: Seq<u8>)
    ensures
        commit_view(body) matches Ok(c) ==> forall|i: int|
            0 <= i < c.parents.len() ==> (#[trigger] c.parents[i]).len() == 20,
{
    lemma_headers_ids(body, no_commit_headers());
}

spec fn oid_opt(o: Option<Oid>) -> Option<Seq<u8>> {
    match o {
        Some(v) => Some(v@),
        None => None,
    }
}

spec fn sig_opt(o: Option<Sig<'_>>) -> Option<SigView> {
    match o {
        Some(v) => Some(v@),
        None => None,
    }
}

/// Parses the body of a commit. Unknown headers, with their continuation lines, are skipped.
pub fn parse_commit<'a>(body: &'a [u8]) -> (r: Result<Commit<'a>>)
    ensures
        agrees(r, commit_view(body@)),
{
    let mut tree: Option<Oid> = None;
    let mut parents: Vec<Oid> = Vec::new();
    let mut author: Option<Sig<'a>> = None;
    let mut committer: Option<Sig<'a>> = None;
    let mut rest: &'a [u8] = body;
    let ghost mut h = no_commit_headers();
    assert(oid_views(parents@) =~= Seq::<Seq<u8>>::empty());
    loop
        invariant_except_break
            commit_headers(body@, no_commit_headers()) == commit_headers(rest@, h),
        invariant
            h == (CommitHeaders {
                tree: oid_opt(tree),
                parents: oid_views(parents@),
                author: sig_opt(author),
                committer: sig_opt(committer),
            }),
        ensures
            commit_headers(body@, no_commit_headers()) == Ok::<_, Error>((h, rest@)),
        decreases rest@.len(),
    {
        let Some((line, next)) = cut_at(rest, 10) else {
            return Err(Error::Corrupt("unterminated header line"));
        };
        rest = next;
        if line.len() == 0 {
            break;
        }
        let ghost before = parents@;
        if let Some(v) = strip_prefix(line, text("tree ")) {
            tree = Some(Oid::from_hex(v)?);
        } else if let Some(v) = strip_prefix(line, text("parent ")) {
            let parent = Oid::from_hex(v)?;
            parents.push(parent);
            assert(oid_views(parents@) =~= oid_views(before).push(parent@));
        } else if let Some(v) = strip_prefix(line, text("author ")) {
            author = Some(parse_sig(v)?);
        } else if let Some(v) = strip_prefix(line, text("committer ")) {
            committer = Some(parse_sig(v)?);
        }
        proof {
            h = commit_header(h, line@)->Ok_0;
        }
    }
    let Some(tree) = tree else {
        return Err(Error::Corrupt("commit without tree"));
    };
    let Some(author) = author else {
        return Err(Error::Corrupt("commit without author"));
    };
    let Some(committer) = committer else {
        return Err(Error::Corrupt("commit without committer"));
    };
    Ok(Commit { tree, parents, author, committer, message: rest })
}

// --- tags ----------------------------------------------------------------------------------

#[derive(Debug, Clone, PartialEq, Eq)]
pub struct Tag<'a> {
    pub object: Oid,
    pub kind: Kind,
    pub name: &'a [u8],
    pub tagger: Option<Sig<'a>>,
    pub message: &'a [u8],
}

/// The contents of an annotated tag.
pub struct TagView {
    pub object: Seq<u8>,
    pub kind: Kind,
    pub name: Seq<u8>,
    pub tagger: Option<SigView>,
    pub message: Seq<u8>,
}

impl<'a> View for Tag<'a> {
    type V = TagView;

    open spec fn view(&self) -> TagView {
        TagView {
            object: self.object@,
            kind: self.kind,
            name: self.name@,
            tagger: match self.tagger {
                Some(sig) => Some(sig@),
                None => None,
            },
            message: self.message@,
        }
    }
}

/// What the headers of a tag have said so far.
pub struct TagHeaders {
    pub object: Option<Seq<u8>>,
    pub kind: Option<Kind>,
    pub name: Option<Seq<u8>>,
    pub tagger: Option<SigView>,
}

/// One more header line.
pub open spec fn tag_header(h: TagHeaders, line: Seq<u8>) -> Result<TagHeaders> {
    if let Some(v) = after_prefix(line, lit("object ")) {
        match from_hex(v) {
            Ok(oid) => Ok(TagHeaders { object: Some(oid), ..h }),
            Err(e) => Err(e),
        }
    } else if let Some(v) = after_prefix(line, lit("type ")) {
        match kind_named(v) {
            Ok(kind) => Ok(TagHeaders { kind: Some(kind), ..h }),
            Err(e) => Err(e),
        }
    } else if let Some(v) = after_prefix(line, lit("tag ")) {
        Ok(TagHeaders { name: Some(v), ..h })
    } else if let Some(v) = after_prefix(line, lit("tagger ")) {
        match sig_view(v) {
            Ok(sig) => Ok(TagHeaders { tagger: Some(sig), ..h }),
            Err(e) => Err(e),
        }
    } else {
        Ok(h)
    }
}

/// The header lines up to the empty one, and what follows that.
pub open spec fn tag_headers(rest: Seq<u8>, h: TagHeaders) -> Result<(TagHeaders, Seq<u8>)>
    decreases rest.len(),
{
    proof {
        lemma_cut_len(rest, 10);
    }
    match cut(rest, 10) {
        None => Err(Error::Corrupt("unterminated header line")),
        Some((line, next)) => if line.len() == 0 {
            Ok((h, next))
        } else {
            match tag_header(h, line) {
                Ok(g) => tag_headers(next, g),
                Err(e) => Err(e),
            }
        },
    }
}

pub open spec fn no_tag_headers() -> TagHeaders {
    TagHeaders { object: None, kind: None, name: None, tagger: None }
}

/// The tag that a body holds.
pub open spec fn tag_view(body: Seq<u8>) -> Result<TagView> {
    match tag_headers(body, no_tag_headers()) {
        Err(e) => Err(e),
        Ok((h, message)) => if h.object is None {
            Err(Error::Corrupt("tag without object"))
        } else if h.kind is None {
            Err(Error::Corrupt("tag without type"))
        } else if h.name is None {
            Err(Error::Corrupt("tag without name"))
        } else {
            Ok(
                TagView {
                    object: h.object->0,
                    kind: h.kind->0,
                    name: h.name->0,
                    tagger: h.tagger,
                    message,
                },
            )
        },
    }
}

/// Parses the body of an annotated tag.
pub fn parse_tag<'a>(body: &'a [u8]) -> (r: Result<Tag<'a>>)
    ensures
        agrees(r, tag_view(body@)),
{
    let mut object: Option<Oid> = None;
    let mut kind: Option<Kind> = None;
    let mut name: Option<&'a [u8]> = None;
    let mut tagger: Option<Sig<'a>> = None;
    let mut rest: &'a [u8] = body;
    let ghost mut h = no_tag_headers();
    loop
        invariant_except_break
            tag_headers(body@, no_tag_headers()) == tag_headers(rest@, h),
        invariant
            h == (TagHeaders {
                object: oid_opt(object),
                kind,
                name: opt_view(name),
                tagger: sig_opt(tagger),
            }),
        ensures
            tag_headers(body@, no_tag_headers()) == Ok::<_, Error>((h, rest@)),
        decreases rest@.len(),
    {
        let Some((line, next)) = cut_at(rest, 10) else {
            return Err(Error::Corrupt("unterminated header line"));
        };
        rest = next;
        if line.len() == 0 {
            break;
        }
        if let Some(v) = strip_prefix(line, text("object ")) {
            object = Some(Oid::from_hex(v)?);
        } else if let Some(v) = strip_prefix(line, text("type ")) {
            kind = Some(Kind::from_name(v)?);
        } else if let Some(v) = strip_prefix(line, text("tag ")) {
            name = Some(v);
        } else if let Some(v) = strip_prefix(line, text("tagger ")) {
            tagger = Some(parse_sig(v)?);
        }
        proof {
            h = tag_header(h, line@)->Ok_0;
        }
    }
    let Some(object) = object else {
        return Err(Error::Corrupt("tag without object"));
    };
    let Some(kind) = kind else {
        return Err(Error::Corrupt("tag without type"));
    };
    let Some(name) = name else {
        return Err(Error::Corrupt("tag without name"));
    };
    Ok(Tag { object, kind, name, tagger, message: rest })
}

// --- trees -----------------------------------------------------------------------------------

/// The entries of a tree body from the first on.
///
/// An entry is `<mode> <name>`, a zero byte and the twenty bytes of an id.
pub struct TreeIter<'a> {
    rest: &'a [u8],
}

#[derive(Debug, Clone, Copy, PartialEq, Eq)]
pub struct TreeEntry<'a> {
    /// The mode as it is written, in octal (such as `100644` or `40000`).
    pub mode: &'a [u8],
    pub name: &'a [u8],
    pub oid: Oid,
}

/// The contents of a tree entry.
pub struct EntryView {
    pub mode: Seq<u8>,
    pub name: Seq<u8>,
    pub oid: Seq<u8>,
}

impl<'a> View for TreeEntry<'a> {
    type V = EntryView;

    open spec fn view(&self) -> EntryView {
        EntryView { mode: self.mode@, name: self.name@, oid: self.oid@ }
    }
}

/// The first entry and what follows it.
pub open spec fn first_entry(rest: Seq<u8>) -> Result<(EntryView, Seq<u8>)> {
    match cut(rest, 32) {
        None => Err(Error::Corrupt("tree entry mode")),
        Some((mode, after)) => match cut(after, 0) {
            None => Err(Error::Corrupt("tree entry name")),
            Some((name, tail)) => if tail.len() < 20 {
                Err(Error::UnexpectedEof)
            } else {
                Ok((EntryView { mode, name, oid: tail.take(20) }, tail.skip(20)))
            },
        },
    }
}

/// All entries of a tree body.
pub open spec fn tree_view(body: Seq<u8>) -> Result<Seq<EntryView>>
    decreases body.len(),
{
    if body.len() == 0 {
        Ok(Seq::empty())
    } else {
        proof {
            lemma_first_entry_len(body);
        }
        match first_entry(body) {
            Err(e) => Err(e),
            Ok((entry, rest)) => match tree_view(rest) {
                Err(e) => Err(e),
                Ok(others) => Ok(seq![entry] + others),
            },
        }
    }
}

/// An entry takes up some of the body.
pub proof fn lemma_first_entry_len(body: Seq<u8>)
    ensures
        first_entry(body) matches Ok((entry, rest)) ==> rest.len() < body.len() && entry.oid.len() == 20,
{
    lemma_cut_len(body, 32);
    if let Some((mode, after)) = cut(body, 32) {
        lemma_cut_len(after, 0);
    }
}

impl<'a> View for TreeIter<'a> {
    type V = Seq<u8>;

    /// What is left of the body.
    closed spec fn view(&self) -> Seq<u8> {
        self.rest@
    }
}

impl<'a> TreeIter<'a> {
    pub fn new(body: &'a [u8]) -> (r: Self)
        ensures
            r@ == body@,
    {
        TreeIter { rest: body }
    }

    /// The next entry; `None` at the end of the body. After an error the position is unchanged.
    pub fn next(&mut self) -> (r: Option<Result<TreeEntry<'a>>>)
        ensures
            match r {
                None => old(self)@.len() == 0 && final(self)@ == old(self)@,
                Some(Ok(entry)) => old(self)@.len() > 0 && first_entry(old(self)@) == Ok::<_, Error>(
                    (entry@, final(self)@),
                ),
                Some(Err(e)) => old(self)@.len() > 0 && first_entry(old(self)@) == Err::<
                    (EntryView, Seq<u8>),
                    _,
                >(e) && final(self)@ == old(self)@,
            },
    {
        if self.rest.len() == 0 {
            return None;
        }
        Some(self.parse_next())
    }

    fn parse_next(&mut self) -> (r: Result<TreeEntry<'a>>)
        ensures
            match r {
                Ok(entry) => first_entry(old(self)@) == Ok::<_, Error>((entry@, final(self)@)),
                Err(e) => first_entry(old(self)@) == Err::<(EntryView, Seq<u8>), _>(e) && final(self)@
                    == old(self)@,
            },
    {
        let Some((mode, after)) = cut_at(self.rest, 32) else {
            return Err(Error::Corrupt("tree entry mode"));
        };
        let Some((name, tail)) = cut_at(after, 0) else {
            return Err(Error::Corrupt("tree entry name"));
        };
        if tail.len() < 20 {
            return Err(Error::UnexpectedEof);
        }
        let oid = Oid::from_slice(up_to(tail, 20));
        self.rest = from_index(tail, 20);
        Ok(TreeEntry { mode, name, oid })
    }
}

} // verus!
