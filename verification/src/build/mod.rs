//! Making objects: the bodies of trees and commits.
//!
//! A body has the form that [`crate::object`] parses. The body of a blob is its contents, so there
//! is nothing to build for it.

use vstd::prelude::*;

use crate::bytes::{
    after_prefix, decimal, has_byte, is_digit, lemma_cut, lemma_decimal, lemma_lit,
    lex_less, lit, push_decimal, same, text,
};
use crate::err::{agrees, Error, Result};
use crate::object::{
    commit_header, commit_headers, commit_view, first_entry, no_commit_headers, oid_views, sig_view,
    signed_value, tree_view, without_space, CommitHeaders, CommitView, EntryView, Sig, SigView,
};
use crate::oid::{hex_round_trip, push_hex, to_hex, Oid};
use crate::sort::{
    in_order, lemma_sorted, lemma_sorted_contains, lemma_sorted_map, sort, sorted, HasKey, Keyed,
};

verus! {

// --- trees -----------------------------------------------------------------------------------

/// An entry to put into a tree. The mode is given in octal, as it is written.
#[derive(Debug, Clone, Copy)]
pub struct TreeEntry<'a> {
    pub mode: &'a [u8],
    pub name: &'a [u8],
    pub oid: Oid,
}

impl<'a> View for TreeEntry<'a> {
    type V = EntryView;

    open spec fn view(&self) -> EntryView {
        EntryView { mode: self.mode@, name: self.name@, oid: self.oid@ }
    }
}

/// The contents of a list of entries.
pub open spec fn entry_views(s: Seq<TreeEntry<'_>>) -> Seq<EntryView> {
    s.map_values(|e: TreeEntry<'_>| e@)
}

pub open spec fn valid_name(name: Seq<u8>) -> bool {
    &&& name.len() > 0
    &&& name != lit(".")
    &&& name != lit("..")
    &&& !name.contains(47)
    &&& !name.contains(0)
}

pub open spec fn valid_mode(mode: Seq<u8>) -> bool {
    &&& mode.len() > 0
    &&& forall|i: int| 0 <= i < mode.len() ==> 48 <= #[trigger] mode[i] <= 55
}

/// What is wrong with an entry.
pub open spec fn entry_error(e: EntryView) -> Option<Error> {
    if !valid_name(e.name) {
        Some(Error::Corrupt("tree entry name"))
    } else if !valid_mode(e.mode) {
        Some(Error::Corrupt("tree entry mode"))
    } else {
        None
    }
}

/// What is wrong with the first entry that is refused.
pub open spec fn entries_error(s: Seq<EntryView>) -> Option<Error>
    decreases s.len(),
{
    if s.len() == 0 {
        None
    } else if entry_error(s[0]) is Some {
        entry_error(s[0])
    } else {
        entries_error(s.skip(1))
    }
}

pub open spec fn is_dir_mode(mode: Seq<u8>) -> bool {
    mode == lit("40000") || mode == lit("040000")
}

/// The key that entries are ordered by: the name, of a directory with a slash at its end.
pub open spec fn entry_key(e: EntryView) -> Seq<u8> {
    e.name.push(
        if is_dir_mode(e.mode) {
            47u8
        } else {
            0u8
        },
    )
}

/// One entry of a tree body.
pub open spec fn entry_bytes(e: EntryView) -> Seq<u8> {
    e.mode.push(32) + (e.name.push(0) + e.oid)
}

/// A tree body with the given entries.
pub open spec fn tree_bytes(s: Seq<EntryView>) -> Seq<u8>
    decreases s.len(),
{
    if s.len() == 0 {
        Seq::empty()
    } else {
        entry_bytes(s[0]) + tree_bytes(s.skip(1))
    }
}

/// The tree body for the given entries: their order is that of a tree.
pub open spec fn built_tree(entries: Seq<EntryView>) -> Result<Seq<u8>> {
    match entries_error(entries) {
        Some(e) => Err(e),
        None => Ok(tree_bytes(sorted(entries))),
    }
}

fn is_dir(entry: &TreeEntry<'_>) -> (r: bool)
    ensures
        r == is_dir_mode(entry.mode@),
{
    same(entry.mode, text("40000")) || same(entry.mode, text("040000"))
}

/// The byte of the key at `i`.
fn key_byte(entry: &TreeEntry<'_>, i: usize) -> (r: u8)
    requires
        i <= entry.name@.len(),
    ensures
        r == entry_key(entry@)[i as int],
{
    if i < entry.name.len() {
        entry.name[i]
    } else if is_dir(entry) {
        47
    } else {
        0
    }
}

impl HasKey for EntryView {
    open spec fn key(&self) -> Seq<u8> {
        entry_key(*self)
    }
}

impl<'a> HasKey for TreeEntry<'a> {
    open spec fn key(&self) -> Seq<u8> {
        entry_key(self@)
    }
}

impl<'a> Keyed for TreeEntry<'a> {
    fn goes_before(&self, other: &Self) -> (r: bool) {
        let ghost a = self.key();
        let ghost b = other.key();
        let mut i: usize = 0;
        assert(a.skip(0) =~= a);
        assert(b.skip(0) =~= b);
        loop
            invariant
                a == self.key(),
                b == other.key(),
                i <= self.name@.len(),
                i <= other.name@.len(),
                lex_less(a, b) == lex_less(a.skip(i as int), b.skip(i as int)),
            decreases self.name@.len() - i,
        {
            let x = key_byte(self, i);
            let y = key_byte(other, i);
            assert(a.skip(i as int)[0] == x && b.skip(i as int)[0] == y);
            assert(a.skip(i as int).skip(1) =~= a.skip(i + 1));
            assert(b.skip(i as int).skip(1) =~= b.skip(i + 1));
            if x != y {
                return x < y;
            }
            assert(lex_less(a, b) == lex_less(a.skip(i + 1), b.skip(i + 1)));
            if i == other.name.len() {
                assert(b.skip(i + 1).len() == 0);
                return false;
            }
            if i == self.name.len() {
                assert(a.skip(i + 1).len() == 0);
                assert(b.skip(i + 1).len() > 0);
                return true;
            }
            i += 1;
        }
    }
}

fn check_entry(entry: &TreeEntry<'_>) -> (r: Result<()>)
    ensures
        match r {
            Ok(()) => entry_error(entry@) is None,
            Err(e) => entry_error(entry@) == Some(e),
        },
{
    let name = entry.name;
    if name.len() == 0 || same(name, text(".")) || same(name, text("..")) || has_byte(name, 47)
        || has_byte(name, 0) {
        return Err(Error::Corrupt("tree entry name"));
    }
    let mode = entry.mode;
    if mode.len() == 0 {
        return Err(Error::Corrupt("tree entry mode"));
    }
    let mut i: usize = 0;
    while i < mode.len()
        invariant
            i <= mode.len(),
            mode@ == entry.mode@,
            valid_name(entry.name@),
            forall|k: int| 0 <= k < i ==> 48 <= #[trigger] mode@[k] <= 55,
        decreases mode.len() - i,
    {
        if mode[i] < 48 || mode[i] > 55 {
            assert(!valid_mode(mode@));
            return Err(Error::Corrupt("tree entry mode"));
        }
        i += 1;
    }
    Ok(())
}

/// The body of a tree. The entries are put into the order of a tree: by name, that of a directory
/// with a slash at its end.
pub fn tree(entries: &[TreeEntry<'_>]) -> (r: Result<Vec<u8>>)
    ensures
        agrees(r, built_tree(entry_views(entries@))),
{
    let ghost all = entry_views(entries@);
    let mut i: usize = 0;
    assert(all.skip(0) =~= all);
    while i < entries.len()
        invariant
            i <= entries.len(),
            all == entry_views(entries@),
            entries_error(all) == entries_error(all.skip(i as int)),
        decreases entries.len() - i,
    {
        assert(all.skip(i as int)[0] == entries@[i as int]@);
        assert(all.skip(i as int).skip(1) =~= all.skip(i + 1));
        check_entry(&entries[i])?;
        i += 1;
    }
    let list = sort(entries);
    let ghost views = entry_views(list@);
    proof {
        lemma_sorted_map(entries@, |e: TreeEntry<'_>| e@);
    }
    let mut out: Vec<u8> = Vec::new();
    let mut j: usize = 0;
    assert(views.skip(0) =~= views);
    assert(out@ + tree_bytes(views) =~= tree_bytes(views));
    while j < list.len()
        invariant
            j <= list.len(),
            views == entry_views(list@),
            out@ + tree_bytes(views.skip(j as int)) == tree_bytes(views),
        decreases list.len() - j,
    {
        let entry = &list[j];
        let ghost before = out@;
        assert(views.skip(j as int)[0] == entry@);
        assert(views.skip(j as int).skip(1) =~= views.skip(j + 1));
        out.extend_from_slice(entry.mode);
        out.push(32);
        out.extend_from_slice(entry.name);
        out.push(0);
        out.extend_from_slice(entry.oid.as_bytes().as_slice());
        assert(out@ =~= before + entry_bytes(entry@));
        assert(out@ + tree_bytes(views.skip(j + 1)) =~= before + tree_bytes(views.skip(j as int)));
        j += 1;
    }
    assert(out@ =~= tree_bytes(views));
    Ok(out)
}

// --- commits ---------------------------------------------------------------------------------

/// A field of a signature holds a byte that would break its form.
pub open spec fn breaks_sig(field: Seq<u8>) -> bool {
    exists|i: int| 0 <= i < field.len() && (#[trigger] field[i] == 60 || field[i] == 62 || field[i] == 10)
}

pub open spec fn valid_sig(s: SigView) -> bool {
    !breaks_sig(s.name) && !breaks_sig(s.email) && !s.tz.contains(10)
}

/// A number with a minus sign where it is negative.
pub open spec fn signed_decimal(n: int) -> Seq<u8> {
    if n < 0 {
        seq![45u8] + decimal((-n) as nat)
    } else {
        decimal(n as nat)
    }
}

/// A signature as it is written, without the line feed at its end.
pub open spec fn sig_bytes(s: SigView) -> Seq<u8> {
    let name = if s.name.len() > 0 {
        s.name.push(32)
    } else {
        s.name
    };
    name.push(60) + (s.email.push(62) + (seq![32u8] + (signed_decimal(s.time).push(32) + s.tz)))
}

/// A header line of a commit.
pub open spec fn header_line(name: Seq<u8>, value: Seq<u8>) -> Seq<u8> {
    (name + value).push(10)
}

pub open spec fn parent_lines(parents: Seq<Seq<u8>>) -> Seq<u8>
    decreases parents.len(),
{
    if parents.len() == 0 {
        Seq::empty()
    } else {
        header_line(lit("parent "), to_hex(parents[0])) + parent_lines(parents.skip(1))
    }
}

/// The commit body with the given contents.
pub open spec fn commit_bytes(c: CommitView) -> Seq<u8> {
    header_line(lit("tree "), to_hex(c.tree)) + (parent_lines(c.parents) + (header_line(
        lit("author "),
        sig_bytes(c.author),
    ) + (header_line(lit("committer "), sig_bytes(c.committer)) + (seq![10u8] + c.message))))
}

pub open spec fn built_commit(c: CommitView) -> Result<Seq<u8>> {
    if valid_sig(c.author) && valid_sig(c.committer) {
        Ok(commit_bytes(c))
    } else {
        Err(Error::Corrupt("signature field"))
    }
}

fn bad(field: &[u8]) -> (r: bool)
    ensures
        r == breaks_sig(field@),
{
    let mut i: usize = 0;
    while i < field.len()
        invariant
            i <= field.len(),
            forall|k: int|
                0 <= k < i ==> #[trigger] field@[k] != 60 && field@[k] != 62 && field@[k] != 10,
        decreases field.len() - i,
    {
        if field[i] == 60 || field[i] == 62 || field[i] == 10 {
            return true;
        }
        i += 1;
    }
    false
}

fn push_i64(out: &mut Vec<u8>, value: i64)
    ensures
        final(out)@ == old(out)@ + signed_decimal(value as int),
{
    if value < 0 {
        out.push(45);
        if value == i64::MIN {
            push_decimal(out, 0x8000_0000_0000_0000);
        } else {
            push_decimal(out, (-value) as u64);
        }
    } else {
        push_decimal(out, value as u64);
    }
    assert(out@ =~= old(out)@ + signed_decimal(value as int));
}

fn push_sig(out: &mut Vec<u8>, sig: &Sig<'_>) -> (r: Result<()>)
    ensures
        match r {
            Ok(()) => valid_sig(sig@) && final(out)@ == old(out)@ + sig_bytes(sig@).push(10),
            Err(e) => !valid_sig(sig@) && e == Error::Corrupt("signature field"),
        },
{
    if bad(sig.name) || bad(sig.email) || has_byte(sig.tz, 10) {
        return Err(Error::Corrupt("signature field"));
    }
    if sig.name.len() > 0 {
        out.extend_from_slice(sig.name);
        out.push(32);
    }
    out.push(60);
    out.extend_from_slice(sig.email);
    out.push(62);
    out.push(32);
    push_i64(out, sig.time);
    out.push(32);
    out.extend_from_slice(sig.tz);
    out.push(10);
    assert(out@ =~= old(out)@ + sig_bytes(sig@).push(10));
    Ok(())
}

/// The body of a commit.
pub fn commit(
    tree: Oid,
    parents: &[Oid],
    author: &Sig<'_>,
    committer: &Sig<'_>,
    message: &[u8],
) -> (r: Result<Vec<u8>>)
    ensures
        agrees(
            r,
            built_commit(
                (CommitView {
                    tree: tree@,
                    parents: oid_views(parents@),
                    author: author@,
                    committer: committer@,
                    message: message@,
                }),
            ),
        ),
{
    let mut out: Vec<u8> = Vec::new();
    out.extend_from_slice(text("tree "));
    push_hex(&mut out, &tree);
    out.push(10);
    let ghost first = out@;
    let ghost all = oid_views(parents@);
    assert(first =~= header_line(lit("tree "), to_hex(tree@)));
    let mut i: usize = 0;
    assert(all.skip(0) =~= all);
    while i < parents.len()
        invariant
            i <= parents.len(),
            all == oid_views(parents@),
            out@ + parent_lines(all.skip(i as int)) == first + parent_lines(all),
        decreases parents.len() - i,
    {
        let ghost before = out@;
        assert(all.skip(i as int)[0] == parents@[i as int]@);
        assert(all.skip(i as int).skip(1) =~= all.skip(i + 1));
        out.extend_from_slice(text("parent "));
        push_hex(&mut out, &parents[i]);
        out.push(10);
        assert(out@ =~= before + header_line(lit("parent "), to_hex(parents@[i as int]@)));
        assert(out@ + parent_lines(all.skip(i + 1)) =~= before + parent_lines(all.skip(i as int)));
        i += 1;
    }
    assert(out@ =~= first + parent_lines(all));
    out.extend_from_slice(text("author "));
    push_sig(&mut out, author)?;
    out.extend_from_slice(text("committer "));
    push_sig(&mut out, committer)?;
    out.push(10);
    out.extend_from_slice(message);
    assert(out@ =~= commit_bytes(
        CommitView {
            tree: tree@,
            parents: all,
            author: author@,
            committer: committer@,
            message: message@,
        },
    ));
    Ok(out)
}

// --- what was built is parsed ------------------------------------------------------------------

proof fn lemma_signed_round_trip(n: int)
    requires
        -i64::MAX <= n <= i64::MAX,
    ensures
        signed_value(signed_decimal(n)) == Some(n),
        forall|i: int|
            0 <= i < signed_decimal(n).len() ==> #[trigger] signed_decimal(n)[i] != 32
                && signed_decimal(n)[i] != 10,
{
    let s = signed_decimal(n);
    let m = if n < 0 {
        (-n) as nat
    } else {
        n as nat
    };
    lemma_decimal(m);
    let d = decimal(m);
    assert(is_digit(d[0]));
    if n < 0 {
        assert(s.skip(1) =~= d);
        assert forall|i: int| 0 <= i < s.len() implies #[trigger] s[i] != 32 && s[i] != 10 by {
            if i > 0 {
                assert(is_digit(d[i - 1]));
            }
        }
    } else {
        assert forall|i: int| 0 <= i < s.len() implies #[trigger] s[i] != 32 && s[i] != 10 by {
            assert(is_digit(d[i]));
        }
    }
}

/// A signature as it was written is parsed.
pub proof fn lemma_sig_round_trip(s: SigView)
    requires
        valid_sig(s),
        -i64::MAX <= s.time <= i64::MAX,
    ensures
        sig_view(sig_bytes(s)) == Ok::<_, Error>(s),
        !sig_bytes(s).contains(10),
{
    let name = if s.name.len() > 0 {
        s.name.push(32)
    } else {
        s.name
    };
    let time = signed_decimal(s.time);
    let stamp = time.push(32) + s.tz;
    let tail = seq![32u8] + stamp;
    let after = s.email.push(62) + tail;
    lemma_signed_round_trip(s.time);
    assert(!name.contains(60)) by {
        assert forall|i: int| 0 <= i < name.len() implies name[i] != 60 by {
            if i < s.name.len() {
                assert(name[i] == s.name[i]);
            }
        }
    }
    assert(!s.email.contains(62)) by {
        assert forall|i: int| 0 <= i < s.email.len() implies s.email[i] != 62 by {}
    }
    assert(!time.contains(32));
    lemma_cut(name, 60, after);
    lemma_cut(s.email, 62, tail);
    assert(tail.skip(1) =~= stamp);
    lemma_cut(time, 32, s.tz);
    assert(without_space(name) =~= s.name);
    let all = sig_bytes(s);
    assert forall|i: int| 0 <= i < all.len() implies all[i] != 10 by {
        let a = name.len() as int;
        let b = s.email.len() as int;
        let c = time.len() as int;
        if i < s.name.len() {
            assert(all[i] == s.name[i]);
        } else if i <= a {
        } else if i <= a + b {
            assert(all[i] == s.email[i - a - 1]);
        } else if i <= a + b + 2 {
        } else if i < a + b + 3 + c {
            assert(all[i] == time[i - a - b - 3]);
        } else if i == a + b + 3 + c {
        } else {
            assert(all[i] == s.tz[i - a - b - c - 4]);
        }
    }
}

/// A header line is taken up.
proof fn lemma_header_line(name: Seq<u8>, value: Seq<u8>, rest: Seq<u8>, h: CommitHeaders)
    requires
        name.len() > 0,
        !name.contains(10),
        !value.contains(10),
    ensures
        commit_headers(header_line(name, value) + rest, h) == (match commit_header(h, name + value) {
            Ok(g) => commit_headers(rest, g),
            Err(e) => Err(e),
        }),
{
    let line = name + value;
    assert(!line.contains(10)) by {
        assert forall|i: int| 0 <= i < line.len() implies line[i] != 10 by {
            if i < name.len() {
                assert(line[i] == name[i]);
            } else {
                assert(line[i] == value[i - name.len()]);
            }
        }
    }
    lemma_cut(line, 10, rest);
}

proof fn lemma_after_prefix(p: Seq<u8>, v: Seq<u8>)
    ensures
        after_prefix(p + v, p) == Some(v),
{
    assert((p + v).take(p.len() as int) =~= p);
    assert((p + v).skip(p.len() as int) =~= v);
}

/// A string does not start with a prefix whose first byte is another one.
proof fn lemma_other_prefix(s: Seq<u8>, p: Seq<u8>)
    requires
        p.len() > 0,
        s.len() > 0,
        s[0] != p[0],
    ensures
        after_prefix(s, p) is None,
{
    if p.len() <= s.len() {
        assert(s.take(p.len() as int)[0] == s[0]);
    }
}

/// The names of the headers differ in their first bytes and hold no line feed.
proof fn lemma_header_names()
    ensures
        lit("tree ").len() > 0 && lit("tree ")[0] == 116 && !lit("tree ").contains(10),
        lit("parent ").len() > 0 && lit("parent ")[0] == 112 && !lit("parent ").contains(10),
        lit("author ").len() > 0 && lit("author ")[0] == 97 && !lit("author ").contains(10),
        lit("committer ").len() > 0 && lit("committer ")[0] == 99 && !lit("committer ").contains(10),
{
    reveal_strlit("tree ");
    reveal_strlit("parent ");
    reveal_strlit("author ");
    reveal_strlit("committer ");
    lemma_lit("tree ");
    lemma_lit("parent ");
    lemma_lit("author ");
    lemma_lit("committer ");
}

proof fn lemma_hex_has_no_line_feed(b: Seq<u8>)
    ensures
        !to_hex(b).contains(10),
{
    assert forall|i: int| 0 <= i < to_hex(b).len() implies to_hex(b)[i] != 10 by {}
}

/// The lines of the parents are taken up.
proof fn lemma_parent_lines(parents: Seq<Seq<u8>>, rest: Seq<u8>, h: CommitHeaders)
    requires
        forall|i: int| 0 <= i < parents.len() ==> #[trigger] parents[i].len() == 20,
    ensures
        commit_headers(parent_lines(parents) + rest, h) == commit_headers(
            rest,
            (CommitHeaders { parents: h.parents + parents, ..h }),
        ),
    decreases parents.len(),
{
    if parents.len() == 0 {
        assert(parent_lines(parents) + rest =~= rest);
        assert(h.parents + parents =~= h.parents);
    } else {
        let hex = to_hex(parents[0]);
        let others = parents.skip(1);
        let line = header_line(lit("parent "), hex);
        assert(parent_lines(parents) + rest =~= line + (parent_lines(others) + rest));
        lemma_header_names();
        lemma_hex_has_no_line_feed(parents[0]);
        lemma_header_line(lit("parent "), hex, parent_lines(others) + rest, h);
        lemma_other_prefix(lit("parent ") + hex, lit("tree "));
        lemma_after_prefix(lit("parent "), hex);
        hex_round_trip(parents[0]);
        let g = CommitHeaders { parents: h.parents.push(parents[0]), ..h };
        assert forall|i: int| 0 <= i < others.len() implies #[trigger] others[i].len() == 20 by {
            assert(others[i] == parents[i + 1]);
        }
        lemma_parent_lines(others, rest, g);
        assert(g.parents + others =~= h.parents + parents);
    }
}

/// Parsing the body that was built for a commit gives its contents back. The least time of all has
/// no counterpart that is parsed.
pub proof fn commit_round_trip(c: CommitView)
    requires
        c.tree.len() == 20,
        forall|i: int| 0 <= i < c.parents.len() ==> #[trigger] c.parents[i].len() == 20,
        -i64::MAX <= c.author.time <= i64::MAX,
        -i64::MAX <= c.committer.time <= i64::MAX,
    ensures
        built_commit(c) matches Ok(body) ==> commit_view(body) == Ok::<_, Error>(c),
{
    if valid_sig(c.author) && valid_sig(c.committer) {
        let end = seq![10u8] + c.message;
        let l4 = header_line(lit("committer "), sig_bytes(c.committer)) + end;
        let l3 = header_line(lit("author "), sig_bytes(c.author)) + l4;
        let l2 = parent_lines(c.parents) + l3;
        let h0 = no_commit_headers();
        let h1 = CommitHeaders { tree: Some(c.tree), ..h0 };
        let h2 = CommitHeaders { parents: h1.parents + c.parents, ..h1 };
        let h3 = CommitHeaders { author: Some(c.author), ..h2 };
        let h4 = CommitHeaders { committer: Some(c.committer), ..h3 };
        lemma_header_names();
        lemma_hex_has_no_line_feed(c.tree);
        lemma_header_line(lit("tree "), to_hex(c.tree), l2, h0);
        lemma_after_prefix(lit("tree "), to_hex(c.tree));
        hex_round_trip(c.tree);
        lemma_parent_lines(c.parents, l3, h1);
        lemma_sig_round_trip(c.author);
        let a = lit("author ") + sig_bytes(c.author);
        lemma_header_line(lit("author "), sig_bytes(c.author), l4, h2);
        lemma_other_prefix(a, lit("tree "));
        lemma_other_prefix(a, lit("parent "));
        lemma_after_prefix(lit("author "), sig_bytes(c.author));
        lemma_sig_round_trip(c.committer);
        let b = lit("committer ") + sig_bytes(c.committer);
        lemma_header_line(lit("committer "), sig_bytes(c.committer), end, h3);
        lemma_other_prefix(b, lit("tree "));
        lemma_other_prefix(b, lit("parent "));
        lemma_other_prefix(b, lit("author "));
        lemma_after_prefix(lit("committer "), sig_bytes(c.committer));
        let none = Seq::<u8>::empty();
        lemma_cut(none, 10, c.message);
        assert(none.push(10) + c.message =~= end);
        assert(h4.parents =~= c.parents);
    }
}

proof fn lemma_first_entry(e: EntryView, rest: Seq<u8>)
    requires
        entry_error(e) is None,
        e.oid.len() == 20,
    ensures
        first_entry(entry_bytes(e) + rest) == Ok::<_, Error>((e, rest)),
{
    let tail = e.oid + rest;
    assert(!e.mode.contains(32));
    assert(entry_bytes(e) + rest =~= e.mode.push(32) + (e.name.push(0) + tail));
    lemma_cut(e.mode, 32, e.name.push(0) + tail);
    lemma_cut(e.name, 0, tail);
    assert(tail.take(20) =~= e.oid);
    assert(tail.skip(20) =~= rest);
}

proof fn lemma_tree_bytes(s: Seq<EntryView>)
    requires
        forall|i: int|
            0 <= i < s.len() ==> entry_error(#[trigger] s[i]) is None && s[i].oid.len() == 20,
    ensures
        tree_view(tree_bytes(s)) == Ok::<_, Error>(s),
    decreases s.len(),
{
    if s.len() > 0 {
        let others = s.skip(1);
        assert forall|i: int| 0 <= i < others.len() implies entry_error(#[trigger] others[i]) is None
            && others[i].oid.len() == 20 by {
            assert(others[i] == s[i + 1]);
        }
        lemma_tree_bytes(others);
        assert(entry_error(s[0]) is None);
        lemma_first_entry(s[0], tree_bytes(others));
        assert(seq![s[0]] + others =~= s);
    } else {
        assert(s =~= Seq::<EntryView>::empty());
    }
}

proof fn lemma_no_error(s: Seq<EntryView>, i: int)
    requires
        entries_error(s) is None,
        0 <= i < s.len(),
    ensures
        entry_error(s[i]) is None,
    decreases s.len(),
{
    if i > 0 {
        lemma_no_error(s.skip(1), i - 1);
        assert(s.skip(1)[i - 1] == s[i]);
    }
}

/// Parsing the body that was built for a tree gives its entries back, in the order of a tree.
pub proof fn tree_round_trip(entries: Seq<EntryView>)
    requires
        forall|i: int| 0 <= i < entries.len() ==> #[trigger] entries[i].oid.len() == 20,
    ensures
        built_tree(entries) matches Ok(body) ==> tree_view(body) == Ok::<_, Error>(sorted(entries)),
{
    let s = sorted(entries);
    if entries_error(entries) is None {
        lemma_sorted(entries);
        assert forall|i: int| 0 <= i < s.len() implies entry_error(#[trigger] s[i]) is None
            && s[i].oid.len() == 20 by {
            let e = s[i];
            assert(s.contains(e));
            lemma_sorted_contains(entries, e);
            let k = choose|k: int| 0 <= k < entries.len() && entries[k] == e;
            assert(entries[k].oid.len() == 20);
            lemma_no_error(entries, k);
        }
        lemma_tree_bytes(s);
    }
}

/// The entries of a tree that was built stand in the order of their keys.
pub proof fn tree_is_in_order(entries: Seq<EntryView>)
    ensures
        in_order(sorted(entries)),
        sorted(entries).to_multiset() == entries.to_multiset(),
{
    lemma_sorted(entries);
}

} // verus!
