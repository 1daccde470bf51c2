//! Commits and tags as they are written.

use vstd::prelude::*;

use crate::build::{lemma_sig_round_trip, sig_bytes, valid_sig};
use crate::bytes::{after_prefix, decimal, has_prefix, lemma_cut, lemma_lit, lit};
use crate::err::Error;
use crate::object::{
    commit_header, commit_headers, commit_view, no_commit_headers, no_tag_headers, sig_view, tag_header,
    tag_headers, tag_view, CommitHeaders, CommitView, Kind, SigView, TagHeaders, TagView,
};
use crate::oid::{hex_round_trip, to_hex};

verus! {

// --- texts ----------------------------------------------------------------------------------------------

/// Lines, each with a line feed at its end.
pub open spec fn lines_text(lines: Seq<Seq<u8>>) -> Seq<u8>
    decreases lines.len(),
{
    if lines.len() == 0 {
        Seq::empty()
    } else {
        lines[0] + seq![10u8] + lines_text(lines.skip(1))
    }
}

/// `name <email> time tz`, without the name and the space after it where the name is empty.
pub open spec fn signature_text(s: SigView) -> Seq<u8> {
    let time = if s.time < 0 {
        lit("-") + decimal((-s.time) as nat)
    } else {
        decimal(s.time as nat)
    };
    (if s.name.len() > 0 {
        s.name + lit(" ")
    } else {
        Seq::empty()
    }) + lit("<") + s.email + lit("> ") + time + lit(" ") + s.tz
}

/// A signature that can be told apart from what is around it. The least time of all has no
/// counterpart.
pub open spec fn is_signature(s: SigView) -> bool {
    &&& !s.name.contains(60) && !s.name.contains(62) && !s.name.contains(10)
    &&& !s.email.contains(60) && !s.email.contains(62) && !s.email.contains(10)
    &&& !s.tz.contains(10)
    &&& -i64::MAX <= s.time <= i64::MAX
}

/// The lines of a commit. Other headers may follow those that every commit has.
pub open spec fn commit_lines(c: CommitView, others: Seq<Seq<u8>>) -> Seq<Seq<u8>> {
    seq![lit("tree ") + to_hex(c.tree)] + c.parents.map_values(
        |p: Seq<u8>| lit("parent ") + to_hex(p),
    ) + seq![
        lit("author ") + signature_text(c.author),
        lit("committer ") + signature_text(c.committer),
    ] + others
}

pub open spec fn commit_text(c: CommitView, others: Seq<Seq<u8>>) -> Seq<u8> {
    lines_text(commit_lines(c, others)) + seq![10u8] + c.message
}

/// A header line that is none of those that are used.
pub open spec fn other_header(line: Seq<u8>) -> bool {
    &&& line.len() > 0 && !line.contains(10)
    &&& !has_prefix(line, lit("tree "))
    &&& !has_prefix(line, lit("parent "))
    &&& !has_prefix(line, lit("author "))
    &&& !has_prefix(line, lit("committer "))
}

/// A commit that can be written.
pub open spec fn is_commit(c: CommitView, others: Seq<Seq<u8>>) -> bool {
    &&& c.tree.len() == 20
    &&& forall|i: int| 0 <= i < c.parents.len() ==> #[trigger] c.parents[i].len() == 20
    &&& is_signature(c.author)
    &&& is_signature(c.committer)
    &&& forall|i: int| 0 <= i < others.len() ==> other_header(#[trigger] others[i])
}

/// The name of a kind.
pub open spec fn kind_text(kind: Kind) -> Seq<u8> {
    match kind {
        Kind::Commit => lit("commit"),
        Kind::Tree => lit("tree"),
        Kind::Blob => lit("blob"),
        Kind::Tag => lit("tag"),
    }
}

pub open spec fn tag_lines(t: TagView) -> Seq<Seq<u8>> {
    seq![
        lit("object ") + to_hex(t.object),
        lit("type ") + kind_text(t.kind),
        lit("tag ") + t.name,
    ] + (match t.tagger {
        Some(s) => seq![lit("tagger ") + signature_text(s)],
        None => Seq::empty(),
    })
}

pub open spec fn tag_text(t: TagView) -> Seq<u8> {
    lines_text(tag_lines(t)) + seq![10u8] + t.message
}

/// A tag that can be written.
pub open spec fn is_tag(t: TagView) -> bool {
    &&& t.object.len() == 20
    &&& !t.name.contains(10)
    &&& t.tagger matches Some(s) ==> is_signature(s)
}

// --- the proofs -----------------------------------------------------------------------------------------

proof fn lemma_signature(s: SigView)
    requires
        is_signature(s),
    ensures
        sig_view(signature_text(s)) == Ok::<_, Error>(s),
        !signature_text(s).contains(10),
{
    reveal_strlit(" ");
    reveal_strlit("-");
    reveal_strlit("<");
    reveal_strlit("> ");
    lemma_lit(" ");
    lemma_lit("-");
    lemma_lit("<");
    lemma_lit("> ");
    assert(lit("-") =~= seq![45u8]);
    assert(signature_text(s) =~= sig_bytes(s));
    assert(valid_sig(s)) by {
        assert forall|i: int| 0 <= i < s.name.len() implies #[trigger] s.name[i] != 60 && s.name[i] != 62
            && s.name[i] != 10 by {
            assert(s.name.contains(s.name[i]));
        }
        assert forall|i: int| 0 <= i < s.email.len() implies #[trigger] s.email[i] != 60 && s.email[i] != 62
            && s.email[i] != 10 by {
            assert(s.email.contains(s.email[i]));
        }
    }
    lemma_sig_round_trip(s);
}

proof fn lemma_prefix(p: Seq<u8>, v: Seq<u8>)
    ensures
        after_prefix(p + v, p) == Some(v),
{
    assert((p + v).take(p.len() as int) =~= p);
    assert((p + v).skip(p.len() as int) =~= v);
}

/// A string does not start with a prefix that has another byte somewhere.
proof fn lemma_no_prefix(s: Seq<u8>, p: Seq<u8>, i: int)
    requires
        0 <= i < p.len(),
        i < s.len(),
        s[i] != p[i],
    ensures
        after_prefix(s, p) is None,
{
    if p.len() <= s.len() {
        assert(s.take(p.len() as int)[i] == s[i]);
    }
}

proof fn lemma_no_line_feed(a: Seq<u8>, b: Seq<u8>)
    requires
        !a.contains(10),
        !b.contains(10),
    ensures
        !(a + b).contains(10),
{
    assert forall|i: int| 0 <= i < (a + b).len() implies (a + b)[i] != 10 by {
        if i < a.len() {
            assert(a.contains(a[i]));
        } else {
            assert(b.contains(b[i - a.len()]));
        }
    }
}

proof fn lemma_hex_line(b: Seq<u8>)
    ensures
        !to_hex(b).contains(10),
{
    assert forall|i: int| 0 <= i < to_hex(b).len() implies to_hex(b)[i] != 10 by {}
}

proof fn lemma_names()
    ensures
        lit("tree ") == seq![116u8, 114, 101, 101, 32],
        lit("parent ") == seq![112u8, 97, 114, 101, 110, 116, 32],
        lit("author ") == seq![97u8, 117, 116, 104, 111, 114, 32],
        lit("committer ") == seq![99u8, 111, 109, 109, 105, 116, 116, 101, 114, 32],
        lit("object ") == seq![111u8, 98, 106, 101, 99, 116, 32],
        lit("type ") == seq![116u8, 121, 112, 101, 32],
        lit("tag ") == seq![116u8, 97, 103, 32],
        lit("tagger ") == seq![116u8, 97, 103, 103, 101, 114, 32],
{
    reveal_strlit("tree ");
    reveal_strlit("parent ");
    reveal_strlit("author ");
    reveal_strlit("committer ");
    reveal_strlit("object ");
    reveal_strlit("type ");
    reveal_strlit("tag ");
    reveal_strlit("tagger ");
    lemma_lit("tree ");
    lemma_lit("parent ");
    lemma_lit("author ");
    lemma_lit("committer ");
    lemma_lit("object ");
    lemma_lit("type ");
    lemma_lit("tag ");
    lemma_lit("tagger ");
    assert(lit("tree ") =~= seq![116u8, 114, 101, 101, 32]);
    assert(lit("parent ") =~= seq![112u8, 97, 114, 101, 110, 116, 32]);
    assert(lit("author ") =~= seq![97u8, 117, 116, 104, 111, 114, 32]);
    assert(lit("committer ") =~= seq![99u8, 111, 109, 109, 105, 116, 116, 101, 114, 32]);
    assert(lit("object ") =~= seq![111u8, 98, 106, 101, 99, 116, 32]);
    assert(lit("type ") =~= seq![116u8, 121, 112, 101, 32]);
    assert(lit("tag ") =~= seq![116u8, 97, 103, 32]);
    assert(lit("tagger ") =~= seq![116u8, 97, 103, 103, 101, 114, 32]);
}

/// The first of some lines is taken up.
proof fn lemma_commit_line(lines: Seq<Seq<u8>>, rest: Seq<u8>, h: CommitHeaders)
    requires
        lines.len() > 0,
        lines[0].len() > 0,
        !lines[0].contains(10),
    ensures
        commit_headers(lines_text(lines) + rest, h) == (match commit_header(h, lines[0]) {
            Ok(g) => commit_headers(lines_text(lines.skip(1)) + rest, g),
            Err(e) => Err(e),
        }),
{
    let after = lines_text(lines.skip(1)) + rest;
    lemma_cut(lines[0], 10, after);
    assert(lines_text(lines) + rest =~= lines[0].push(10) + after);
}

proof fn lemma_tag_line(lines: Seq<Seq<u8>>, rest: Seq<u8>, h: TagHeaders)
    requires
        lines.len() > 0,
        lines[0].len() > 0,
        !lines[0].contains(10),
    ensures
        tag_headers(lines_text(lines) + rest, h) == (match tag_header(h, lines[0]) {
            Ok(g) => tag_headers(lines_text(lines.skip(1)) + rest, g),
            Err(e) => Err(e),
        }),
{
    let after = lines_text(lines.skip(1)) + rest;
    lemma_cut(lines[0], 10, after);
    assert(lines_text(lines) + rest =~= lines[0].push(10) + after);
}

proof fn lemma_others(lines: Seq<Seq<u8>>, rest: Seq<u8>, h: CommitHeaders)
    requires
        forall|i: int| 0 <= i < lines.len() ==> other_header(#[trigger] lines[i]),
    ensures
        commit_headers(lines_text(lines) + rest, h) == commit_headers(rest, h),
    decreases lines.len(),
{
    if lines.len() == 0 {
        assert(lines_text(lines) + rest =~= rest);
    } else {
        assert(other_header(lines[0]));
        lemma_commit_line(lines, rest, h);
        let more = lines.skip(1);
        assert forall|i: int| 0 <= i < more.len() implies other_header(#[trigger] more[i]) by {
            assert(more[i] == lines[i + 1]);
        }
        lemma_others(more, rest, h);
    }
}

/// The lines of the parents, with others behind them.
proof fn lemma_parents(parents: Seq<Seq<u8>>, more: Seq<Seq<u8>>, rest: Seq<u8>, h: CommitHeaders)
    requires
        forall|i: int| 0 <= i < parents.len() ==> #[trigger] parents[i].len() == 20,
    ensures
        commit_headers(
            lines_text(parents.map_values(|p: Seq<u8>| lit("parent ") + to_hex(p)) + more) + rest,
            h,
        ) == commit_headers(
            lines_text(more) + rest,
            (CommitHeaders { parents: h.parents + parents, ..h }),
        ),
    decreases parents.len(),
{
    let lines = parents.map_values(|p: Seq<u8>| lit("parent ") + to_hex(p)) + more;
    if parents.len() == 0 {
        assert(lines =~= more);
        assert(h.parents + parents =~= h.parents);
    } else {
        let others = parents.skip(1);
        let hex = to_hex(parents[0]);
        let line = lit("parent ") + hex;
        lemma_names();
        assert(lines[0] == line);
        assert(!lit("parent ").contains(10));
        lemma_hex_line(parents[0]);
        lemma_no_line_feed(lit("parent "), hex);
        lemma_commit_line(lines, rest, h);
        lemma_no_prefix(line, lit("tree "), 0);
        lemma_prefix(lit("parent "), hex);
        hex_round_trip(parents[0]);
        let g = CommitHeaders { parents: h.parents.push(parents[0]), ..h };
        assert(commit_header(h, line) == Ok::<_, Error>(g));
        assert(lines.skip(1) =~= others.map_values(|p: Seq<u8>| lit("parent ") + to_hex(p)) + more);
        assert forall|i: int| 0 <= i < others.len() implies #[trigger] others[i].len() == 20 by {
            assert(others[i] == parents[i + 1]);
        }
        lemma_parents(others, more, rest, g);
        assert(g.parents + others =~= h.parents + parents);
    }
}

/// A commit is read as it is written, whatever other headers it has: the line of the tree, one line
/// for each parent in their order, the lines of the author and of the committer, and the message
/// behind the first empty line.
pub proof fn commits_are_read_as_written(c: CommitView, others: Seq<Seq<u8>>)
    requires
        is_commit(c, others),
    ensures
        commit_view(commit_text(c, others)) == Ok::<_, Error>(c),
{
    lemma_names();
    let rest = seq![10u8] + c.message;
    let author = lit("author ") + signature_text(c.author);
    let committer = lit("committer ") + signature_text(c.committer);
    let tree = lit("tree ") + to_hex(c.tree);
    let parents = c.parents.map_values(|p: Seq<u8>| lit("parent ") + to_hex(p));
    let l4 = others;
    let l3 = seq![committer] + l4;
    let l2 = seq![author] + l3;
    let l1 = parents + l2;
    let l0 = seq![tree] + l1;
    assert(commit_lines(c, others) =~= l0);
    assert(commit_text(c, others) =~= lines_text(l0) + rest);
    assert(l0.skip(1) =~= l1);
    assert(l2.skip(1) =~= l3);
    assert(l3.skip(1) =~= l4);
    let h0 = no_commit_headers();
    let h1 = CommitHeaders { tree: Some(c.tree), ..h0 };
    let h2 = CommitHeaders { parents: h1.parents + c.parents, ..h1 };
    let h3 = CommitHeaders { author: Some(c.author), ..h2 };
    let h4 = CommitHeaders { committer: Some(c.committer), ..h3 };
    assert(!lit("tree ").contains(10) && !lit("author ").contains(10) && !lit("committer ").contains(10));
    lemma_hex_line(c.tree);
    lemma_no_line_feed(lit("tree "), to_hex(c.tree));
    lemma_commit_line(l0, rest, h0);
    lemma_prefix(lit("tree "), to_hex(c.tree));
    hex_round_trip(c.tree);
    lemma_parents(c.parents, l2, rest, h1);
    lemma_signature(c.author);
    lemma_no_line_feed(lit("author "), signature_text(c.author));
    lemma_commit_line(l2, rest, h2);
    lemma_no_prefix(author, lit("tree "), 0);
    lemma_no_prefix(author, lit("parent "), 0);
    lemma_prefix(lit("author "), signature_text(c.author));
    lemma_signature(c.committer);
    lemma_no_line_feed(lit("committer "), signature_text(c.committer));
    lemma_commit_line(l3, rest, h3);
    lemma_no_prefix(committer, lit("tree "), 0);
    lemma_no_prefix(committer, lit("parent "), 0);
    lemma_no_prefix(committer, lit("author "), 0);
    lemma_prefix(lit("committer "), signature_text(c.committer));
    lemma_others(l4, rest, h4);
    let none = Seq::<u8>::empty();
    lemma_cut(none, 10, c.message);
    assert(none.push(10) + c.message =~= rest);
    assert(h4.parents =~= c.parents);
}

/// A tag is read as it is written.
pub proof fn tags_are_read_as_written(t: TagView)
    requires
        is_tag(t),
    ensures
        tag_view(tag_text(t)) == Ok::<_, Error>(t),
{
    lemma_names();
    reveal_strlit("commit");
    reveal_strlit("tree");
    reveal_strlit("blob");
    reveal_strlit("tag");
    lemma_lit("commit");
    lemma_lit("tree");
    lemma_lit("blob");
    lemma_lit("tag");
    let rest = seq![10u8] + t.message;
    let kind = kind_text(t.kind);
    assert(kind[0] != lit("tag")[0] || kind[1] == 97 || kind[1] == 114);
    assert(lit("commit").len() == 6 && lit("tree").len() == 4 && lit("blob").len() == 4 && lit("tag").len() == 3);
    let object = lit("object ") + to_hex(t.object);
    let line_kind = lit("type ") + kind;
    let line_name = lit("tag ") + t.name;
    let last: Seq<Seq<u8>> = match t.tagger {
        Some(s) => seq![lit("tagger ") + signature_text(s)],
        None => Seq::empty(),
    };
    let l2 = seq![line_name] + last;
    let l1 = seq![line_kind] + l2;
    let l0 = seq![object] + l1;
    assert(tag_lines(t) =~= l0);
    assert(tag_text(t) =~= lines_text(l0) + rest);
    assert(l0.skip(1) =~= l1);
    assert(l1.skip(1) =~= l2);
    assert(l2.skip(1) =~= last);
    let h0 = no_tag_headers();
    let h1 = TagHeaders { object: Some(t.object), ..h0 };
    let h2 = TagHeaders { kind: Some(t.kind), ..h1 };
    let h3 = TagHeaders { name: Some(t.name), ..h2 };
    assert(!lit("object ").contains(10) && !lit("type ").contains(10) && !lit("tag ").contains(10) && !lit(
        "tagger ",
    ).contains(10));
    assert(!kind.contains(10));
    lemma_hex_line(t.object);
    lemma_no_line_feed(lit("object "), to_hex(t.object));
    lemma_tag_line(l0, rest, h0);
    lemma_prefix(lit("object "), to_hex(t.object));
    hex_round_trip(t.object);
    lemma_no_line_feed(lit("type "), kind);
    lemma_tag_line(l1, rest, h1);
    lemma_no_prefix(line_kind, lit("object "), 0);
    lemma_prefix(lit("type "), kind);
    lemma_no_line_feed(lit("tag "), t.name);
    lemma_tag_line(l2, rest, h2);
    lemma_no_prefix(line_name, lit("object "), 0);
    lemma_no_prefix(line_name, lit("type "), 1);
    lemma_prefix(lit("tag "), t.name);
    let none = Seq::<u8>::empty();
    lemma_cut(none, 10, t.message);
    assert(none.push(10) + t.message =~= rest);
    match t.tagger {
        Some(s) => {
            let line = lit("tagger ") + signature_text(s);
            lemma_signature(s);
            lemma_no_line_feed(lit("tagger "), signature_text(s));
            lemma_tag_line(last, rest, h3);
            lemma_no_prefix(line, lit("object "), 0);
            lemma_no_prefix(line, lit("type "), 1);
            lemma_no_prefix(line, lit("tag "), 3);
            lemma_prefix(lit("tagger "), signature_text(s));
            assert(last.skip(1) =~= Seq::<Seq<u8>>::empty());
            assert(lines_text(last.skip(1)) + rest =~= rest);
        },
        None => {
            assert(lines_text(last) + rest =~= rest);
        },
    }
}

} // verus!
