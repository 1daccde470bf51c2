//! JSON for a browser: refs, histories, requests and the results of pushes.

use vstd::prelude::*;

use crate::bundle::{ref_list, Bundle};
use crate::bytes::text;
use crate::err::Result;
use crate::history::WalkedCommit;
use crate::log::{
    commit_at, lemma_listing_end, lemma_listing_start, listed, listing, name_view, next_listed,
    not_found_text, ref_not_found, start, starts, subject, subject_of, StartError,
};
use crate::object::{commit_view, oid_views, CommitView};
use crate::oid::{digit, hex_digit, hex_text, Oid};
use crate::protov0::{result_views, succeeded, PushReport, ReportView, ResultView};
use crate::text::{push_oid, push_signed, readable, readable_text, signed_text};
use crate::Odb;

verus! {

// --- strings -----------------------------------------------------------------------------------------------

/// A character inside a string.
pub open spec fn escaped_char(c: char) -> Seq<char> {
    if c == '"' {
        "\\\""@
    } else if c == '\\' {
        "\\\\"@
    } else if c == '\n' {
        "\\n"@
    } else if c == '\r' {
        "\\r"@
    } else if c == '\t' {
        "\\t"@
    } else if c as u32 <= 31 {
        "\\u00"@ + seq![hex_digit(c as int / 16) as char, hex_digit(c as int % 16) as char]
    } else {
        seq![c]
    }
}

/// A text inside a string.
pub open spec fn escaped(s: Seq<char>) -> Seq<char>
    decreases s.len(),
{
    if s.len() == 0 {
        Seq::empty()
    } else {
        escaped(s.drop_last()) + escaped_char(s.last())
    }
}

proof fn lemma_escaped_char(c: char)
    ensures
        forall|i: int| 0 <= i < escaped_char(c).len() ==> 32 <= #[trigger] escaped_char(c)[i] as int,
{
    reveal_strlit("\\\"");
    reveal_strlit("\\\\");
    reveal_strlit("\\n");
    reveal_strlit("\\r");
    reveal_strlit("\\t");
    reveal_strlit("\\u00");
    let s = escaped_char(c);
    assert forall|i: int| 0 <= i < s.len() implies 32 <= #[trigger] s[i] as int by {
        if c as u32 <= 31 && i >= 4 && s.len() == 6 {
            assert(s[4] == hex_digit(c as int / 16) as char);
            assert(s[5] == hex_digit(c as int % 16) as char);
        }
    }
}

/// No control character stands inside a string.
pub proof fn escaped_text_has_no_control_characters(s: Seq<char>)
    ensures
        forall|i: int| 0 <= i < escaped(s).len() ==> 32 <= #[trigger] escaped(s)[i] as int,
    decreases s.len(),
{
    if s.len() > 0 {
        escaped_text_has_no_control_characters(s.drop_last());
        lemma_escaped_char(s.last());
        let head = escaped(s.drop_last());
        let tail = escaped_char(s.last());
        assert forall|i: int| 0 <= i < escaped(s).len() implies 32 <= #[trigger] escaped(s)[i] as int by {
            if i < head.len() {
                assert(escaped(s)[i] == head[i]);
            } else {
                assert(escaped(s)[i] == tail[i - head.len()]);
            }
        }
    }
}

fn push_escaped_char(out: &mut String, c: char)
    ensures
        final(out)@ == old(out)@ + escaped_char(c),
{
    if c == '"' {
        out.append("\\\"");
    } else if c == '\\' {
        out.append("\\\\");
    } else if c == '\n' {
        out.append("\\n");
    } else if c == '\r' {
        out.append("\\r");
    } else if c == '\t' {
        out.append("\\t");
    } else if c as u32 <= 31 {
        let v: u8 = c as u8;
        out.append("\\u00");
        out.push(digit(v / 16) as char);
        out.push(digit(v % 16) as char);
        assert(out@ =~= old(out)@ + escaped_char(c));
    } else {
        out.push(c);
        assert(out@ =~= old(out)@ + escaped_char(c));
    }
}

/// Appends a text as it stands inside a string.
pub fn push_escaped(out: &mut String, s: &str)
    ensures
        final(out)@ == old(out)@ + escaped(s@),
{
    let ghost start = out@;
    assert(start + escaped(s@.take(0)) =~= start);
    for c in it: s.chars()
        invariant
            it.seq() == s@,
            out@ == start + escaped(s@.take(it.index() as int)),
    {
        let ghost before = out@;
        assert(s@.take(it.index() + 1).drop_last() =~= s@.take(it.index() as int));
        push_escaped_char(out, c);
        assert(out@ =~= start + escaped(s@.take(it.index() + 1)));
    }
    assert(s@.take(s@.len() as int) =~= s@);
}

/// Appends bytes as they stand inside a string; what is not UTF-8 is replaced.
pub fn json_escape_into(out: &mut String, bytes: &[u8])
    ensures
        final(out)@ == old(out)@ + escaped(readable_text(bytes@)),
{
    let s = readable(bytes);
    push_escaped(out, s.as_str());
}

/// Items with commas between them.
pub open spec fn joined(items: Seq<Seq<char>>) -> Seq<char>
    decreases items.len(),
{
    if items.len() == 0 {
        Seq::empty()
    } else if items.len() == 1 {
        items[0]
    } else {
        joined(items.drop_last()) + ","@ + items.last()
    }
}

/// One more item, behind a comma where it is not the first.
proof fn lemma_joined(items: Seq<Seq<char>>, item: Seq<char>)
    ensures
        joined(items.push(item)) == (if items.len() == 0 {
            item
        } else {
            joined(items) + ","@ + item
        }),
{
    assert(items.push(item).drop_last() =~= items);
}

// --- refs --------------------------------------------------------------------------------------------------

pub open spec fn ref_json(name: Seq<char>, oid: Seq<u8>) -> Seq<char> {
    "{\"name\":\""@ + escaped(name) + "\",\"oid\":\""@ + hex_text(oid) + "\"}"@
}

pub open spec fn refs_text(refs: Seq<(Seq<u8>, Seq<u8>)>) -> Seq<char> {
    "["@ + joined(refs.map_values(|r: (Seq<u8>, Seq<u8>)| ref_json(readable_text(r.0), r.1))) + "]"@
}

/// Appends a ref.
pub fn push_ref_json(out: &mut String, name: &str, oid: &Oid)
    ensures
        final(out)@ == old(out)@ + ref_json(name@, oid@),
{
    out.append("{\"name\":\"");
    push_escaped(out, name);
    out.append("\",\"oid\":\"");
    push_oid(out, oid);
    out.append("\"}");
    assert(out@ =~= old(out)@ + ref_json(name@, oid@));
}

/// The refs of a bundle as a list of names and ids.
pub fn refs_json(bundle: &Bundle<'_>) -> (r: String)
    ensures
        r@ == refs_text(ref_list(bundle.refs@)),
{
    let ghost all = ref_list(bundle.refs@);
    let ghost items = all.map_values(|r: (Seq<u8>, Seq<u8>)| ref_json(readable_text(r.0), r.1));
    let mut out = "[".to_owned();
    let mut i: usize = 0;
    assert(items.take(0) =~= Seq::<Seq<char>>::empty());
    assert(out@ =~= "["@ + joined(items.take(0)));
    while i < bundle.refs.len()
        invariant
            i <= bundle.refs@.len(),
            all == ref_list(bundle.refs@),
            items == all.map_values(|r: (Seq<u8>, Seq<u8>)| ref_json(readable_text(r.0), r.1)),
            out@ == "["@ + joined(items.take(i as int)),
        decreases bundle.refs.len() - i,
    {
        let ghost before = out@;
        if i > 0 {
            out.append(",");
        }
        let name = readable(bundle.refs[i].0);
        push_ref_json(&mut out, name.as_str(), &bundle.refs[i].1);
        proof {
            assert(all[i as int] == (bundle.refs@[i as int].0@, bundle.refs@[i as int].1@));
            assert(items.take(i + 1) =~= items.take(i as int).push(items[i as int]));
            lemma_joined(items.take(i as int), items[i as int]);
            assert(out@ =~= "["@ + joined(items.take(i + 1)));
        }
        i += 1;
    }
    assert(items.take(i as int) =~= items);
    out.append("]");
    out
}

// --- the log -----------------------------------------------------------------------------------------------

pub open spec fn quoted_ids(oids: Seq<Seq<u8>>) -> Seq<Seq<char>> {
    oids.map_values(|oid: Seq<u8>| "\""@ + hex_text(oid) + "\""@)
}

pub open spec fn commit_json(
    oid: Seq<u8>,
    time: int,
    tz: Seq<char>,
    author: Seq<char>,
    subject: Seq<char>,
    parents: Seq<Seq<u8>>,
) -> Seq<char> {
    "{\"oid\":\""@ + hex_text(oid) + "\",\"time\":"@ + signed_text(time) + ",\"tz\":\""@ + escaped(tz)
        + "\",\"author\":\""@ + escaped(author) + "\",\"subject\":\""@ + escaped(subject)
        + "\",\"parents\":["@ + joined(quoted_ids(parents)) + "]}"@
}

/// A commit as it is shown.
pub open spec fn entry_json(oid: Seq<u8>, c: CommitView) -> Seq<char> {
    commit_json(
        oid,
        c.committer.time,
        readable_text(c.committer.tz),
        readable_text(c.author.name),
        readable_text(subject_of(c.message)),
        c.parents,
    )
}

pub open spec fn entries_json<O: Odb>(odb: &O, list: Seq<Seq<u8>>) -> Seq<Seq<char>> {
    list.map_values(|oid: Seq<u8>| entry_json(oid, commit_at(odb, oid)))
}

/// Appends a commit.
pub fn push_commit_json(
    out: &mut String,
    oid: &Oid,
    time: i64,
    tz: &str,
    author: &str,
    subject: &str,
    parents: &[Oid],
)
    ensures
        final(out)@ == old(out)@ + commit_json(
            oid@,
            time as int,
            tz@,
            author@,
            subject@,
            oid_views(parents@),
        ),
{
    let ghost start = out@;
    out.append("{\"oid\":\"");
    push_oid(out, oid);
    out.append("\",\"time\":");
    push_signed(out, time);
    out.append(",\"tz\":\"");
    push_escaped(out, tz);
    out.append("\",\"author\":\"");
    push_escaped(out, author);
    out.append("\",\"subject\":\"");
    push_escaped(out, subject);
    out.append("\",\"parents\":[");
    let ghost head = out@;
    let ghost items = quoted_ids(oid_views(parents@));
    let mut i: usize = 0;
    assert(items.take(0) =~= Seq::<Seq<char>>::empty());
    assert(out@ =~= head + joined(items.take(0)));
    while i < parents.len()
        invariant
            i <= parents@.len(),
            items == quoted_ids(oid_views(parents@)),
            out@ == head + joined(items.take(i as int)),
        decreases parents.len() - i,
    {
        if i > 0 {
            out.append(",");
        }
        out.append("\"");
        push_oid(out, &parents[i]);
        out.append("\"");
        proof {
            assert(items[i as int] == "\""@ + hex_text(parents@[i as int]@) + "\""@);
            assert(items.take(i + 1) =~= items.take(i as int).push(items[i as int]));
            lemma_joined(items.take(i as int), items[i as int]);
            assert(out@ =~= head + joined(items.take(i + 1)));
        }
        i += 1;
    }
    assert(items.take(i as int) =~= items);
    out.append("]}");
    assert(out@ =~= start + commit_json(
        oid@,
        time as int,
        tz@,
        author@,
        subject@,
        oid_views(parents@),
    ));
}

/// Appends a commit that came up, behind a comma where one is wanted.
fn push_walked(out: &mut String, walked: &WalkedCommit, comma: bool) -> (r: Result<()>)
    ensures
        match commit_view(walked.raw@) {
            Ok(c) => r is Ok && final(out)@ == old(out)@ + (if comma {
                ","@ + entry_json(walked.oid@, c)
            } else {
                entry_json(walked.oid@, c)
            }),
            Err(e) => r == Err::<(), _>(e),
        },
{
    let commit = walked.commit()?;
    if comma {
        out.append(",");
    }
    let tz = readable(commit.committer.tz);
    let author = readable(commit.author.name);
    let line = readable(subject(commit.message));
    push_commit_json(
        out,
        &walked.oid,
        commit.committer.time,
        tz.as_str(),
        author.as_str(),
        line.as_str(),
        commit.parents.as_slice(),
    );
    proof {
        let entry = entry_json(walked.oid@, commit@);
        assert(old(out)@ + ","@ + entry =~= old(out)@ + (","@ + entry));
    }
    Ok(())
}

/// One more commit in a list.
proof fn lemma_entries<O: Odb>(odb: &O, list: Seq<Seq<u8>>, oid: Seq<u8>)
    ensures
        "["@ + joined(entries_json(odb, list.push(oid))) == "["@ + joined(entries_json(odb, list)) + (if list.len()
            == 0 {
            entry_json(oid, commit_at(odb, oid))
        } else {
            ","@ + entry_json(oid, commit_at(odb, oid))
        }),
{
    let items = entries_json(odb, list);
    let item = entry_json(oid, commit_at(odb, oid));
    assert(entries_json(odb, list.push(oid)) =~= items.push(item));
    lemma_joined(items, item);
    if list.len() == 0 {
        assert(joined(items) =~= Seq::<char>::empty());
        assert("["@ + item =~= "["@ + joined(items) + item);
    } else {
        assert("["@ + (joined(items) + ","@ + item) =~= "["@ + joined(items) + (","@ + item));
    }
}

/// The history of a bundle as a list of commits.
pub open spec fn log_text<O: Odb>(
    odb: &O,
    refs: Seq<(Seq<u8>, Seq<u8>)>,
    name: Option<Seq<u8>>,
    limit: nat,
) -> core::result::Result<Seq<char>, Seq<char>> {
    match starts(odb, refs, name) {
        Err(StartError::NoRef) => Err(not_found_text(readable_text(name->0))),
        Err(StartError::Refused(e)) => Err(e.text()),
        Ok(tips) => match listed(odb, tips, limit) {
            Err(e) => Err(e.text()),
            Ok(list) => Ok("["@ + joined(entries_json(odb, list)) + "]"@),
        },
    }
}

/// The history of a bundle: from the ref with the name or from all refs, `limit` commits at most.
pub fn log_json(bundle: &Bundle<'_>, name: Option<&[u8]>, limit: u32) -> (r: core::result::Result<
    String,
    String,
>)
    ensures
        match (r, log_text(&bundle.pack, ref_list(bundle.refs@), name_view(name), limit as nat)) {
            (Ok(out), Ok(text)) => out@ == text,
            (Err(e), Err(f)) => e@ == f,
            _ => false,
        },
{
    let mut walk = match start(bundle, name) {
        Ok(walk) => walk,
        Err(StartError::Refused(e)) => {
            return Err(e.message());
        },
        Err(StartError::NoRef) => {
            let shown = readable(
                match name {
                    Some(n) => n,
                    None => text(""),
                },
            );
            return Err(ref_not_found(shown.as_str()));
        },
    };
    let ghost odb = &bundle.pack;
    let ghost tips = walk@.tips;
    let ghost mut done = Seq::<Seq<u8>>::empty();
    let mut out = "[".to_owned();
    let mut n: u32 = 0;
    proof {
        lemma_listing_start(&walk, odb, tips, limit as nat);
        assert(entries_json(odb, done) =~= Seq::<Seq<char>>::empty());
        assert(out@ =~= "["@ + joined(entries_json(odb, done)));
    }
    while n < limit
        invariant
            n <= limit,
            odb == &bundle.pack,
            listing(&walk, odb, tips, limit as nat, done),
            done.len() == n,
            out@ == "["@ + joined(entries_json(odb, done)),
            starts(odb, ref_list(bundle.refs@), name_view(name)) == Ok::<_, StartError>(tips),
        decreases limit - n,
    {
        let walked = match next_listed(
            &mut walk,
            Ghost(odb),
            Ghost(tips),
            Ghost(limit as nat),
            Ghost(done),
        ) {
            None => {
                out.append("]");
                return Ok(out);
            },
            Some(Err(e)) => {
                return Err(e.message());
            },
            Some(Ok(walked)) => walked,
        };
        if let Err(e) = push_walked(&mut out, &walked, n > 0) {
            return Err(e.message());
        }
        proof {
            lemma_entries(odb, done, walked.oid@);
            done = done.push(walked.oid@);
        }
        n += 1;
    }
    proof {
        lemma_listing_end(&walk, odb, tips, limit as nat, done);
    }
    out.append("]");
    Ok(out)
}

// --- requests and results --------------------------------------------------------------------------------

/// A request without its body.
pub open spec fn request_text(next: Option<(Seq<char>, Seq<char>)>) -> Seq<char> {
    match next {
        None => "{\"done\":true}"@,
        Some((method, path)) => "{\"done\":false,\"method\":\""@ + method + "\",\"path\":\""@ + path
            + "\"}"@,
    }
}

/// The request to send, with its body put aside. A body is put aside for each request, and there is
/// none when nothing is left to send.
pub fn request_json(slot_body: &mut Vec<u8>, next: Option<(&str, &str, Vec<u8>)>) -> (r: String)
    ensures
        match next {
            None => r@ == request_text(None) && final(slot_body)@ == Seq::<u8>::empty(),
            Some((method, path, body)) => r@ == request_text(Some((method@, path@)))
                && final(slot_body)@ == body@,
        },
{
    match next {
        None => {
            *slot_body = Vec::new();
            "{\"done\":true}".to_owned()
        },
        Some((method, path, body)) => {
            *slot_body = body;
            let mut out = "{\"done\":false,\"method\":\"".to_owned();
            out.append(method);
            out.append("\",\"path\":\"");
            out.append(path);
            out.append("\"}");
            out
        },
    }
}

/// What became of one ref: its name, and the reason where it was not updated.
pub open spec fn ref_result_json(name: Seq<char>, reason: Option<Seq<char>>) -> Seq<char> {
    "{\"ref\":\""@ + escaped(name) + "\",\"error\":"@ + (match reason {
        None => "null"@,
        Some(text) => "\""@ + escaped(text) + "\""@,
    }) + "}"@
}

pub open spec fn ref_results(results: Seq<ResultView>) -> Seq<Seq<char>> {
    results.map_values(
        |e: ResultView|
            ref_result_json(
                readable_text(e.0),
                match e.1 {
                    Some(reason) => Some(readable_text(reason)),
                    None => None,
                },
            ),
    )
}

/// What became of a push. Without a report nothing was sent.
pub open spec fn report_text(report: Option<ReportView>) -> Seq<char> {
    match report {
        None => "{\"up_to_date\":true}"@,
        Some(report) => "{\"up_to_date\":false,\"success\":"@ + (if succeeded(report) {
            "true"@
        } else {
            "false"@
        }) + ",\"results\":["@ + joined(ref_results(report.results)) + "]}"@,
    }
}

/// Appends what became of one ref.
pub fn push_ref_result(out: &mut String, name: &str, reason: Option<&str>)
    ensures
        final(out)@ == old(out)@ + ref_result_json(
            name@,
            match reason {
                Some(text) => Some(text@),
                None => None,
            },
        ),
{
    let ghost start = out@;
    out.append("{\"ref\":\"");
    push_escaped(out, name);
    out.append("\",\"error\":");
    match reason {
        None => {
            out.append("null");
            out.append("}");
            assert(out@ =~= start + ref_result_json(name@, None));
        },
        Some(text) => {
            out.append("\"");
            push_escaped(out, text);
            out.append("\"");
            out.append("}");
            assert(out@ =~= start + ref_result_json(name@, Some(text@)));
        },
    }
}

/// What became of a push.
pub fn report_json(report: Option<&PushReport>) -> (r: String)
    ensures
        r@ == report_text(
            match report {
                Some(report) => Some(report@),
                None => None,
            },
        ),
{
    let report = match report {
        Some(report) => report,
        None => {
            return "{\"up_to_date\":true}".to_owned();
        },
    };
    let ghost all = report@.results;
    let ghost items = ref_results(all);
    let mut out = "{\"up_to_date\":false,\"success\":".to_owned();
    if report.is_success() {
        out.append("true");
    } else {
        out.append("false");
    }
    out.append(",\"results\":[");
    let ghost head = out@;
    let mut i: usize = 0;
    assert(items.take(0) =~= Seq::<Seq<char>>::empty());
    assert(out@ =~= head + joined(items.take(0)));
    while i < report.results.len()
        invariant
            i <= report.results@.len(),
            all == result_views(report.results@),
            items == ref_results(all),
            out@ == head + joined(items.take(i as int)),
        decreases report.results.len() - i,
    {
        if i > 0 {
            out.append(",");
        }
        let name = readable(report.results[i].0.as_slice());
        match &report.results[i].1 {
            None => {
                push_ref_result(&mut out, name.as_str(), None);
            },
            Some(reason) => {
                let text = readable(reason.as_slice());
                push_ref_result(&mut out, name.as_str(), Some(text.as_str()));
            },
        }
        proof {
            assert(items.take(i + 1) =~= items.take(i as int).push(items[i as int]));
            lemma_joined(items.take(i as int), items[i as int]);
            assert(out@ =~= head + joined(items.take(i + 1)));
        }
        i += 1;
    }
    assert(items.take(i as int) =~= items);
    out.append("]}");
    out
}

} // verus!
