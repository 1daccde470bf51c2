//! JSON documents from the side of the one who reads them.

use vstd::prelude::*;

use crate::json::{
    commit_json, entries_json, entry_json, escaped, escaped_char, joined, quoted_ids, ref_json, ref_result_json, ref_results,
    refs_text, report_text,
};
use crate::log::{commit_at, subject_of};
use crate::object::CommitView;
use crate::oid::hex_text;
use crate::protov0::{ReportView, ResultView};
use crate::text::{
    cut_first, decimal_text, lemma_cut_first, lemma_decimal_text, readable_text, signed_text,
};
use crate::Odb;

use super::strings::{string_read, strings_are_read_as_written};

verus! {

// --- reading --------------------------------------------------------------------------------------------

/// What follows a text that has to stand there.
pub open spec fn expected(s: Seq<char>, p: Seq<char>) -> Option<Seq<char>> {
    if p.len() <= s.len() && s.take(p.len() as int) == p {
        Some(s.skip(p.len() as int))
    } else {
        None
    }
}

/// A string behind a text that has to stand there: what is in it and what follows it.
pub open spec fn string_after(s: Seq<char>, p: Seq<char>) -> Option<(Seq<char>, Seq<char>)> {
    match expected(s, p) {
        None => None,
        Some(rest) => string_read(rest),
    }
}

/// Items with commas between them up to a closing bracket, `n` at most: the items and what follows.
pub open spec fn items_read<T>(
    s: Seq<char>,
    item: spec_fn(Seq<char>) -> Option<(T, Seq<char>)>,
    n: nat,
) -> Option<(Seq<T>, Seq<char>)>
    decreases n,
{
    if n == 0 {
        None
    } else {
        match item(s) {
            None => None,
            Some((x, rest)) => if rest.len() == 0 {
                None
            } else if rest[0] == ']' {
                Some((seq![x], rest.skip(1)))
            } else if rest[0] == ',' {
                match items_read(rest.skip(1), item, (n - 1) as nat) {
                    None => None,
                    Some((more, after)) => Some((seq![x] + more, after)),
                }
            } else {
                None
            },
        }
    }
}

/// A list without its opening bracket: its items and what follows.
pub open spec fn list_read<T>(s: Seq<char>, item: spec_fn(Seq<char>) -> Option<(T, Seq<char>)>) -> Option<
    (Seq<T>, Seq<char>),
> {
    if s.len() > 0 && s[0] == ']' {
        Some((Seq::empty(), s.skip(1)))
    } else {
        items_read(s, item, s.len())
    }
}

/// The text of an item is read as the item, whatever follows it.
pub open spec fn reads<T>(
    item: spec_fn(Seq<char>) -> Option<(T, Seq<char>)>,
    text: Seq<char>,
    x: T,
) -> bool {
    text.len() > 0 && text[0] != ']' && forall|rest: Seq<char>| #[trigger] item(text + rest) == Some((x, rest))
}

proof fn lemma_joined_first(items: Seq<Seq<char>>)
    requires
        items.len() > 1,
    ensures
        joined(items) == items[0] + seq![','] + joined(items.skip(1)),
    decreases items.len(),
{
    reveal_strlit(",");
    assert(","@ =~= seq![',']);
    let rest = items.skip(1);
    if items.len() == 2 {
        let front = items.drop_last();
        assert(front.len() == 1 && front[0] == items[0]);
        assert(joined(front) == items[0]);
        assert(rest.len() == 1 && rest[0] == items[1]);
        assert(joined(rest) == items[1]);
    } else {
        lemma_joined_first(items.drop_last());
        assert(items.drop_last().skip(1) =~= rest.drop_last());
        assert(items.drop_last()[0] == items[0]);
        assert(rest.last() == items.last());
        assert(joined(rest) == joined(rest.drop_last()) + ","@ + items.last());
        assert(joined(items) =~= items[0] + seq![','] + joined(rest));
    }
}

proof fn lemma_items<T>(
    item: spec_fn(Seq<char>) -> Option<(T, Seq<char>)>,
    texts: Seq<Seq<char>>,
    xs: Seq<T>,
    rest: Seq<char>,
    n: nat,
)
    requires
        texts.len() == xs.len(),
        0 < texts.len() <= n,
        forall|i: int| 0 <= i < texts.len() ==> reads(item, #[trigger] texts[i], xs[i]),
    ensures
        items_read(joined(texts) + seq![']'] + rest, item, n) == Some((xs, rest)),
    decreases texts.len(),
{
    let s = joined(texts) + seq![']'] + rest;
    assert(reads(item, texts[0], xs[0]));
    if texts.len() == 1 {
        let after = seq![']'] + rest;
        assert(joined(texts) == texts[0]);
        assert(s =~= texts[0] + after);
        assert(item(texts[0] + after) == Some((xs[0], after)));
        assert(after.skip(1) =~= rest);
        assert(seq![xs[0]] =~= xs);
    } else {
        let more = texts.skip(1);
        let ys = xs.skip(1);
        let tail = joined(more) + seq![']'] + rest;
        let after = seq![','] + tail;
        lemma_joined_first(texts);
        assert(s =~= texts[0] + after);
        assert(item(texts[0] + after) == Some((xs[0], after)));
        assert(after.skip(1) =~= tail);
        assert forall|i: int| 0 <= i < more.len() implies reads(item, #[trigger] more[i], ys[i]) by {
            assert(more[i] == texts[i + 1]);
            assert(ys[i] == xs[i + 1]);
        }
        lemma_items(item, more, ys, rest, (n - 1) as nat);
        assert(seq![xs[0]] + ys =~= xs);
    }
}

proof fn lemma_joined_len(texts: Seq<Seq<char>>)
    requires
        texts.len() > 0,
        forall|i: int| 0 <= i < texts.len() ==> (#[trigger] texts[i]).len() > 0,
    ensures
        joined(texts).len() >= texts.len(),
        joined(texts)[0] == texts[0][0],
    decreases texts.len(),
{
    if texts.len() > 1 {
        let more = texts.skip(1);
        assert forall|i: int| 0 <= i < more.len() implies (#[trigger] more[i]).len() > 0 by {
            assert(more[i] == texts[i + 1]);
        }
        lemma_joined_len(more);
        lemma_joined_first(texts);
        assert(texts[0].len() > 0);
    } else {
        assert(joined(texts) == texts[0]);
        assert(texts[0].len() > 0);
    }
}

/// A list is read as its items, whatever follows it.
proof fn lemma_list<T>(
    item: spec_fn(Seq<char>) -> Option<(T, Seq<char>)>,
    texts: Seq<Seq<char>>,
    xs: Seq<T>,
    rest: Seq<char>,
)
    requires
        texts.len() == xs.len(),
        forall|i: int| 0 <= i < texts.len() ==> reads(item, #[trigger] texts[i], xs[i]),
    ensures
        list_read(joined(texts) + seq![']'] + rest, item) == Some((xs, rest)),
{
    let s = joined(texts) + seq![']'] + rest;
    if texts.len() == 0 {
        assert(s =~= seq![']'] + rest);
        assert(s.skip(1) =~= rest);
        assert(xs =~= Seq::<T>::empty());
    } else {
        assert forall|i: int| 0 <= i < texts.len() implies (#[trigger] texts[i]).len() > 0 by {
            assert(reads(item, texts[i], xs[i]));
        }
        assert(reads(item, texts[0], xs[0]));
        lemma_joined_len(texts);
        lemma_items(item, texts, xs, rest, s.len());
    }
}

proof fn lemma_plain_char(c: char)
    requires
        32 <= c as int,
        c != '"' && c != '\\',
    ensures
        escaped_char(c) == seq![c],
{
    assert(c != '\n' && c != '\r' && c != '\t');
}

/// Letters and digits stand for themselves in a string.
proof fn lemma_plain(s: Seq<char>)
    requires
        forall|i: int| 0 <= i < s.len() ==> {
            let c = #[trigger] s[i];
            32 <= c as int && c != '"' && c != '\\'
        },
    ensures
        escaped(s) == s,
    decreases s.len(),
{
    if s.len() > 0 {
        lemma_plain(s.drop_last());
        let c = s[s.len() - 1];
        assert(s.last() == c && 32 <= c as int);
        lemma_plain_char(c);
        assert(s.drop_last() + seq![s.last()] =~= s);
    } else {
        assert(s =~= Seq::<char>::empty());
    }
}

proof fn lemma_hex_text(oid: Seq<u8>)
    ensures
        escaped(hex_text(oid)) == hex_text(oid),
{
    let s = hex_text(oid);
    assert forall|i: int| 0 <= i < s.len() implies {
        let c = #[trigger] s[i];
        32 <= c as int && c != '"' && c != '\\'
    } by {}
    lemma_plain(s);
}

/// A string behind what has to stand there.
proof fn lemma_string_after(p: Seq<char>, text: Seq<char>, rest: Seq<char>)
    ensures
        string_after(p + escaped(text) + (seq!['"'] + rest), p) == Some((text, rest)),
{
    let s = p + escaped(text) + (seq!['"'] + rest);
    assert(s.take(p.len() as int) =~= p);
    assert(s.skip(p.len() as int) =~= escaped(text) + seq!['"'] + rest);
    strings_are_read_as_written(text, rest);
}

proof fn lemma_expected(p: Seq<char>, rest: Seq<char>)
    ensures
        expected(p + rest, p) == Some(rest),
{
    assert((p + rest).take(p.len() as int) =~= p);
    assert((p + rest).skip(p.len() as int) =~= rest);
}

// --- refs -----------------------------------------------------------------------------------------------

/// A ref as a reader takes it: its name and its id.
pub open spec fn ref_read(s: Seq<char>) -> Option<((Seq<char>, Seq<char>), Seq<char>)> {
    match string_after(s, "{\"name\":\""@) {
        None => None,
        Some((name, a)) => match string_after(a, ",\"oid\":\""@) {
            None => None,
            Some((oid, b)) => match expected(b, "}"@) {
                None => None,
                Some(rest) => Some(((name, oid), rest)),
            },
        },
    }
}

proof fn lemma_ref(name: Seq<char>, oid: Seq<u8>, rest: Seq<char>)
    ensures
        ref_read(ref_json(name, oid) + rest) == Some(((name, hex_text(oid)), rest)),
{
    reveal_strlit("\",\"oid\":\"");
    reveal_strlit(",\"oid\":\"");
    reveal_strlit("\"}");
    reveal_strlit("}");
    let quote = seq!['"'];
    assert("\",\"oid\":\""@ =~= quote + ",\"oid\":\""@);
    assert("\"}"@ =~= quote + "}"@);
    let end = "}"@ + rest;
    let middle = ",\"oid\":\""@ + hex_text(oid) + (quote + end);
    let all = "{\"name\":\""@ + escaped(name) + (quote + middle);
    assert(ref_json(name, oid) + rest =~= all);
    lemma_hex_text(oid);
    lemma_string_after("{\"name\":\""@, name, middle);
    lemma_string_after(",\"oid\":\""@, hex_text(oid), end);
    lemma_expected("}"@, rest);
}

proof fn lemma_ref_start(name: Seq<char>, oid: Seq<u8>)
    ensures
        ref_json(name, oid).len() > 0,
        ref_json(name, oid)[0] == '{',
{
    reveal_strlit("{\"name\":\"");
}

/// A reader of a list of refs finds all of them in their order, each with its name and its id.
pub proof fn refs_can_be_read(refs: Seq<(Seq<u8>, Seq<u8>)>)
    ensures
        expected(refs_text(refs), "["@) matches Some(s) && list_read(s, |s: Seq<char>| ref_read(s)) == Some(
            (
                refs.map_values(|r: (Seq<u8>, Seq<u8>)| (readable_text(r.0), hex_text(r.1))),
                Seq::<char>::empty(),
            ),
        ),
{
    let item = |s: Seq<char>| ref_read(s);
    let texts = refs.map_values(|r: (Seq<u8>, Seq<u8>)| ref_json(readable_text(r.0), r.1));
    let xs = refs.map_values(|r: (Seq<u8>, Seq<u8>)| (readable_text(r.0), hex_text(r.1)));
    let none = Seq::<char>::empty();
    assert forall|i: int| 0 <= i < texts.len() implies reads(item, #[trigger] texts[i], xs[i]) by {
        let (name, oid) = refs[i];
        lemma_ref_start(readable_text(name), oid);
        assert forall|rest: Seq<char>| #[trigger] item(texts[i] + rest) == Some((xs[i], rest)) by {
            lemma_ref(readable_text(name), oid, rest);
        }
    }
    lemma_list(item, texts, xs, none);
    reveal_strlit("]");
    assert("]"@ =~= seq![']']);
    let tail = joined(texts) + seq![']'] + none;
    assert(refs_text(refs) =~= "["@ + tail);
    lemma_expected("["@, tail);
}

// --- results --------------------------------------------------------------------------------------------

/// What became of a ref as a reader takes it: its name, and what went wrong.
pub open spec fn result_read(s: Seq<char>) -> Option<((Seq<char>, Option<Seq<char>>), Seq<char>)> {
    match string_after(s, "{\"ref\":\""@) {
        None => None,
        Some((name, a)) => match expected(a, ",\"error\":null}"@) {
            Some(rest) => Some(((name, None), rest)),
            None => match string_after(a, ",\"error\":\""@) {
                None => None,
                Some((reason, b)) => match expected(b, "}"@) {
                    None => None,
                    Some(rest) => Some(((name, Some(reason)), rest)),
                },
            },
        },
    }
}

proof fn lemma_result(name: Seq<char>, reason: Option<Seq<char>>, rest: Seq<char>)
    ensures
        result_read(ref_result_json(name, reason) + rest) == Some(((name, reason), rest)),
        ref_result_json(name, reason).len() > 0,
        ref_result_json(name, reason)[0] == '{',
{
    reveal_strlit("{\"ref\":\"");
    reveal_strlit("\",\"error\":");
    reveal_strlit(",\"error\":null}");
    reveal_strlit(",\"error\":\"");
    reveal_strlit("null");
    reveal_strlit("\"");
    reveal_strlit("}");
    let quote = seq!['"'];
    let start = "{\"ref\":\""@;
    match reason {
        None => {
            let middle = ",\"error\":null}"@ + rest;
            let all = start + escaped(name) + (quote + middle);
            assert(ref_result_json(name, reason) + rest =~= all);
            lemma_string_after(start, name, middle);
            lemma_expected(",\"error\":null}"@, rest);
        },
        Some(text) => {
            let end = "}"@ + rest;
            let middle = ",\"error\":\""@ + escaped(text) + (quote + end);
            let all = start + escaped(name) + (quote + middle);
            assert(ref_result_json(name, reason) + rest =~= all);
            lemma_string_after(start, name, middle);
            lemma_string_after(",\"error\":\""@, text, end);
            lemma_expected("}"@, rest);
            let other = ",\"error\":null}"@;
            assert(middle[9] == '"');
            assert(other[9] == 'n');
            if other.len() <= middle.len() {
                assert(middle.take(other.len() as int)[9] == middle[9]);
            }
        },
    }
}

/// What is shown of a result.
pub open spec fn shown_result(r: ResultView) -> (Seq<char>, Option<Seq<char>>) {
    (
        readable_text(r.0),
        match r.1 {
            Some(reason) => Some(readable_text(reason)),
            None => None,
        },
    )
}

/// What a report starts with.
pub open spec fn report_start(report: ReportView) -> Seq<char> {
    if report.unpack_ok && forall|i: int|
        0 <= i < report.results.len() ==> (#[trigger] report.results[i]).1 is None {
        "{\"up_to_date\":false,\"success\":true,\"results\":["@
    } else {
        "{\"up_to_date\":false,\"success\":false,\"results\":["@
    }
}

proof fn lemma_report_start()
    ensures
        "{\"up_to_date\":false,\"success\":"@ + "true"@ + ",\"results\":["@
            == "{\"up_to_date\":false,\"success\":true,\"results\":["@,
        "{\"up_to_date\":false,\"success\":"@ + "false"@ + ",\"results\":["@
            == "{\"up_to_date\":false,\"success\":false,\"results\":["@,
{
    reveal_strlit("true");
    reveal_strlit("false");
    reveal_strlit(",\"results\":[");
    reveal_strlit("{\"up_to_date\":false,\"success\":");
    reveal_strlit("{\"up_to_date\":false,\"success\":true,\"results\":[");
    reveal_strlit("{\"up_to_date\":false,\"success\":false,\"results\":[");
    let head = "{\"up_to_date\":false,\"success\":"@;
    assert(head + "true"@ + ",\"results\":["@
        =~= "{\"up_to_date\":false,\"success\":true,\"results\":["@);
    assert(head + "false"@ + ",\"results\":["@
        =~= "{\"up_to_date\":false,\"success\":false,\"results\":["@);
}

proof fn lemma_report_text(report: ReportView)
    ensures
        report_text(Some(report)) == report_start(report) + (joined(ref_results(report.results)) + seq![']']
            + "}"@),
{
    lemma_report_start();
    lemma_literals();
    let texts = joined(ref_results(report.results));
    let start = report_start(report);
    assert(report_text(Some(report)) == start + texts + "]}"@);
    assert(start + texts + (seq![']'] + "}"@) =~= start + (texts + seq![']'] + "}"@));
}

/// A reader of a report on a push finds whether all of it went well, and the results of all refs in
/// their order.
pub proof fn reports_can_be_read(report: ReportView)
    ensures
        expected(report_text(Some(report)), report_start(report)) matches Some(s) && list_read(
            s,
            |s: Seq<char>| result_read(s),
        ) == Some((report.results.map_values(|r: ResultView| shown_result(r)), "}"@)),
        report_text(None) == "{\"up_to_date\":true}"@,
{
    let item = |s: Seq<char>| result_read(s);
    let texts = ref_results(report.results);
    let xs = report.results.map_values(|r: ResultView| shown_result(r));
    assert forall|i: int| 0 <= i < texts.len() implies reads(item, #[trigger] texts[i], xs[i]) by {
        let (name, reason) = xs[i];
        assert(texts[i] == ref_result_json(name, reason));
        assert forall|rest: Seq<char>| #[trigger] item(texts[i] + rest) == Some((xs[i], rest)) by {
            lemma_result(name, reason, rest);
        }
        lemma_result(name, reason, Seq::empty());
    }
    lemma_list(item, texts, xs, "}"@);
    let tail = joined(texts) + seq![']'] + "}"@;
    lemma_report_text(report);
    lemma_expected(report_start(report), tail);
}

// --- commits --------------------------------------------------------------------------------------------

/// A commit as a reader takes it.
pub struct Shown {
    pub oid: Seq<char>,
    pub time: Seq<char>,
    pub tz: Seq<char>,
    pub author: Seq<char>,
    pub subject: Seq<char>,
    pub parents: Seq<Seq<char>>,
}

/// A string between quotation marks.
pub open spec fn quoted_read(s: Seq<char>) -> Option<(Seq<char>, Seq<char>)> {
    string_after(s, seq!['"'])
}

/// The number that stands up to a comma.
pub open spec fn number_after(s: Seq<char>, p: Seq<char>) -> Option<(Seq<char>, Seq<char>)> {
    match expected(s, p) {
        None => None,
        Some(rest) => cut_first(rest, ','),
    }
}

/// The list of the parents, and what follows it.
pub open spec fn parents_read(s: Seq<char>) -> Option<(Seq<Seq<char>>, Seq<char>)> {
    match expected(s, ",\"parents\":["@) {
        None => None,
        Some(rest) => list_read(rest, |s: Seq<char>| quoted_read(s)),
    }
}

/// A commit, and what follows it.
pub open spec fn commit_read(s: Seq<char>) -> Option<(Shown, Seq<char>)> {
    match string_after(s, "{\"oid\":\""@) {
        None => None,
        Some((oid, a)) => match number_after(a, ",\"time\":"@) {
            None => None,
            Some((time, b)) => match string_after(b, "\"tz\":\""@) {
                None => None,
                Some((tz, c)) => match string_after(c, ",\"author\":\""@) {
                    None => None,
                    Some((author, d)) => match string_after(d, ",\"subject\":\""@) {
                        None => None,
                        Some((subject, e)) => match parents_read(e) {
                            None => None,
                            Some((parents, f)) => match expected(f, "}"@) {
                                None => None,
                                Some(rest) => Some(
                                    (Shown { oid, time, tz, author, subject, parents }, rest),
                                ),
                            },
                        },
                    },
                },
            },
        },
    }
}

proof fn lemma_number_after(p: Seq<char>, n: int, rest: Seq<char>)
    ensures
        number_after(p + signed_text(n) + (seq![','] + rest), p) == Some((signed_text(n), rest)),
{
    let text = signed_text(n);
    let s = p + text + (seq![','] + rest);
    assert(s =~= p + (text + (seq![','] + rest)));
    lemma_expected(p, text + (seq![','] + rest));
    let digits = decimal_text(
        (if n < 0 {
            -n
        } else {
            n
        }) as nat,
    );
    lemma_decimal_text(
        (if n < 0 {
            -n
        } else {
            n
        }) as nat,
    );
    assert(!text.contains(',')) by {
        assert forall|i: int| 0 <= i < text.len() implies text[i] != ',' by {
            if n < 0 {
                if i > 0 {
                    assert(text[i] == digits[i - 1]);
                }
            } else {
                assert(text[i] == digits[i]);
            }
        }
    }
    assert(text + (seq![','] + rest) =~= text.push(',') + rest);
    lemma_cut_first(text, ',', rest);
}

proof fn lemma_parents(parents: Seq<Seq<u8>>, rest: Seq<char>)
    ensures
        parents_read(",\"parents\":["@ + (joined(quoted_ids(parents)) + seq![']'] + rest)) == Some(
            (parents.map_values(|oid: Seq<u8>| hex_text(oid)), rest),
        ),
{
    let item = |s: Seq<char>| quoted_read(s);
    let texts = quoted_ids(parents);
    let xs = parents.map_values(|oid: Seq<u8>| hex_text(oid));
    reveal_strlit("\"");
    let quote = seq!['"'];
    assert("\""@ =~= quote);
    assert forall|i: int| 0 <= i < texts.len() implies reads(item, #[trigger] texts[i], xs[i]) by {
        let h = hex_text(parents[i]);
        assert(texts[i] == "\""@ + h + "\""@);
        assert(xs[i] == h);
        assert(texts[i][0] == '"');
        lemma_hex_text(parents[i]);
        assert forall|rest: Seq<char>| #[trigger] item(texts[i] + rest) == Some((xs[i], rest)) by {
            assert(texts[i] + rest =~= quote + h + (quote + rest));
            lemma_string_after(quote, h, rest);
        }
    }
    lemma_list(item, texts, xs, rest);
    lemma_expected(",\"parents\":["@, joined(texts) + seq![']'] + rest);
}

proof fn lemma_literals()
    ensures
        "\",\"time\":"@ == seq!['"'] + ",\"time\":"@,
        ",\"tz\":\""@ == seq![','] + "\"tz\":\""@,
        "\",\"author\":\""@ == seq!['"'] + ",\"author\":\""@,
        "\",\"subject\":\""@ == seq!['"'] + ",\"subject\":\""@,
        "\",\"parents\":["@ == seq!['"'] + ",\"parents\":["@,
        "]}"@ == seq![']'] + "}"@,
{
    reveal_strlit("\",\"time\":");
    reveal_strlit(",\"time\":");
    reveal_strlit(",\"tz\":\"");
    reveal_strlit("\"tz\":\"");
    reveal_strlit("\",\"author\":\"");
    reveal_strlit(",\"author\":\"");
    reveal_strlit("\",\"subject\":\"");
    reveal_strlit(",\"subject\":\"");
    reveal_strlit("\",\"parents\":[");
    reveal_strlit(",\"parents\":[");
    reveal_strlit("]}");
    reveal_strlit("}");
    assert("\",\"time\":"@ =~= seq!['"'] + ",\"time\":"@);
    assert(",\"tz\":\""@ =~= seq![','] + "\"tz\":\""@);
    assert("\",\"author\":\""@ =~= seq!['"'] + ",\"author\":\""@);
    assert("\",\"subject\":\""@ =~= seq!['"'] + ",\"subject\":\""@);
    assert("\",\"parents\":["@ =~= seq!['"'] + ",\"parents\":["@);
    assert("]}"@ =~= seq![']'] + "}"@);
}

/// The text of a commit, cut where a reader stops.
proof fn lemma_commit_text(
    oid: Seq<u8>,
    time: int,
    tz: Seq<char>,
    author: Seq<char>,
    subject: Seq<char>,
    parents: Seq<Seq<u8>>,
    rest: Seq<char>,
)
    ensures
        ({
            let quote = seq!['"'];
            let f = "}"@ + rest;
            let e = ",\"parents\":["@ + (joined(quoted_ids(parents)) + seq![']'] + f);
            let d = ",\"subject\":\""@ + escaped(subject) + (quote + e);
            let c = ",\"author\":\""@ + escaped(author) + (quote + d);
            let b = "\"tz\":\""@ + escaped(tz) + (quote + c);
            let a = ",\"time\":"@ + signed_text(time) + (seq![','] + b);
            commit_json(oid, time, tz, author, subject, parents) + rest == "{\"oid\":\""@ + hex_text(oid) + (
            quote + a)
        }),
{
    lemma_literals();
    let quote = seq!['"'];
    let list = joined(quoted_ids(parents));
    let f = "}"@ + rest;
    let e = ",\"parents\":["@ + (list + seq![']'] + f);
    let d = ",\"subject\":\""@ + escaped(subject) + (quote + e);
    let c = ",\"author\":\""@ + escaped(author) + (quote + d);
    let b = "\"tz\":\""@ + escaped(tz) + (quote + c);
    let a = ",\"time\":"@ + signed_text(time) + (seq![','] + b);
    let p0 = "{\"oid\":\""@ + hex_text(oid);
    let p1 = p0 + "\",\"time\":"@ + signed_text(time);
    let p2 = p1 + ",\"tz\":\""@ + escaped(tz);
    let p3 = p2 + "\",\"author\":\""@ + escaped(author);
    let p4 = p3 + "\",\"subject\":\""@ + escaped(subject);
    let p5 = p4 + "\",\"parents\":["@ + list + "]}"@;
    assert(commit_json(oid, time, tz, author, subject, parents) == p5);
    assert(p5 + rest =~= p4 + (quote + e));
    assert(p4 + (quote + e) =~= p3 + (quote + d));
    assert(p3 + (quote + d) =~= p2 + (quote + c));
    assert(p2 + (quote + c) =~= p1 + (seq![','] + b));
    assert(p1 + (seq![','] + b) =~= p0 + (quote + a));
}

/// What is shown of a commit.
pub open spec fn shown_commit(oid: Seq<u8>, c: CommitView) -> Shown {
    Shown {
        oid: hex_text(oid),
        time: signed_text(c.committer.time),
        tz: readable_text(c.committer.tz),
        author: readable_text(c.author.name),
        subject: readable_text(subject_of(c.message)),
        parents: c.parents.map_values(|p: Seq<u8>| hex_text(p)),
    }
}

/// A reader of a commit in a history finds its id, the time and the time zone of the committer, the
/// name of the author, the subject and the ids of all parents in their order.
pub proof fn commits_can_be_read(oid: Seq<u8>, c: CommitView, rest: Seq<char>)
    ensures
        commit_read(entry_json(oid, c) + rest) == Some((shown_commit(oid, c), rest)),
{
    lemma_commit(
        oid,
        c.committer.time,
        readable_text(c.committer.tz),
        readable_text(c.author.name),
        readable_text(subject_of(c.message)),
        c.parents,
        rest,
    );
}

proof fn lemma_commit(
    oid: Seq<u8>,
    time: int,
    tz: Seq<char>,
    author: Seq<char>,
    subject: Seq<char>,
    parents: Seq<Seq<u8>>,
    rest: Seq<char>,
)
    ensures
        commit_read(commit_json(oid, time, tz, author, subject, parents) + rest) == Some(
            (
                Shown {
                    oid: hex_text(oid),
                    time: signed_text(time),
                    tz,
                    author,
                    subject,
                    parents: parents.map_values(|p: Seq<u8>| hex_text(p)),
                },
                rest,
            ),
        ),
{
    let quote = seq!['"'];
    let f = "}"@ + rest;
    let e = ",\"parents\":["@ + (joined(quoted_ids(parents)) + seq![']'] + f);
    let d = ",\"subject\":\""@ + escaped(subject) + (quote + e);
    let c = ",\"author\":\""@ + escaped(author) + (quote + d);
    let b = "\"tz\":\""@ + escaped(tz) + (quote + c);
    let a = ",\"time\":"@ + signed_text(time) + (seq![','] + b);
    lemma_commit_text(oid, time, tz, author, subject, parents, rest);
    lemma_hex_text(oid);
    lemma_string_after("{\"oid\":\""@, hex_text(oid), a);
    lemma_number_after(",\"time\":"@, time, b);
    lemma_string_after("\"tz\":\""@, tz, c);
    lemma_string_after(",\"author\":\""@, author, d);
    lemma_string_after(",\"subject\":\""@, subject, e);
    lemma_parents(parents, f);
    lemma_expected("}"@, rest);
    let xs = parents.map_values(|oid: Seq<u8>| hex_text(oid));
    assert(xs =~= parents.map_values(|p: Seq<u8>| hex_text(p)));
}

/// A reader of a history finds all of its commits in their order.
pub proof fn histories_can_be_read<O: Odb>(odb: &O, list: Seq<Seq<u8>>, rest: Seq<char>)
    ensures
        list_read(joined(entries_json(odb, list)) + seq![']'] + rest, |s: Seq<char>| commit_read(s)) == Some(
            (list.map_values(|oid: Seq<u8>| shown_commit(oid, commit_at(odb, oid))), rest),
        ),
{
    let item = |s: Seq<char>| commit_read(s);
    let texts = entries_json(odb, list);
    let xs = list.map_values(|oid: Seq<u8>| shown_commit(oid, commit_at(odb, oid)));
    assert forall|i: int| 0 <= i < texts.len() implies reads(item, #[trigger] texts[i], xs[i]) by {
        let oid = list[i];
        let c = commit_at(odb, oid);
        assert(texts[i] == entry_json(oid, c));
        assert(xs[i] == shown_commit(oid, c));
        assert(entry_json(oid, c).len() > 0 && entry_json(oid, c)[0] == '{') by {
            reveal_strlit("{\"oid\":\"");
        }
        assert forall|rest: Seq<char>| #[trigger] item(texts[i] + rest) == Some((xs[i], rest)) by {
            commits_can_be_read(oid, c, rest);
        }
    }
    lemma_list(item, texts, xs, rest);
}

} // verus!
