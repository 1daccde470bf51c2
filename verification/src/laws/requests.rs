//! What a server reads in the requests.

use vstd::prelude::*;

use crate::bytes::{decimal, lemma_lit, lit};
use crate::clone::{matching, ref_ids, request_of, wants, CloneView, RequestView, UPLOAD_PACK_PATH};
use crate::err::Error;
use crate::history::lemma_unique_of;
use crate::oid::to_hex;
use crate::pkt::{
    data_round_trip, first_pkt, lemma_first_pkt, pkt_line, separator_round_trip, PktView, MAX_DATA_LEN,
};
use crate::protov0::{command_line, command_lines, commands_fit, push_bytes, CommandView};
use crate::protov2::{fetch_bytes, lemma_decimal_len, ls_refs_bytes, prefix_lines, want_lines, RefView};
use crate::push::old_value;

verus! {

// --- reading frames -------------------------------------------------------------------------------------

/// All frames of a body; `None` where it does not end with a frame.
#[verifier::opaque]
pub open spec fn frames(s: Seq<u8>) -> Option<Seq<PktView>>
    decreases s.len(),
{
    if s.len() == 0 {
        Some(Seq::empty())
    } else {
        proof {
            lemma_first_pkt(s);
        }
        match first_pkt(s) {
            Err(_) => None,
            Ok((p, rest)) => match frames(rest) {
                Some(list) => Some(seq![p] + list),
                None => None,
            },
        }
    }
}

/// The frames before the first flush, and what follows that.
#[verifier::opaque]
pub open spec fn frames_to_flush(s: Seq<u8>) -> Option<(Seq<PktView>, Seq<u8>)>
    decreases s.len(),
{
    proof {
        lemma_first_pkt(s);
    }
    match first_pkt(s) {
        Err(_) => None,
        Ok((PktView::Flush, rest)) => Some((Seq::empty(), rest)),
        Ok((p, rest)) => match frames_to_flush(rest) {
            Some((list, after)) => Some((seq![p] + list, after)),
            None => None,
        },
    }
}

/// The frame of a line.
pub open spec fn line(text: Seq<u8>) -> PktView {
    PktView::Data(text + seq![10u8])
}

/// The frames of lines.
pub open spec fn lines(texts: Seq<Seq<u8>>) -> Seq<PktView> {
    texts.map_values(|t: Seq<u8>| line(t))
}

pub proof fn lemma_line(text: Seq<u8>, rest: Seq<u8>)
    requires
        text.len() < MAX_DATA_LEN,
    ensures
        first_pkt(pkt_line(text) + rest) == Ok::<_, Error>((line(text), rest)),
        (pkt_line(text) + rest).len() > 0,
        frames(pkt_line(text) + rest) == match frames(rest) {
            Some(list) => Some(seq![line(text)] + list),
            None => None,
        },
        frames_to_flush(pkt_line(text) + rest) == match frames_to_flush(rest) {
            Some((list, after)) => Some((seq![line(text)] + list, after)),
            None => None,
        },
{
    reveal(frames);
    reveal(frames_to_flush);
    assert(text.push(10) =~= text + seq![10u8]);
    data_round_trip(text.push(10), rest);
}

pub proof fn lemma_separators(rest: Seq<u8>)
    ensures
        frames(lit("0001") + rest) == match frames(rest) {
            Some(list) => Some(seq![PktView::Delim] + list),
            None => None,
        },
        frames(lit("0000") + rest) == match frames(rest) {
            Some(list) => Some(seq![PktView::Flush] + list),
            None => None,
        },
        frames_to_flush(lit("0000") + rest) == Some((Seq::<PktView>::empty(), rest)),
{
    reveal(frames);
    reveal(frames_to_flush);
    separator_round_trip(rest);
    reveal_strlit("0000");
    reveal_strlit("0001");
    lemma_lit("0000");
    lemma_lit("0001");
}

/// A body that ends with a flush.
proof fn lemma_flush()
    ensures
        frames(lit("0000")) == Some(seq![PktView::Flush]),
{
    reveal(frames);
    lemma_separators(Seq::empty());
    assert(lit("0000") + Seq::<u8>::empty() =~= lit("0000"));
    assert(seq![PktView::Flush] + Seq::<PktView>::empty() =~= seq![PktView::Flush]);
}

proof fn lemma_eight<T>(
    a: Seq<T>,
    b: Seq<T>,
    c: Seq<T>,
    d: Seq<T>,
    e: Seq<T>,
    f: Seq<T>,
    g: Seq<T>,
    h: Seq<T>,
)
    ensures
        a + b + c + d + e + f + g + h == a + (b + (c + (d + (e + (f + (g + h)))))),
{
    assert(a + b + c + d + e + f + g + h =~= a + (b + (c + (d + (e + (f + (g + h)))))));
}

proof fn lemma_three<T>(a: Seq<T>, b: Seq<T>, c: Seq<T>, d: Seq<T>)
    ensures
        a + b + c + d == a + (b + (c + d)),
{
    assert(a + b + c + d =~= a + (b + (c + d)));
}

proof fn lemma_end<T>(a: Seq<T>)
    ensures
        a + Seq::<T>::empty() == a,
{
    assert(a + Seq::<T>::empty() =~= a);
}

proof fn lemma_four<T>(a: T, b: T, c: T, d: T, rest: Seq<T>)
    ensures
        seq![a] + (seq![b] + (seq![c] + (seq![d] + rest))) == seq![a, b, c, d] + rest,
{
    assert(seq![a] + (seq![b] + (seq![c] + (seq![d] + rest))) =~= seq![a, b, c, d] + rest);
}

proof fn lemma_words()
    ensures
        lit("command=ls-refs").len() == 15,
        lit("peel").len() == 4,
        lit("symrefs").len() == 7,
        lit("ref-prefix ").len() == 11,
        lit("command=fetch").len() == 13,
        lit("no-progress").len() == 11,
        lit("ofs-delta").len() == 9,
        lit("deepen ").len() == 7,
        lit("want ").len() == 5,
        lit("done").len() == 4,
{
    crate::protov2::lemma_words();
}

// --- asking for refs --------------------------------------------------------------------------------------

proof fn lemma_prefix_lines(prefixes: Seq<Seq<u8>>, rest: Seq<u8>)
    requires
        forall|i: int| 0 <= i < prefixes.len() ==> (#[trigger] prefixes[i]).len() + 11 < MAX_DATA_LEN,
        frames(rest) is Some,
    ensures
        frames(prefix_lines(prefixes) + rest) == Some(
            lines(prefixes.map_values(|p: Seq<u8>| lit("ref-prefix ") + p)) + frames(rest)->0,
        ),
    decreases prefixes.len(),
{
    let list = lines(prefixes.map_values(|p: Seq<u8>| lit("ref-prefix ") + p));
    if prefixes.len() == 0 {
        assert(prefix_lines(prefixes) + rest =~= rest);
        assert(list + frames(rest)->0 =~= frames(rest)->0);
    } else {
        lemma_words();
        let others = prefixes.skip(1);
        assert forall|i: int| 0 <= i < others.len() implies (#[trigger] others[i]).len() + 11 < MAX_DATA_LEN by {
            assert(others[i] == prefixes[i + 1]);
        }
        lemma_prefix_lines(others, rest);
        let text = lit("ref-prefix ") + prefixes[0];
        assert(prefixes[0].len() + 11 < MAX_DATA_LEN);
        lemma_line(text, prefix_lines(others) + rest);
        assert(prefix_lines(prefixes) + rest =~= pkt_line(text) + (prefix_lines(others) + rest));
        let more = lines(others.map_values(|p: Seq<u8>| lit("ref-prefix ") + p));
        assert(list =~= seq![line(text)] + more);
        assert(list + frames(rest)->0 =~= seq![line(text)] + (more + frames(rest)->0));
    }
}

/// The request for refs asks for symbolic refs and the targets of tags, and for each prefix in a line
/// of its own.
pub proof fn refs_request_is_read(prefixes: Seq<Seq<u8>>)
    requires
        forall|i: int| 0 <= i < prefixes.len() ==> (#[trigger] prefixes[i]).len() + 11 < MAX_DATA_LEN,
    ensures
        frames(ls_refs_bytes(prefixes)) == Some(
            seq![line(lit("command=ls-refs")), PktView::Delim, line(lit("peel")), line(lit("symrefs"))]
                + lines(prefixes.map_values(|p: Seq<u8>| lit("ref-prefix ") + p)) + seq![PktView::Flush],
        ),
{
    lemma_words();
    lemma_flush();
    let end = lit("0000");
    let (a, b, c, d) = (
        pkt_line(lit("command=ls-refs")),
        lit("0001"),
        pkt_line(lit("peel")),
        pkt_line(lit("symrefs")),
    );
    let e = prefix_lines(prefixes) + end;
    lemma_prefix_lines(prefixes, end);
    lemma_line(lit("symrefs"), e);
    lemma_line(lit("peel"), d + e);
    lemma_separators(c + (d + e));
    lemma_line(lit("command=ls-refs"), b + (c + (d + e)));
    let none = Seq::<u8>::empty();
    let middle = prefix_lines(prefixes);
    lemma_eight(a, b, c, d, middle, end, none, none);
    lemma_end(a + b + c + d + middle + end);
    lemma_end(end);
    let texts = lines(prefixes.map_values(|p: Seq<u8>| lit("ref-prefix ") + p));
    let (w, x, y, z) = (
        line(lit("command=ls-refs")),
        PktView::Delim,
        line(lit("peel")),
        line(lit("symrefs")),
    );
    lemma_four(w, x, y, z, texts + seq![PktView::Flush]);
    lemma_three(seq![w, x, y, z], Seq::empty(), texts, seq![PktView::Flush]);
    lemma_end(seq![w, x, y, z]);
    assert(Seq::<PktView>::empty() + (texts + seq![PktView::Flush]) =~= texts + seq![PktView::Flush]);
}

// --- fetching ---------------------------------------------------------------------------------------------

/// The line that asks for an object.
pub open spec fn want_line(oid: Seq<u8>) -> PktView {
    line(lit("want ") + to_hex(oid))
}

/// The frames of a request for a pack: the command, a delimiter, the arguments, a line for each of the
/// objects in their order, the end of the request and a flush.
pub open spec fn fetch_frames(ids: Seq<Seq<u8>>, depth: Option<u32>) -> Seq<PktView> {
    seq![
        line(lit("command=fetch")),
        PktView::Delim,
        line(lit("no-progress")),
        line(lit("ofs-delta")),
    ] + (match depth {
        Some(n) => seq![line(lit("deepen ") + decimal(n as nat))],
        None => Seq::empty(),
    }) + ids.map_values(|w: Seq<u8>| want_line(w)) + seq![line(lit("done")), PktView::Flush]
}

proof fn lemma_want_lines(ids: Seq<Seq<u8>>, rest: Seq<u8>)
    requires
        forall|i: int| 0 <= i < ids.len() ==> (#[trigger] ids[i]).len() == 20,
        frames(rest) is Some,
    ensures
        frames(want_lines(ids) + rest) == Some(
            ids.map_values(|w: Seq<u8>| want_line(w)) + frames(rest)->0,
        ),
    decreases ids.len(),
{
    let list = ids.map_values(|w: Seq<u8>| want_line(w));
    if ids.len() == 0 {
        assert(want_lines(ids) + rest =~= rest);
        assert(list + frames(rest)->0 =~= frames(rest)->0);
    } else {
        lemma_words();
        let others = ids.skip(1);
        assert forall|i: int| 0 <= i < others.len() implies (#[trigger] others[i]).len() == 20 by {
            assert(others[i] == ids[i + 1]);
        }
        lemma_want_lines(others, rest);
        let text = lit("want ") + to_hex(ids[0]);
        assert(ids[0].len() == 20);
        lemma_line(text, want_lines(others) + rest);
        assert(want_lines(ids) + rest =~= pkt_line(text) + (want_lines(others) + rest));
        let more = others.map_values(|w: Seq<u8>| want_line(w));
        assert(list =~= seq![line(text)] + more);
        assert(list + frames(rest)->0 =~= seq![line(text)] + (more + frames(rest)->0));
    }
}

/// A line in its frame.
#[verifier::opaque]
spec fn wire(text: Seq<u8>) -> Seq<u8> {
    pkt_line(text)
}

proof fn lemma_wire(text: Seq<u8>, rest: Seq<u8>)
    requires
        text.len() < MAX_DATA_LEN,
        frames(rest) is Some,
    ensures
        frames(wire(text) + rest) == Some(seq![line(text)] + frames(rest)->0),
{
    reveal(wire);
    lemma_line(text, rest);
}

/// The line on the depth of the history, where there is one.
spec fn depth_text(depth: Option<u32>) -> Seq<u8> {
    match depth {
        Some(n) => wire(lit("deepen ") + decimal(n as nat)),
        None => Seq::empty(),
    }
}

spec fn depth_frames(depth: Option<u32>) -> Seq<PktView> {
    match depth {
        Some(n) => seq![line(lit("deepen ") + decimal(n as nat))],
        None => Seq::empty(),
    }
}

proof fn lemma_depth(depth: Option<u32>, rest: Seq<u8>)
    requires
        frames(rest) is Some,
    ensures
        frames(depth_text(depth) + rest) == Some(depth_frames(depth) + frames(rest)->0),
{
    match depth {
        Some(n) => {
            lemma_words();
            assert(10000000000int == vstd::arithmetic::power::pow(10, 10)) by {
                reveal_with_fuel(vstd::arithmetic::power::pow, 11);
            }
            lemma_decimal_len(n as nat, 10);
            lemma_wire(lit("deepen ") + decimal(n as nat), rest);
        },
        None => {
            assert(depth_text(depth) + rest =~= rest);
            assert(depth_frames(depth) + frames(rest)->0 =~= frames(rest)->0);
        },
    }
}

/// The end of a request for a pack.
proof fn lemma_done()
    ensures
        frames(wire(lit("done")) + lit("0000")) == Some(seq![line(lit("done")), PktView::Flush]),
{
    lemma_words();
    lemma_flush();
    lemma_wire(lit("done"), lit("0000"));
    assert(seq![line(lit("done"))] + seq![PktView::Flush] =~= seq![line(lit("done")), PktView::Flush]);
}

/// The parts of a request for a pack.
proof fn lemma_fetch_parts(ids: Seq<Seq<u8>>, depth: Option<u32>)
    ensures
        fetch_bytes(ids, depth) == wire(lit("command=fetch")) + (lit("0001") + (wire(lit("no-progress")) + (
        wire(lit("ofs-delta")) + (depth_text(depth) + (want_lines(ids) + (wire(lit("done")) + lit("0000"))))))),
{
    reveal(wire);
    lemma_eight(
        pkt_line(lit("command=fetch")),
        lit("0001"),
        pkt_line(lit("no-progress")),
        pkt_line(lit("ofs-delta")),
        depth_text(depth),
        want_lines(ids),
        pkt_line(lit("done")),
        lit("0000"),
    );
}

/// The head of a request for a pack.
proof fn lemma_fetch_head(rest: Seq<u8>)
    requires
        frames(rest) is Some,
    ensures
        frames(
            wire(lit("command=fetch")) + (lit("0001") + (wire(lit("no-progress")) + (wire(lit("ofs-delta"))
                + rest))),
        ) == Some(
            seq![
                line(lit("command=fetch")),
                PktView::Delim,
                line(lit("no-progress")),
                line(lit("ofs-delta")),
            ] + frames(rest)->0,
        ),
{
    lemma_words();
    let d = wire(lit("ofs-delta")) + rest;
    let c = wire(lit("no-progress")) + d;
    lemma_wire(lit("ofs-delta"), rest);
    lemma_wire(lit("no-progress"), d);
    lemma_separators(c);
    lemma_wire(lit("command=fetch"), lit("0001") + c);
    lemma_four(
        line(lit("command=fetch")),
        PktView::Delim,
        line(lit("no-progress")),
        line(lit("ofs-delta")),
        frames(rest)->0,
    );
}

/// The request for a pack is read as its frames.
pub proof fn fetch_request_is_read(ids: Seq<Seq<u8>>, depth: Option<u32>)
    requires
        forall|i: int| 0 <= i < ids.len() ==> (#[trigger] ids[i]).len() == 20,
    ensures
        frames(fetch_bytes(ids, depth)) == Some(fetch_frames(ids, depth)),
{
    let end = wire(lit("done")) + lit("0000");
    let wanted = ids.map_values(|w: Seq<u8>| want_line(w));
    let last = seq![line(lit("done")), PktView::Flush];
    let first = seq![
        line(lit("command=fetch")),
        PktView::Delim,
        line(lit("no-progress")),
        line(lit("ofs-delta")),
    ];
    lemma_done();
    lemma_want_lines(ids, end);
    lemma_depth(depth, want_lines(ids) + end);
    lemma_fetch_head(depth_text(depth) + (want_lines(ids) + end));
    lemma_fetch_parts(ids, depth);
    lemma_three(first, depth_frames(depth), wanted, last);
}

proof fn lemma_matching(refs: Seq<RefView>, wanted: Option<Seq<u8>>)
    ensures
        forall|i: int|
            0 <= i < refs.len() && (wanted is None || wanted == Some((#[trigger] refs[i]).name)) ==> matching(
                refs,
                wanted,
            ).contains(refs[i]),
        forall|k: int|
            0 <= k < matching(refs, wanted).len() ==> refs.contains(#[trigger] matching(refs, wanted)[k]) && (
            wanted is None || wanted == Some(matching(refs, wanted)[k].name)),
    decreases refs.len(),
{
    if refs.len() > 0 {
        let rest = refs.drop_last();
        let all = matching(refs, wanted);
        let few = matching(rest, wanted);
        lemma_matching(rest, wanted);
        assert forall|i: int|
            0 <= i < refs.len() && (wanted is None || wanted == Some(
                (#[trigger] refs[i]).name,
            )) implies all.contains(refs[i]) by {
            if i < rest.len() {
                assert(rest[i] == refs[i]);
                assert(few.contains(rest[i]));
                let k = choose|k: int| 0 <= k < few.len() && few[k] == refs[i];
                assert(all[k] == refs[i]);
            } else {
                assert(all[all.len() - 1] == refs[i]);
            }
        }
        assert forall|k: int| 0 <= k < all.len() implies refs.contains(#[trigger] all[k]) && (wanted is None
            || wanted == Some(all[k].name)) by {
            if k < few.len() {
                assert(all[k] == few[k]);
                assert(rest.contains(few[k]));
                let i = choose|i: int| 0 <= i < rest.len() && rest[i] == all[k];
                assert(refs[i] == all[k]);
            } else {
                assert(refs[refs.len() - 1] == all[k]);
            }
        }
    }
}

/// A clone asks for the object of every ref that is wanted (of all refs where none is named) and for
/// no other, each of them once.
pub proof fn clone_asks_for_every_wanted_ref(c: CloneView) -> (ids: Seq<Seq<u8>>)
    requires
        c.state is Fetch,
        forall|i: int| 0 <= i < c.refs.len() ==> (#[trigger] c.refs[i]).oid.len() == 20,
    ensures
        request_of(c) matches Some(RequestView::Post { path, body }) && path == UPLOAD_PACK_PATH@ && frames(
            body,
        ) == Some(fetch_frames(ids, c.depth)),
        ids.no_duplicates(),
        forall|i: int|
            0 <= i < c.refs.len() && (c.wanted is None || c.wanted == Some((#[trigger] c.refs[i]).name))
                ==> ids.contains(c.refs[i].oid),
        forall|k: int|
            0 <= k < ids.len() ==> exists|i: int|
                0 <= i < c.refs.len() && (#[trigger] c.refs[i]).oid == #[trigger] ids[k] && (c.wanted is None
                    || c.wanted == Some(c.refs[i].name)),
{
    let few = matching(c.refs, c.wanted);
    let all = ref_ids(few);
    let ids = wants(c.refs, c.wanted);
    lemma_matching(c.refs, c.wanted);
    lemma_unique_of(all);
    assert forall|k: int| 0 <= k < ids.len() implies (#[trigger] ids[k]).len() == 20 && exists|i: int|
        0 <= i < c.refs.len() && (#[trigger] c.refs[i]).oid == ids[k] && (c.wanted is None || c.wanted == Some(
            c.refs[i].name,
        )) by {
        assert(ids.contains(ids[k]));
        assert(all.contains(ids[k]));
        let m = choose|m: int| 0 <= m < all.len() && all[m] == ids[k];
        assert(all[m] == few[m].oid);
        assert(c.refs.contains(few[m]));
        let i = choose|i: int| 0 <= i < c.refs.len() && c.refs[i] == few[m];
        assert(c.refs[i].oid == ids[k]);
    }
    fetch_request_is_read(ids, c.depth);
    assert forall|i: int|
        0 <= i < c.refs.len() && (c.wanted is None || c.wanted == Some(
            (#[trigger] c.refs[i]).name,
        )) implies ids.contains(c.refs[i].oid) by {
        assert(few.contains(c.refs[i]));
        let m = choose|m: int| 0 <= m < few.len() && few[m] == c.refs[i];
        assert(all[m] == c.refs[i].oid);
        assert(all.contains(all[m]));
    }
    ids
}

// --- pushing ----------------------------------------------------------------------------------------------

/// The line of a command: the old id, the new one and the name; the first one names the capabilities
/// that are used behind a zero byte.
pub open spec fn update_line(c: CommandView, first: bool, side_band_64k: bool) -> PktView {
    line(
        to_hex(c.old) + lit(" ") + to_hex(c.new) + lit(" ") + c.name + (if !first {
            Seq::empty()
        } else if side_band_64k {
            seq![0u8] + lit("report-status side-band-64k agent=tig/0.1")
        } else {
            seq![0u8] + lit("report-status agent=tig/0.1")
        }),
    )
}

pub open spec fn update_lines(commands: Seq<CommandView>, side_band_64k: bool) -> Seq<PktView> {
    Seq::new(commands.len(), |i: int| update_line(commands[i], i == 0, side_band_64k))
}

proof fn lemma_update_line(c: CommandView, first: bool, side_band_64k: bool)
    ensures
        line(command_line(c, first, side_band_64k)) == update_line(c, first, side_band_64k),
{
    reveal_strlit(" ");
    reveal_strlit("report-status");
    reveal_strlit(" side-band-64k");
    reveal_strlit(" agent=tig/0.1");
    reveal_strlit("report-status side-band-64k agent=tig/0.1");
    reveal_strlit("report-status agent=tig/0.1");
    lemma_lit(" ");
    lemma_lit("report-status");
    lemma_lit(" side-band-64k");
    lemma_lit(" agent=tig/0.1");
    lemma_lit("report-status side-band-64k agent=tig/0.1");
    lemma_lit("report-status agent=tig/0.1");
    assert(lit(" ") =~= seq![32u8]);
    assert(lit("report-status") + lit(" side-band-64k") + lit(" agent=tig/0.1") =~= lit(
        "report-status side-band-64k agent=tig/0.1",
    ));
    assert(lit("report-status") + lit(" agent=tig/0.1") =~= lit("report-status agent=tig/0.1"));
    let text = to_hex(c.old) + lit(" ") + to_hex(c.new) + lit(" ") + c.name;
    if !first {
        assert(text + Seq::<u8>::empty() =~= command_line(c, first, side_band_64k));
    } else if side_band_64k {
        assert(text + (seq![0u8] + lit("report-status side-band-64k agent=tig/0.1")) =~= command_line(
            c,
            first,
            side_band_64k,
        ));
    } else {
        assert(text + (seq![0u8] + lit("report-status agent=tig/0.1")) =~= command_line(
            c,
            first,
            side_band_64k,
        ));
    }
}

proof fn lemma_command_lines(commands: Seq<CommandView>, i: int, side_band_64k: bool, pack: Seq<u8>)
    requires
        0 <= i <= commands.len(),
        commands_fit(commands, side_band_64k),
    ensures
        frames_to_flush(command_lines(commands, i, side_band_64k) + (lit("0000") + pack)) == Some(
            (update_lines(commands, side_band_64k).skip(i), pack),
        ),
    decreases commands.len() - i,
{
    let rest = lit("0000") + pack;
    let all = update_lines(commands, side_band_64k);
    if i == commands.len() {
        lemma_separators(pack);
        assert(command_lines(commands, i, side_band_64k) + rest =~= rest);
        assert(all.skip(i) =~= Seq::<PktView>::empty());
    } else {
        let text = command_line(commands[i], i == 0, side_band_64k);
        let more = command_lines(commands, i + 1, side_band_64k);
        lemma_command_lines(commands, i + 1, side_band_64k, pack);
        lemma_line(text, more + rest);
        lemma_update_line(commands[i], i == 0, side_band_64k);
        assert(command_lines(commands, i, side_band_64k) + rest =~= pkt_line(text) + (more + rest));
        assert(all.skip(i) =~= seq![all[i]] + all.skip(i + 1));
    }
}

/// An update is read as one line for each command, in their order, a flush and the pack as it is.
pub proof fn push_request_is_read(commands: Seq<CommandView>, side_band_64k: bool, pack: Seq<u8>)
    requires
        commands_fit(commands, side_band_64k),
    ensures
        frames_to_flush(push_bytes(commands, side_band_64k, pack)) == Some(
            (update_lines(commands, side_band_64k), pack),
        ),
{
    lemma_command_lines(commands, 0, side_band_64k, pack);
    assert(push_bytes(commands, side_band_64k, pack) =~= command_lines(commands, 0, side_band_64k) + (lit(
        "0000",
    ) + pack));
    assert(update_lines(commands, side_band_64k).skip(0) =~= update_lines(commands, side_band_64k));
}

/// What a server has for a ref: the value of the first one with the name, and twenty zeros where there
/// is none.
pub proof fn old_values_are_those_of_the_server(refs: Seq<(Seq<u8>, Seq<u8>)>, name: Seq<u8>, k: int)
    requires
        0 <= k <= refs.len(),
        forall|i: int| 0 <= i < k ==> (#[trigger] refs[i]).0 != name,
        k < refs.len() ==> refs[k].0 == name,
    ensures
        old_value(refs, name) == if k < refs.len() {
            refs[k].1
        } else {
            Seq::new(20, |i: int| 0u8)
        },
    decreases refs.len(),
{
    if refs.len() == 0 {
        assert(old_value(refs, name) =~= Seq::new(20, |i: int| 0u8));
    } else if k > 0 {
        assert(refs[0].0 != name);
        let rest = refs.skip(1);
        assert forall|i: int| 0 <= i < k - 1 implies (#[trigger] rest[i]).0 != name by {
            assert(rest[i] == refs[i + 1]);
        }
        old_values_are_those_of_the_server(rest, name, k - 1);
    }
}

} // verus!
