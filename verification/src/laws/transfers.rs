//! What goes from one place to another: bundles, clones and pushes.

use vstd::prelude::*;

use crate::bundle::{after_capabilities, heads_of, lines_from, no_heads, ref_named, with_line, Heads};
use crate::bytes::{has_prefix, lemma_cut, lemma_cut_len, lemma_find_none, lemma_lit, lit};
use crate::clone::{matching, ref_ids, responded, wants, CloneView, State};
use crate::err::Error;
use crate::history::{lemma_unique_of, unique_of};
use crate::log::subject_of;
use crate::object::Kind;
use crate::oid::{hex_round_trip, to_hex};
use crate::pack::index::PlaceView;
use crate::pack::object_in;
use crate::pack::write::pack_bytes;
use crate::pkt::{pkt_line, MAX_DATA_LEN};
use crate::protov0::{CommandView, ResultView};
use crate::protov2::RefView;
use crate::publish::{objects_of, push_start, pushable, updates_of, NoUpdate};
use crate::push::{
    all_reported, commands_for, old_value, responded as push_responded, results_for, PushView,
    State as PushState,
};

use super::responses::{
    acknowledged_part, announcement, are_words, capabilities_are_those_that_are_offered, capability_lines,
    framed, is_capability, is_listed, is_named, lines_fit, listed_lines, named_lines, offering, pack_part,
    packs_are_put_together, pieces_fit, put_together, receiving_line, refs_are_read_as_listed, refs_of,
    refs_to_push_to_are_read, shallow_part, Capability, Listed, Piece,
};

verus! {

// --- bundles ----------------------------------------------------------------------------------------

/// A line before the pack of a bundle: an object that is needed, with a comment, or a ref.
pub enum HeadLine {
    Needs(Seq<u8>, Seq<u8>),
    Points(Seq<u8>, Seq<u8>),
}

pub open spec fn is_head_line(l: HeadLine) -> bool {
    match l {
        HeadLine::Needs(oid, comment) => oid.len() == 20 && !comment.contains(10),
        HeadLine::Points(oid, name) => oid.len() == 20 && name.len() > 0 && !name.contains(10),
    }
}

pub open spec fn head_line_text(l: HeadLine) -> Seq<u8> {
    match l {
        HeadLine::Needs(oid, comment) => seq![45u8] + to_hex(oid) + comment,
        HeadLine::Points(oid, name) => to_hex(oid) + seq![32u8] + name,
    }
}

/// Lines, each with a newline at its end.
pub open spec fn ended(lines: Seq<Seq<u8>>) -> Seq<u8>
    decreases lines.len(),
{
    if lines.len() == 0 {
        Seq::empty()
    } else {
        lines[0] + seq![10u8] + ended(lines.skip(1))
    }
}

pub open spec fn head_line_texts(list: Seq<HeadLine>) -> Seq<Seq<u8>> {
    list.map_values(|l: HeadLine| head_line_text(l))
}

/// What the lines name, those of each sort in their order.
pub open spec fn heads_in(list: Seq<HeadLine>) -> Heads
    decreases list.len(),
{
    if list.len() == 0 {
        Heads { refs: Seq::empty(), prerequisites: Seq::empty() }
    } else {
        let h = heads_in(list.drop_last());
        match list.last() {
            HeadLine::Needs(oid, _) => Heads { prerequisites: h.prerequisites.push(oid), ..h },
            HeadLine::Points(oid, name) => Heads { refs: h.refs.push((name, oid)), ..h },
        }
    }
}

/// A bundle of version 2.
pub open spec fn bundle_text(list: Seq<HeadLine>, pack: Seq<u8>) -> Seq<u8> {
    lit("# v2 git bundle") + seq![10u8] + (ended(head_line_texts(list)) + (seq![10u8] + pack))
}

/// A bundle of version 3, which may say `n` times that its ids are those of SHA-1.
pub open spec fn newer_bundle_text(n: nat, list: Seq<HeadLine>, pack: Seq<u8>) -> Seq<u8> {
    lit("# v3 git bundle") + seq![10u8] + (ended(
        Seq::new(n, |i: int| lit("@object-format=sha1")),
    ) + (ended(head_line_texts(list)) + (seq![10u8] + pack)))
}

proof fn lemma_ended(lines: Seq<Seq<u8>>, rest: Seq<u8>)
    requires
        lines.len() > 0,
        !lines[0].contains(10),
    ensures
        crate::bytes::cut(ended(lines) + rest, 10) == Some((lines[0], ended(lines.skip(1)) + rest)),
{
    let after = ended(lines.skip(1)) + rest;
    assert(ended(lines) + rest =~= lines[0].push(10) + after);
    lemma_cut(lines[0], 10, after);
}

proof fn lemma_head_line(h: Heads, l: HeadLine)
    requires
        is_head_line(l),
    ensures
        !head_line_text(l).contains(10),
        head_line_text(l).len() > 0,
        with_line(h, head_line_text(l)) == Ok::<_, Error>(
            match l {
                HeadLine::Needs(oid, _) => Heads { prerequisites: h.prerequisites.push(oid), ..h },
                HeadLine::Points(oid, name) => Heads { refs: h.refs.push((name, oid)), ..h },
            },
        ),
{
    let text = head_line_text(l);
    match l {
        HeadLine::Needs(oid, comment) => {
            hex_round_trip(oid);
            assert(text.subrange(1, 41) =~= to_hex(oid));
            assert forall|i: int| 0 <= i < text.len() implies text[i] != 10 by {
                if i >= 41 {
                    assert(text[i] == comment[i - 41]);
                    assert(comment.contains(comment[i - 41]));
                } else if i >= 1 {
                    assert(text[i] == to_hex(oid)[i - 1]);
                }
            }
        },
        HeadLine::Points(oid, name) => {
            hex_round_trip(oid);
            assert(text.take(40) =~= to_hex(oid));
            assert(text.skip(41) =~= name);
            assert(text[40] == 32);
            assert(text[0] == to_hex(oid)[0]);
            assert forall|i: int| 0 <= i < text.len() implies text[i] != 10 by {
                if i >= 41 {
                    assert(text[i] == name[i - 41]);
                    assert(name.contains(name[i - 41]));
                } else if i < 40 {
                    assert(text[i] == to_hex(oid)[i]);
                }
            }
        },
    }
}

proof fn lemma_head_lines(list: Seq<HeadLine>, n: int, pack: Seq<u8>)
    requires
        forall|i: int| 0 <= i < list.len() ==> is_head_line(#[trigger] list[i]),
        0 <= n <= list.len(),
    ensures
        lines_from(
            ended(head_line_texts(list).skip(n)) + (seq![10u8] + pack),
            heads_in(list.take(n)),
        ) == Ok::<_, Error>((heads_in(list), pack)),
    decreases list.len() - n,
{
    let all = head_line_texts(list);
    let lines = all.skip(n);
    let end = seq![10u8] + pack;
    let s = ended(lines) + end;
    lemma_cut_len(s, 10);
    if n == list.len() {
        assert(lines.len() == 0);
        assert(s =~= Seq::<u8>::empty().push(10) + pack);
        lemma_cut(Seq::<u8>::empty(), 10, pack);
        assert(list.take(n) =~= list);
    } else {
        assert(lines[0] == head_line_text(list[n]));
        assert(is_head_line(list[n]));
        lemma_head_line(heads_in(list.take(n)), list[n]);
        lemma_ended(lines, end);
        assert(lines.skip(1) =~= all.skip(n + 1));
        assert(list.take(n + 1).drop_last() =~= list.take(n));
        assert(list.take(n + 1).last() == list[n]);
        lemma_head_lines(list, n + 1, pack);
    }
}

proof fn lemma_no_capability(list: Seq<HeadLine>, pack: Seq<u8>)
    requires
        forall|i: int| 0 <= i < list.len() ==> is_head_line(#[trigger] list[i]),
    ensures
        after_capabilities(ended(head_line_texts(list)) + (seq![10u8] + pack)) == Ok::<_, Error>(
            ended(head_line_texts(list)) + (seq![10u8] + pack),
        ),
{
    let texts = head_line_texts(list);
    let s = ended(texts) + (seq![10u8] + pack);
    if list.len() > 0 {
        assert(is_head_line(list[0]));
        let text = head_line_text(list[0]);
        assert(texts[0] == text);
        lemma_head_line(no_heads(), list[0]);
        assert(s[0] == text[0]);
        match list[0] {
            HeadLine::Needs(_, _) => {},
            HeadLine::Points(oid, _) => {
                assert(text[0] == to_hex(oid)[0]);
            },
        }
    } else {
        assert(s[0] == 10);
    }
}

proof fn lemma_capabilities(n: nat, rest: Seq<u8>)
    ensures
        after_capabilities(ended(Seq::new(n, |i: int| lit("@object-format=sha1"))) + rest)
            == after_capabilities(rest),
    decreases n,
{
    let word = lit("@object-format=sha1");
    let lines = Seq::new(n, |i: int| word);
    let s = ended(lines) + rest;
    if n == 0 {
        assert(s =~= rest);
    } else {
        let fewer = Seq::new((n - 1) as nat, |i: int| word);
        assert(lines.skip(1) =~= fewer);
        reveal_strlit("@object-format=sha1");
        reveal_strlit("object-format=sha1");
        lemma_lit("@object-format=sha1");
        lemma_lit("object-format=sha1");
        assert(word.skip(1) =~= lit("object-format=sha1"));
        assert(!word.contains(10));
        lemma_ended(lines, rest);
        lemma_cut_len(s, 10);
        assert(s[0] == word[0]);
        lemma_capabilities((n - 1) as nat, rest);
        assert(Seq::new((n - 1) as nat, |i: int| lit("@object-format=sha1")) =~= fewer);
    }
    assert(lines =~= Seq::new(n, |i: int| lit("@object-format=sha1")));
}

/// A bundle is read as it is written, in both versions: its refs and what it needs, those of each
/// sort in their order, and the pack. Comments do not matter.
pub proof fn bundles_are_read_as_written(list: Seq<HeadLine>, n: nat, pack: Seq<u8>)
    requires
        forall|i: int| 0 <= i < list.len() ==> is_head_line(#[trigger] list[i]),
    ensures
        heads_of(bundle_text(list, pack)) == Ok::<_, Error>((heads_in(list), pack)),
        heads_of(newer_bundle_text(n, list, pack)) == Ok::<_, Error>((heads_in(list), pack)),
{
    let lines = ended(head_line_texts(list)) + (seq![10u8] + pack);
    let more = ended(Seq::new(n, |i: int| lit("@object-format=sha1"))) + lines;
    reveal_strlit("# v2 git bundle");
    reveal_strlit("# v3 git bundle");
    lemma_lit("# v2 git bundle");
    lemma_lit("# v3 git bundle");
    assert(lit("# v2 git bundle")[3] != lit("# v3 git bundle")[3]);
    assert(bundle_text(list, pack) =~= lit("# v2 git bundle").push(10) + lines);
    assert(newer_bundle_text(n, list, pack) =~= lit("# v3 git bundle").push(10) + more);
    lemma_cut(lit("# v2 git bundle"), 10, lines);
    lemma_cut(lit("# v3 git bundle"), 10, more);
    assert(head_line_texts(list).skip(0) =~= head_line_texts(list));
    assert(list.take(0) =~= Seq::<HeadLine>::empty());
    assert(heads_in(list.take(0)) == no_heads());
    lemma_head_lines(list, 0, pack);
    lemma_no_capability(list, pack);
    lemma_capabilities(n, lines);
}

// --- refs ---------------------------------------------------------------------------------------------

/// The ref with a name is the first one that has it.
pub proof fn refs_are_found_by_their_names(refs: Seq<(Seq<u8>, Seq<u8>)>, name: Seq<u8>)
    ensures
        match ref_named(refs, name) {
            Some(oid) => exists|k: int|
                0 <= k < refs.len() && #[trigger] refs[k] == (name, oid) && forall|j: int|
                    0 <= j < k ==> (#[trigger] refs[j]).0 != name,
            None => forall|k: int| 0 <= k < refs.len() ==> (#[trigger] refs[k]).0 != name,
        },
    decreases refs.len(),
{
    if refs.len() > 0 {
        if refs[0].0 == name {
            assert(refs[0] == (name, refs[0].1));
        } else {
            let rest = refs.skip(1);
            refs_are_found_by_their_names(rest, name);
            match ref_named(rest, name) {
                Some(oid) => {
                    let k = choose|k: int|
                        0 <= k < rest.len() && #[trigger] rest[k] == (name, oid) && forall|j: int|
                            0 <= j < k ==> (#[trigger] rest[j]).0 != name;
                    assert(refs[k + 1] == (name, oid));
                    assert forall|j: int| 0 <= j < k + 1 implies (#[trigger] refs[j]).0 != name by {
                        if j > 0 {
                            assert(rest[j - 1].0 != name);
                        }
                    }
                },
                None => {
                    assert forall|k: int| 0 <= k < refs.len() implies (#[trigger] refs[k]).0 != name by {
                        if k > 0 {
                            assert(rest[k - 1].0 != name);
                        }
                    }
                },
            }
        }
    }
}

/// The name is one below `refs/`.
pub open spec fn below_refs(r: (Seq<u8>, Seq<u8>)) -> bool {
    r.0.len() >= 5 && r.0.take(5) == lit("refs/")
}

proof fn lemma_pushable(refs: Seq<(Seq<u8>, Seq<u8>)>)
    ensures
        pushable(refs) == refs.filter(|r: (Seq<u8>, Seq<u8>)| below_refs(r)),
    decreases refs.len(),
{
    reveal(Seq::filter);
    reveal_strlit("refs/");
    lemma_lit("refs/");
    if refs.len() > 0 {
        lemma_pushable(refs.drop_last());
        assert(below_refs(refs.last()) == has_prefix(refs.last().0, lit("refs/")));
    } else {
        assert(refs =~= Seq::<(Seq<u8>, Seq<u8>)>::empty());
    }
}

/// Without names, all refs below `refs/` are pushed, in their order; with a name to push from, what
/// it points to, under that name or the one to push to.
pub proof fn pushes_update_what_is_asked_for(
    refs: Seq<(Seq<u8>, Seq<u8>)>,
    from: Option<Seq<u8>>,
    to: Option<Seq<u8>>,
)
    ensures
        ({
            let all = refs.filter(|r: (Seq<u8>, Seq<u8>)| below_refs(r));
            let updates = updates_of(refs, from, to);
            match (from, to) {
                (None, Some(_)) => updates == Err::<Seq<(Seq<u8>, Seq<u8>)>, _>(NoUpdate::NoSource),
                (None, None) => if all.len() == 0 {
                    updates == Err::<Seq<(Seq<u8>, Seq<u8>)>, _>(NoUpdate::Nothing)
                } else {
                    updates == Ok::<_, NoUpdate>(all)
                },
                (Some(name), _) => match ref_named(refs, name) {
                    None => updates == Err::<Seq<(Seq<u8>, Seq<u8>)>, _>(NoUpdate::NoRef),
                    Some(oid) => {
                        let target = if let Some(other) = to {
                            other
                        } else {
                            name
                        };
                        updates == Ok::<_, NoUpdate>(seq![(target, oid)])
                    },
                },
            }
        }),
{
    lemma_pushable(refs);
}

// --- commands and results -----------------------------------------------------------------------------

/// The ref has another value on the server.
pub open spec fn changes(refs: Seq<(Seq<u8>, Seq<u8>)>, update: (Seq<u8>, Seq<u8>)) -> bool {
    old_value(refs, update.0) != update.1
}

pub open spec fn change(refs: Seq<(Seq<u8>, Seq<u8>)>, update: (Seq<u8>, Seq<u8>)) -> CommandView {
    CommandView { old: old_value(refs, update.0), new: update.1, name: update.0 }
}

proof fn lemma_commands(updates: Seq<(Seq<u8>, Seq<u8>)>, refs: Seq<(Seq<u8>, Seq<u8>)>, n: nat)
    requires
        n <= updates.len(),
    ensures
        commands_for(updates, refs, n) == updates.take(n as int).filter(
            |u: (Seq<u8>, Seq<u8>)| changes(refs, u),
        ).map_values(|u: (Seq<u8>, Seq<u8>)| change(refs, u)),
    decreases n,
{
    reveal(Seq::filter);
    let f = |u: (Seq<u8>, Seq<u8>)| changes(refs, u);
    let g = |u: (Seq<u8>, Seq<u8>)| change(refs, u);
    let part = updates.take(n as int);
    if n > 0 {
        lemma_commands(updates, refs, (n - 1) as nat);
        assert(part.drop_last() =~= updates.take(n - 1));
        let u = updates[n - 1];
        assert(part.last() == u);
        let rest = part.drop_last().filter(f);
        if changes(refs, u) {
            assert(part.filter(f) == rest.push(u));
            assert(rest.push(u).map_values(g) =~= rest.map_values(g).push(g(u)));
        } else {
            assert(part.filter(f) == rest);
        }
    } else {
        assert(part.filter(f).map_values(g) =~= Seq::<CommandView>::empty());
    }
}

/// The commands of a push are those updates that change something, in their order.
pub proof fn commands_are_the_changes(
    updates: Seq<(Seq<u8>, Seq<u8>)>,
    refs: Seq<(Seq<u8>, Seq<u8>)>,
)
    ensures
        commands_for(updates, refs, updates.len()) == updates.filter(
            |u: (Seq<u8>, Seq<u8>)| changes(refs, u),
        ).map_values(|u: (Seq<u8>, Seq<u8>)| change(refs, u)),
{
    lemma_commands(updates, refs, updates.len());
    assert(updates.take(updates.len() as int) =~= updates);
}

proof fn lemma_results(results: Seq<ResultView>, name: Seq<u8>)
    ensures
        results_for(results, name) == results.filter(|r: ResultView| r.0 == name).len(),
    decreases results.len(),
{
    reveal(Seq::filter);
    if results.len() > 0 {
        lemma_results(results.drop_last(), name);
    }
}

/// A report is complete where of each command exactly one result has the name.
pub proof fn complete_reports_have_one_result_for_each_command(
    commands: Seq<CommandView>,
    results: Seq<ResultView>,
)
    ensures
        all_reported(commands, results) <==> forall|i: int|
            0 <= i < commands.len() ==> results.filter(
                |r: ResultView| r.0 == (#[trigger] commands[i]).name,
            ).len() == 1,
{
    assert forall|i: int| 0 <= i < commands.len() implies results_for(
        results,
        (#[trigger] commands[i]).name,
    ) == results.filter(|r: ResultView| r.0 == commands[i].name).len() by {
        lemma_results(results, commands[i].name);
    }
}

// --- objects ------------------------------------------------------------------------------------------

/// The pack of a push holds the objects of the bundle, one for each place of its index and in that
/// order.
pub proof fn pushes_bring_all_objects(
    refs: Seq<(Seq<u8>, Seq<u8>)>,
    data: Seq<u8>,
    index: Seq<PlaceView>,
    from: Option<Seq<u8>>,
    to: Option<Seq<u8>>,
) -> (objects: Seq<(Kind, Seq<u8>)>)
    ensures
        push_start(refs, data, index, from, to) matches Ok(p) ==> {
            &&& p.pack == pack_bytes(objects)
            &&& objects.len() == index.len()
            &&& forall|i: int|
                0 <= i < index.len() ==> object_in(data, index, (#[trigger] index[i]).oid) == Ok::<_, Error>(
                    Some(objects[i]),
                )
        },
{
    lemma_objects(data, index, index.len());
    match objects_of(data, index, index.len()) {
        Ok(objects) => objects,
        Err(_) => Seq::empty(),
    }
}

proof fn lemma_objects(data: Seq<u8>, index: Seq<PlaceView>, n: nat)
    requires
        n <= index.len(),
    ensures
        objects_of(data, index, n) matches Ok(objects) ==> objects.len() == n && forall|i: int|
            0 <= i < n ==> object_in(data, index, (#[trigger] index[i]).oid) == Ok::<_, Error>(
                Some(objects[i]),
            ),
    decreases n,
{
    if n > 0 {
        lemma_objects(data, index, (n - 1) as nat);
    }
}

// --- messages -----------------------------------------------------------------------------------------

/// The subject of a message is what stands before its first newline, or all of it.
pub proof fn subjects_end_at_the_first_newline(line: Seq<u8>, rest: Seq<u8>)
    requires
        !line.contains(10),
    ensures
        subject_of(line + seq![10u8] + rest) == line,
        subject_of(line) == line,
{
    lemma_cut(line, 10, rest);
    assert(line.push(10) + rest =~= line + seq![10u8] + rest);
    assert forall|i: int| 0 <= i < line.len() implies line[i] != 10 by {
        assert(line.contains(line[i]));
    }
    lemma_find_none(line, 10);
}

// --- clones -------------------------------------------------------------------------------------------

/// A clone keeps the refs that were asked for, all of them where none was named.
pub proof fn clones_keep_the_wanted_refs(refs: Seq<RefView>, wanted: Option<Seq<u8>>)
    ensures
        wanted is None ==> matching(refs, wanted) == refs,
        wanted matches Some(name) ==> matching(refs, wanted) == refs.filter(|r: RefView| r.name == name),
    decreases refs.len(),
{
    reveal(Seq::filter);
    if refs.len() > 0 {
        clones_keep_the_wanted_refs(refs.drop_last(), wanted);
        assert(refs.drop_last().push(refs.last()) =~= refs);
    } else {
        assert(refs =~= Seq::<RefView>::empty());
    }
}

/// A clone that can go on ends with what the server sent: the refs as they were listed, the commits
/// where the history is cut off, and the pack that its pieces make up.
pub proof fn clones_end_with_what_the_server_sent(
    c: CloneView,
    service: Seq<u8>,
    offers: Seq<Capability>,
    refs: Seq<Listed>,
    lines: Seq<Seq<u8>>,
    ids: Seq<Seq<u8>>,
    pieces: Seq<Piece>,
    rest: Seq<u8>,
    first: Seq<u8>,
)
    requires
        c.state is InfoRefs,
        service.len() + 10 < MAX_DATA_LEN,
        forall|i: int| 0 <= i < offers.len() ==> is_capability(#[trigger] offers[i]),
        lines_fit(capability_lines(offers)),
        first == pkt_line(lit("version 2")) + (framed(capability_lines(offers)) + (lit("0000") + rest)),
        offering(offers).ls_refs && offering(offers).fetch,
        c.depth is Some ==> offering(offers).fetch_shallow,
        forall|i: int| 0 <= i < refs.len() ==> is_listed(#[trigger] refs[i]),
        lines_fit(listed_lines(refs)),
        exists|i: int|
            0 <= i < refs.len() && (c.wanted is None || c.wanted == Some((#[trigger] refs[i]).name)),
        lines_fit(lines),
        forall|i: int| 0 <= i < ids.len() ==> (#[trigger] ids[i]).len() == 20,
        pieces_fit(pieces),
        put_together(pieces).len() > 0,
    ensures
        ({
            let a = responded(c, announcement(service) + first);
            let b = responded(a.1, framed(listed_lines(refs)) + (lit("0000") + rest));
            let d = responded(
                b.1,
                acknowledged_part(lines, shallow_part(ids, pack_part(pieces, rest))),
            );
            &&& a == responded(c, first)
            &&& a.0 is Ok && a.1 == (CloneView { state: State::LsRefs, ..c })
            &&& b.0 is Ok && b.1 == (CloneView { state: State::Fetch, refs: refs_of(refs), ..c })
            &&& d.0 is Ok && d.1 == (CloneView {
                state: State::Done,
                refs: refs_of(refs),
                shallow: ids,
                pack: put_together(pieces),
                ..c
            })
        }),
{
    capabilities_are_those_that_are_offered(service, offers, rest, first);
    refs_are_read_as_listed(refs, rest);
    packs_are_put_together(lines, ids, pieces, rest);
    let all = refs_of(refs);
    let i = choose|i: int|
        0 <= i < refs.len() && (c.wanted is None || c.wanted == Some((#[trigger] refs[i]).name));
    assert(all[i].name == refs[i].name);
    lemma_some_wanted(all, c.wanted, i);
}

proof fn lemma_some_wanted(refs: Seq<RefView>, wanted: Option<Seq<u8>>, i: int)
    requires
        0 <= i < refs.len(),
        wanted is None || wanted == Some(refs[i].name),
    ensures
        wants(refs, wanted).len() > 0,
{
    let list = matching(refs, wanted);
    lemma_some_matching(refs, wanted, i);
    let ids = ref_ids(list);
    lemma_unique_of(ids);
    assert(ids.contains(ids[0]));
    assert(unique_of(ids).contains(ids[0]));
}

proof fn lemma_some_matching(refs: Seq<RefView>, wanted: Option<Seq<u8>>, i: int)
    requires
        0 <= i < refs.len(),
        wanted is None || wanted == Some(refs[i].name),
    ensures
        matching(refs, wanted).len() > 0,
    decreases refs.len(),
{
    if i < refs.len() - 1 {
        lemma_some_matching(refs.drop_last(), wanted, i);
    }
}

/// A push that is refused at first is one to a server that makes no reports. Else it has commands for
/// the changes; where there are none it is complete, and where there are some the report decides.
pub proof fn pushes_go_as_the_server_says(
    p: PushView,
    service: Seq<u8>,
    first: (Seq<u8>, Seq<u8>),
    words: Seq<Seq<u8>>,
    list: Seq<(Seq<u8>, Seq<u8>)>,
    rest: Seq<u8>,
    body: Seq<u8>,
)
    requires
        p.state is InfoRefs,
        p.commands.len() == 0,
        service.len() + 10 < MAX_DATA_LEN,
        first.1.len() == 20,
        !first.0.contains(0),
        words.len() > 0,
        are_words(words),
        forall|i: int| 0 <= i < list.len() ==> is_named(#[trigger] list[i]),
        lines_fit(named_lines(list)),
        receiving_line(first, words).len() < MAX_DATA_LEN,
        body == pkt_line(receiving_line(first, words)) + (framed(named_lines(list)) + (lit("0000") + rest)),
    ensures
        ({
            let refs = if first.0 == lit("capabilities^{}") {
                list
            } else {
                seq![first] + list
            };
            let commands = p.updates.filter(|u: (Seq<u8>, Seq<u8>)| changes(refs, u)).map_values(
                |u: (Seq<u8>, Seq<u8>)| change(refs, u),
            );
            let r = push_responded(p, announcement(service) + body);
            &&& r == push_responded(p, body)
            &&& r.0 is Ok <==> words.contains(lit("report-status"))
            &&& r.0 is Ok ==> r.1.commands == commands && r.1.updates == p.updates && r.1.pack == p.pack
            &&& r.0 is Ok ==> r.1.state == if commands.len() == 0 {
                PushState::Done
            } else {
                PushState::Send { side_band_64k: words.contains(lit("side-band-64k")) }
            }
        }),
{
    refs_to_push_to_are_read(service, first, words, list, rest, body);
    let refs = if first.0 == lit("capabilities^{}") {
        list
    } else {
        seq![first] + list
    };
    commands_are_the_changes(p.updates, refs);
    let commands = commands_for(p.updates, refs, p.updates.len());
    assert(p.commands + commands =~= commands);
}

} // verus!
