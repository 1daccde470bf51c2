//! What servers say, from their side.

use vstd::prelude::*;

use crate::bytes::{
    after_prefix, cut, find, has_prefix, lemma_cut, lemma_find, lemma_find_none, lemma_lit, lit, split,
};
use crate::err::{Error, Result};
use crate::oid::{hex_round_trip, to_hex};
use crate::pkt::{
    data_round_trip, first_pkt, lemma_first_pkt, pkt_data, pkt_line, separator_round_trip, trimmed, PktView,
    MAX_DATA_LEN,
};
use crate::protov0::{
    receive_advertisement, refs_until_flush, report_from, report_status, unbanded, with_ref,
    with_report_line, ReceiveView, ReportView, ResultView,
};
use crate::protov2::{
    advertisement, after_section, capabilities, first_announced, pack_section, ref_in,
    refs_from, sections, shallow_section, with_attribute, with_attributes, with_band, with_capability,
    Advertisement, FetchView, RefView,
};

verus! {

// --- lines and words ------------------------------------------------------------------------------------

/// Lines in frames of their own.
pub open spec fn framed(lines: Seq<Seq<u8>>) -> Seq<u8>
    decreases lines.len(),
{
    if lines.len() == 0 {
        Seq::empty()
    } else {
        pkt_line(lines[0]) + framed(lines.skip(1))
    }
}

pub open spec fn lines_fit(lines: Seq<Seq<u8>>) -> bool {
    forall|i: int| 0 <= i < lines.len() ==> (#[trigger] lines[i]).len() < MAX_DATA_LEN
}

/// Words with spaces between them.
pub open spec fn spaced(words: Seq<Seq<u8>>) -> Seq<u8>
    decreases words.len(),
{
    if words.len() == 0 {
        Seq::empty()
    } else if words.len() == 1 {
        words[0]
    } else {
        words[0] + seq![32u8] + spaced(words.skip(1))
    }
}

/// Words hold no spaces.
pub open spec fn are_words(words: Seq<Seq<u8>>) -> bool {
    forall|i: int| 0 <= i < words.len() ==> !(#[trigger] words[i]).contains(32)
}

proof fn lemma_line(text: Seq<u8>, rest: Seq<u8>)
    requires
        text.len() < MAX_DATA_LEN,
    ensures
        first_pkt(pkt_line(text) + rest) == Ok::<_, Error>((PktView::Data(text.push(10)), rest)),
        trimmed(text.push(10)) == text,
        (pkt_line(text) + rest).len() > 0,
{
    data_round_trip(text.push(10), rest);
    assert(text.push(10).drop_last() =~= text);
}

/// The first frame.
#[verifier::opaque]
spec fn head(s: Seq<u8>) -> Result<(PktView, Seq<u8>)> {
    first_pkt(s)
}

proof fn lemma_head_line(text: Seq<u8>, rest: Seq<u8>)
    requires
        text.len() < MAX_DATA_LEN,
    ensures
        head(pkt_line(text) + rest) == Ok::<_, Error>((PktView::Data(text.push(10)), rest)),
{
    reveal(head);
    lemma_line(text, rest);
}

proof fn lemma_head_separators(rest: Seq<u8>)
    ensures
        head(lit("0000") + rest) == Ok::<_, Error>((PktView::Flush, rest)),
        head(lit("0001") + rest) == Ok::<_, Error>((PktView::Delim, rest)),
{
    reveal(head);
    lemma_separators(rest);
}

proof fn lemma_trimmed(text: Seq<u8>)
    ensures
        trimmed(text.push(10)) == text,
{
    assert(text.push(10).drop_last() =~= text);
}

proof fn lemma_framed(lines: Seq<Seq<u8>>, rest: Seq<u8>)
    requires
        lines.len() > 0,
        lines_fit(lines),
    ensures
        framed(lines) + rest == pkt_line(lines[0]) + (framed(lines.skip(1)) + rest),
        lines_fit(lines.skip(1)),
        lines[0].len() < MAX_DATA_LEN,
{
    assert(framed(lines) + rest =~= pkt_line(lines[0]) + (framed(lines.skip(1)) + rest));
    let more = lines.skip(1);
    assert forall|i: int| 0 <= i < more.len() implies (#[trigger] more[i]).len() < MAX_DATA_LEN by {
        assert(more[i] == lines[i + 1]);
    }
}

proof fn lemma_separators(rest: Seq<u8>)
    ensures
        first_pkt(lit("0000") + rest) == Ok::<_, Error>((PktView::Flush, rest)),
        first_pkt(lit("0001") + rest) == Ok::<_, Error>((PktView::Delim, rest)),
        lit("0000").len() == 4,
        lit("0001").len() == 4,
{
    separator_round_trip(rest);
    reveal_strlit("0000");
    reveal_strlit("0001");
    lemma_lit("0000");
    lemma_lit("0001");
}

/// Words are split as they were put together.
proof fn lemma_spaced(words: Seq<Seq<u8>>)
    requires
        words.len() > 0,
        are_words(words),
    ensures
        split(spaced(words), 32) == words,
    decreases words.len(),
{
    let s = spaced(words);
    let w = words[0];
    assert(!w.contains(32));
    lemma_find(s, 32);
    if words.len() == 1 {
        assert forall|i: int| 0 <= i < s.len() implies s[i] != 32 by {
            assert(w.contains(w[i]));
        }
        lemma_find_none(s, 32);
        assert(seq![s] =~= words);
    } else {
        let rest = words.skip(1);
        let tail = spaced(rest);
        assert forall|i: int| 0 <= i < rest.len() implies !(#[trigger] rest[i]).contains(32) by {
            assert(rest[i] == words[i + 1]);
        }
        lemma_spaced(rest);
        lemma_cut(w, 32, tail);
        assert(s =~= w.push(32) + tail);
        let i = find(s, 32)->0;
        assert(s.take(i) == w);
        assert(s.skip(i + 1) == tail);
        assert(seq![w] + rest =~= words);
    }
}

proof fn lemma_prefix(p: Seq<u8>, v: Seq<u8>)
    ensures
        after_prefix(p + v, p) == Some(v),
{
    assert((p + v).take(p.len() as int) =~= p);
    assert((p + v).skip(p.len() as int) =~= v);
}

proof fn lemma_no_prefix(s: Seq<u8>, p: Seq<u8>, i: int)
    requires
        0 <= i < p.len(),
        i < s.len(),
        s[i] != p[i],
    ensures
        after_prefix(s, p) is None,
{
    if p.len() <= s.len() {
        assert(s.take(p.len() as int)[i] == s[i]);
    }
}

proof fn lemma_hex_is_a_word(b: Seq<u8>)
    ensures
        !to_hex(b).contains(32),
{
    assert forall|i: int| 0 <= i < to_hex(b).len() implies to_hex(b)[i] != 32 by {}
}

// --- refs -----------------------------------------------------------------------------------------------

/// What stands behind the name of a ref.
pub enum Attribute {
    Peeled(Seq<u8>),
    Target(Seq<u8>),
    Other(Seq<u8>),
}

pub open spec fn attribute_text(a: Attribute) -> Seq<u8> {
    match a {
        Attribute::Peeled(oid) => lit("peeled:") + to_hex(oid),
        Attribute::Target(name) => lit("symref-target:") + name,
        Attribute::Other(text) => text,
    }
}

pub open spec fn is_attribute(a: Attribute) -> bool {
    match a {
        Attribute::Peeled(oid) => oid.len() == 20,
        Attribute::Target(name) => !name.contains(32),
        Attribute::Other(text) => !text.contains(32) && !has_prefix(text, lit("peeled:")) && !has_prefix(
            text,
            lit("symref-target:"),
        ),
    }
}

/// A ref as a server lists it.
pub struct Listed {
    pub oid: Seq<u8>,
    pub name: Seq<u8>,
    pub attributes: Seq<Attribute>,
}

pub open spec fn is_listed(r: Listed) -> bool {
    &&& r.oid.len() == 20
    &&& !r.name.contains(32)
    &&& forall|i: int| 0 <= i < r.attributes.len() ==> is_attribute(#[trigger] r.attributes[i])
}

pub open spec fn listed_words(r: Listed) -> Seq<Seq<u8>> {
    seq![to_hex(r.oid), r.name] + r.attributes.map_values(|a: Attribute| attribute_text(a))
}

/// The last id that is given as the target of a tag.
pub open spec fn last_peeled(attributes: Seq<Attribute>) -> Option<Seq<u8>>
    decreases attributes.len(),
{
    if attributes.len() == 0 {
        None
    } else {
        match attributes.last() {
            Attribute::Peeled(oid) => Some(oid),
            _ => last_peeled(attributes.drop_last()),
        }
    }
}

/// The last name that is given as the target of a symbolic ref.
pub open spec fn last_target(attributes: Seq<Attribute>) -> Option<Seq<u8>>
    decreases attributes.len(),
{
    if attributes.len() == 0 {
        None
    } else {
        match attributes.last() {
            Attribute::Target(name) => Some(name),
            _ => last_target(attributes.drop_last()),
        }
    }
}

/// What is known of a ref that was listed.
pub open spec fn ref_of(r: Listed) -> RefView {
    RefView {
        name: r.name,
        oid: r.oid,
        peeled: last_peeled(r.attributes),
        symref_target: last_target(r.attributes),
    }
}

proof fn lemma_attribute_names()
    ensures
        lit("peeled:").len() == 7 && lit("peeled:")[0] == 112 && !lit("peeled:").contains(32),
        lit("symref-target:").len() == 14 && lit("symref-target:")[0] == 115 && !lit("symref-target:").contains(
            32,
        ),
{
    reveal_strlit("peeled:");
    reveal_strlit("symref-target:");
    lemma_lit("peeled:");
    lemma_lit("symref-target:");
}

/// The first of some attributes, where none of the others says something else.
proof fn lemma_first_attribute(attributes: Seq<Attribute>)
    requires
        attributes.len() > 0,
    ensures
        last_peeled(attributes) == (match last_peeled(attributes.skip(1)) {
            Some(oid) => Some(oid),
            None => match attributes[0] {
                Attribute::Peeled(oid) => Some(oid),
                _ => None,
            },
        }),
        last_target(attributes) == (match last_target(attributes.skip(1)) {
            Some(name) => Some(name),
            None => match attributes[0] {
                Attribute::Target(name) => Some(name),
                _ => None,
            },
        }),
    decreases attributes.len(),
{
    let rest = attributes.skip(1);
    if attributes.len() == 1 {
        assert(attributes.drop_last() =~= Seq::<Attribute>::empty());
        assert(rest =~= Seq::<Attribute>::empty());
        assert(last_peeled(attributes.drop_last()) is None);
        assert(last_target(attributes.drop_last()) is None);
    } else {
        lemma_first_attribute(attributes.drop_last());
        assert(attributes.drop_last().skip(1) =~= rest.drop_last());
        assert(rest.last() == attributes.last());
    }
}

proof fn lemma_attributes(e: RefView, list: Seq<Seq<u8>>, i: int, attributes: Seq<Attribute>)
    requires
        0 <= i <= list.len(),
        list.skip(i) == attributes.map_values(|a: Attribute| attribute_text(a)),
        forall|k: int| 0 <= k < attributes.len() ==> is_attribute(#[trigger] attributes[k]),
    ensures
        with_attributes(e, list, i) == Ok::<_, Error>(
            RefView {
                peeled: match last_peeled(attributes) {
                    Some(oid) => Some(oid),
                    None => e.peeled,
                },
                symref_target: match last_target(attributes) {
                    Some(name) => Some(name),
                    None => e.symref_target,
                },
                ..e
            },
        ),
    decreases list.len() - i,
{
    let texts = attributes.map_values(|a: Attribute| attribute_text(a));
    assert(list.skip(i).len() == attributes.len());
    if attributes.len() > 0 {
        let a = attributes[0];
        let rest = attributes.skip(1);
        assert(list[i] == list.skip(i)[0]);
        assert(texts[0] == attribute_text(a));
        assert(is_attribute(attributes[0]));
        lemma_attribute_names();
        lemma_first_attribute(attributes);
        let f = match a {
            Attribute::Peeled(oid) => RefView { peeled: Some(oid), ..e },
            Attribute::Target(name) => RefView { symref_target: Some(name), ..e },
            Attribute::Other(_) => e,
        };
        match a {
            Attribute::Peeled(oid) => {
                lemma_prefix(lit("peeled:"), to_hex(oid));
                hex_round_trip(oid);
            },
            Attribute::Target(name) => {
                lemma_no_prefix(list[i], lit("peeled:"), 0);
                lemma_prefix(lit("symref-target:"), name);
            },
            Attribute::Other(_) => {},
        }
        assert(with_attribute(e, list[i]) == Ok::<_, Error>(f));
        assert(list.skip(i + 1) =~= list.skip(i).skip(1));
        assert(texts.skip(1) =~= rest.map_values(|a: Attribute| attribute_text(a)));
        assert forall|k: int| 0 <= k < rest.len() implies is_attribute(#[trigger] rest[k]) by {
            assert(rest[k] == attributes[k + 1]);
        }
        lemma_attributes(f, list, i + 1, rest);
    }
}

proof fn lemma_ref(r: Listed)
    requires
        is_listed(r),
    ensures
        ref_in(spaced(listed_words(r))) == Ok::<_, Error>(ref_of(r)),
{
    let words = listed_words(r);
    lemma_attribute_names();
    lemma_hex_is_a_word(r.oid);
    assert forall|i: int| 0 <= i < words.len() implies !(#[trigger] words[i]).contains(32) by {
        if i >= 2 {
            let a = r.attributes[i - 2];
            assert(words[i] == attribute_text(a));
            assert(is_attribute(a));
            match a {
                Attribute::Peeled(oid) => {
                    lemma_hex_is_a_word(oid);
                    lemma_word_concat(lit("peeled:"), to_hex(oid));
                },
                Attribute::Target(name) => {
                    lemma_word_concat(lit("symref-target:"), name);
                },
                Attribute::Other(_) => {},
            }
        }
    }
    lemma_spaced(words);
    hex_round_trip(r.oid);
    let start = RefView { name: r.name, oid: r.oid, peeled: None, symref_target: None };
    assert(words.skip(2) =~= r.attributes.map_values(|a: Attribute| attribute_text(a)));
    lemma_attributes(start, words, 2, r.attributes);
}

proof fn lemma_word_concat(a: Seq<u8>, b: Seq<u8>)
    requires
        !a.contains(32),
        !b.contains(32),
    ensures
        !(a + b).contains(32),
{
    assert forall|i: int| 0 <= i < (a + b).len() implies (a + b)[i] != 32 by {
        if i < a.len() {
            assert(a.contains(a[i]));
        } else {
            assert(b.contains(b[i - a.len()]));
        }
    }
}

#[verifier::opaque]
spec fn listed(s: Seq<u8>, refs: Seq<RefView>) -> Result<Seq<RefView>> {
    refs_from(s, refs)
}

proof fn lemma_listed(s: Seq<u8>, line: Seq<u8>, rest: Seq<u8>, refs: Seq<RefView>, r: RefView)
    requires
        head(s) == Ok::<_, Error>((PktView::Data(line.push(10)), rest)),
        ref_in(line) == Ok::<_, Error>(r),
    ensures
        listed(s, refs) == listed(rest, refs.push(r)),
{
    reveal(head);
    reveal(listed);
    lemma_trimmed(line);
    lemma_first_pkt(s);
}

proof fn lemma_all_listed(s: Seq<u8>, rest: Seq<u8>, refs: Seq<RefView>)
    requires
        head(s) == Ok::<_, Error>((PktView::Flush, rest)),
    ensures
        listed(s, refs) == Ok::<_, Error>(refs),
{
    reveal(head);
    reveal(listed);
}

/// The lines of a list of refs.
pub open spec fn listed_lines(list: Seq<Listed>) -> Seq<Seq<u8>> {
    list.map_values(|r: Listed| spaced(listed_words(r)))
}

/// What is known of listed refs.
pub open spec fn refs_of(list: Seq<Listed>) -> Seq<RefView> {
    list.map_values(|r: Listed| ref_of(r))
}

proof fn lemma_refs(list: Seq<Listed>, rest: Seq<u8>, refs: Seq<RefView>)
    requires
        forall|i: int| 0 <= i < list.len() ==> is_listed(#[trigger] list[i]),
        lines_fit(listed_lines(list)),
    ensures
        listed(framed(listed_lines(list)) + (lit("0000") + rest), refs) == Ok::<_, Error>(
            refs + refs_of(list),
        ),
    decreases list.len(),
{
    let lines = listed_lines(list);
    let end = lit("0000") + rest;
    if list.len() == 0 {
        lemma_head_separators(rest);
        lemma_all_listed(end, rest, refs);
        assert(framed(lines) + end =~= end);
        assert(refs + refs_of(list) =~= refs);
    } else {
        let more = list.skip(1);
        let after = framed(lines.skip(1)) + end;
        assert(lines.skip(1) =~= listed_lines(more));
        lemma_framed(lines, end);
        lemma_head_line(lines[0], after);
        assert(is_listed(list[0]));
        lemma_ref(list[0]);
        lemma_listed(pkt_line(lines[0]) + after, lines[0], after, refs, ref_of(list[0]));
        assert forall|i: int| 0 <= i < more.len() implies is_listed(#[trigger] more[i]) by {
            assert(more[i] == list[i + 1]);
        }
        lemma_refs(more, rest, refs.push(ref_of(list[0])));
        assert(refs.push(ref_of(list[0])) + refs_of(more) =~= refs + refs_of(list));
    }
}

/// A list of refs is read as it is written, one line for each: the id, the name and the attributes
/// with spaces between them.
pub proof fn refs_are_read_as_listed(list: Seq<Listed>, rest: Seq<u8>)
    requires
        forall|i: int| 0 <= i < list.len() ==> is_listed(#[trigger] list[i]),
        lines_fit(listed_lines(list)),
    ensures
        refs_from(framed(listed_lines(list)) + (lit("0000") + rest), Seq::empty()) == Ok::<_, Error>(
            refs_of(list),
        ),
{
    reveal(listed);
    lemma_refs(list, rest, Seq::empty());
    assert(Seq::<RefView>::empty() + refs_of(list) =~= refs_of(list));
}

// --- packs ------------------------------------------------------------------------------------------------

/// A piece of what a server sends: of the pack, or of what it has to say.
pub enum Piece {
    Pack(Seq<u8>),
    Progress(Seq<u8>),
}

pub open spec fn piece_bytes(p: Piece) -> Seq<u8> {
    match p {
        Piece::Pack(data) => pkt_data(seq![1u8] + data),
        Piece::Progress(data) => pkt_data(seq![2u8] + data),
    }
}

pub open spec fn pieces_bytes(list: Seq<Piece>) -> Seq<u8>
    decreases list.len(),
{
    if list.len() == 0 {
        Seq::empty()
    } else {
        piece_bytes(list[0]) + pieces_bytes(list.skip(1))
    }
}

pub open spec fn pieces_fit(list: Seq<Piece>) -> bool {
    forall|i: int|
        0 <= i < list.len() ==> match #[trigger] list[i] {
            Piece::Pack(data) => data.len() < MAX_DATA_LEN,
            Piece::Progress(data) => data.len() < MAX_DATA_LEN,
        }
}

/// The pack that the pieces make up.
pub open spec fn put_together(list: Seq<Piece>) -> Seq<u8>
    decreases list.len(),
{
    if list.len() == 0 {
        Seq::empty()
    } else {
        piece_pack(list[0]) + put_together(list.skip(1))
    }
}

/// What a piece adds to the pack.
pub open spec fn piece_pack(p: Piece) -> Seq<u8> {
    match p {
        Piece::Pack(data) => data,
        Piece::Progress(_) => Seq::empty(),
    }
}

/// What stands in the frame of a piece.
spec fn piece_data(p: Piece) -> Seq<u8> {
    match p {
        Piece::Pack(data) => seq![1u8] + data,
        Piece::Progress(data) => seq![2u8] + data,
    }
}

proof fn lemma_piece(p: Piece, rest: Seq<u8>)
    requires
        piece_data(p).len() <= MAX_DATA_LEN,
    ensures
        head(piece_bytes(p) + rest) == Ok::<_, Error>((PktView::Data(piece_data(p)), rest)),
{
    reveal(head);
    data_round_trip(piece_data(p), rest);
}

proof fn lemma_piece_pack(p: Piece, all: Seq<u8>)
    ensures
        with_band(all, piece_data(p)) == Ok::<_, Error>(all + piece_pack(p)),
{
    match p {
        Piece::Pack(data) => {
            assert((seq![1u8] + data).skip(1) =~= data);
        },
        Piece::Progress(data) => {
            assert(all + Seq::<u8>::empty() =~= all);
        },
    }
}

proof fn lemma_more_pieces(list: Seq<Piece>, rest: Seq<u8>)
    requires
        list.len() > 0,
        pieces_fit(list),
    ensures
        pieces_fit(list.skip(1)),
        piece_data(list[0]).len() <= MAX_DATA_LEN,
        pieces_bytes(list) + rest == piece_bytes(list[0]) + (pieces_bytes(list.skip(1)) + rest),
{
    let more = list.skip(1);
    assert forall|i: int| 0 <= i < more.len() implies match #[trigger] more[i] {
        Piece::Pack(data) => data.len() < MAX_DATA_LEN,
        Piece::Progress(data) => data.len() < MAX_DATA_LEN,
    } by {
        assert(more[i] == list[i + 1]);
    }
    assert(pieces_bytes(list) + rest =~= piece_bytes(list[0]) + (pieces_bytes(more) + rest));
}

#[verifier::opaque]
spec fn packed(s: Seq<u8>, pack: Seq<u8>) -> Result<Seq<u8>> {
    pack_section(s, pack)
}

proof fn lemma_packed(s: Seq<u8>, p: Piece, rest: Seq<u8>, pack: Seq<u8>)
    requires
        head(s) == Ok::<_, Error>((PktView::Data(piece_data(p)), rest)),
    ensures
        packed(s, pack) == packed(rest, pack + piece_pack(p)),
{
    reveal(head);
    reveal(packed);
    lemma_piece_pack(p, pack);
    lemma_first_pkt(s);
}

proof fn lemma_all_packed(s: Seq<u8>, rest: Seq<u8>, pack: Seq<u8>)
    requires
        head(s) == Ok::<_, Error>((PktView::Flush, rest)),
        pack.len() > 0,
    ensures
        packed(s, pack) == Ok::<_, Error>(pack),
{
    reveal(head);
    reveal(packed);
}

proof fn lemma_pieces(list: Seq<Piece>, rest: Seq<u8>, pack: Seq<u8>)
    requires
        pieces_fit(list),
        (pack + put_together(list)).len() > 0,
    ensures
        packed(pieces_bytes(list) + (lit("0000") + rest), pack) == Ok::<_, Error>(pack + put_together(list)),
    decreases list.len(),
{
    let end = lit("0000") + rest;
    if list.len() == 0 {
        lemma_head_separators(rest);
        assert(pieces_bytes(list) + end =~= end);
        assert(pack + put_together(list) =~= pack);
        lemma_all_packed(end, rest, pack);
    } else {
        let more = list.skip(1);
        let after = pieces_bytes(more) + end;
        lemma_more_pieces(list, end);
        lemma_piece(list[0], after);
        lemma_packed(piece_bytes(list[0]) + after, list[0], after, pack);
        let next = pack + piece_pack(list[0]);
        assert(next + put_together(more) =~= pack + put_together(list));
        lemma_pieces(more, rest, next);
    }
}

/// The lines on commits where the history is cut off.
pub open spec fn shallow_lines(ids: Seq<Seq<u8>>) -> Seq<Seq<u8>> {
    ids.map_values(|oid: Seq<u8>| lit("shallow ") + to_hex(oid))
}

proof fn lemma_shallow_word()
    ensures
        lit("shallow ").len() == 8,
        lit("shallow-info").len() == 12 && lit("shallow-info")[0] == 115,
        lit("acknowledgments").len() == 15 && lit("acknowledgments")[0] == 97,
        lit("packfile").len() == 8 && lit("packfile")[0] == 112,
{
    reveal_strlit("shallow ");
    reveal_strlit("shallow-info");
    reveal_strlit("acknowledgments");
    reveal_strlit("packfile");
    lemma_lit("shallow ");
    lemma_lit("shallow-info");
    lemma_lit("acknowledgments");
    lemma_lit("packfile");
}

#[verifier::opaque]
spec fn cut_off(s: Seq<u8>, known: Seq<Seq<u8>>) -> Result<(Seq<Seq<u8>>, Seq<u8>)> {
    shallow_section(s, known)
}

proof fn lemma_cut_off(s: Seq<u8>, oid: Seq<u8>, rest: Seq<u8>, known: Seq<Seq<u8>>)
    requires
        oid.len() == 20,
        head(s) == Ok::<_, Error>((PktView::Data((lit("shallow ") + to_hex(oid)).push(10)), rest)),
    ensures
        cut_off(s, known) == cut_off(rest, known.push(oid)),
{
    reveal(head);
    reveal(cut_off);
    lemma_trimmed(lit("shallow ") + to_hex(oid));
    lemma_prefix(lit("shallow "), to_hex(oid));
    hex_round_trip(oid);
    lemma_first_pkt(s);
}

proof fn lemma_all_cut_off(s: Seq<u8>, rest: Seq<u8>, known: Seq<Seq<u8>>)
    requires
        head(s) == Ok::<_, Error>((PktView::Delim, rest)),
    ensures
        cut_off(s, known) == Ok::<_, Error>((known, rest)),
{
    reveal(head);
    reveal(cut_off);
}

proof fn lemma_shallow(ids: Seq<Seq<u8>>, rest: Seq<u8>, known: Seq<Seq<u8>>)
    requires
        forall|i: int| 0 <= i < ids.len() ==> (#[trigger] ids[i]).len() == 20,
    ensures
        cut_off(framed(shallow_lines(ids)) + (lit("0001") + rest), known) == Ok::<_, Error>(
            (known + ids, rest),
        ),
    decreases ids.len(),
{
    let lines = shallow_lines(ids);
    let end = lit("0001") + rest;
    if ids.len() == 0 {
        lemma_head_separators(rest);
        lemma_all_cut_off(end, rest, known);
        assert(framed(lines) + end =~= end);
        assert(known + ids =~= known);
    } else {
        let more = ids.skip(1);
        let after = framed(lines.skip(1)) + end;
        assert(lines_fit(lines)) by {
            lemma_shallow_word();
            assert forall|i: int| 0 <= i < lines.len() implies (#[trigger] lines[i]).len() < MAX_DATA_LEN by {
                assert(ids[i].len() == 20);
            }
        }
        assert(lines.skip(1) =~= shallow_lines(more));
        assert(ids[0].len() == 20);
        lemma_framed(lines, end);
        lemma_head_line(lines[0], after);
        lemma_cut_off(pkt_line(lines[0]) + after, ids[0], after, known);
        assert forall|i: int| 0 <= i < more.len() implies (#[trigger] more[i]).len() == 20 by {
            assert(more[i] == ids[i + 1]);
        }
        lemma_shallow(more, rest, known.push(ids[0]));
        assert(known.push(ids[0]) + more =~= known + ids);
    }
}

#[verifier::opaque]
spec fn fetched(s: Seq<u8>, shallow: Seq<Seq<u8>>) -> Result<FetchView> {
    sections(s, shallow)
}

proof fn lemma_fetched_pack(s: Seq<u8>, rest: Seq<u8>, shallow: Seq<Seq<u8>>, pack: Seq<u8>)
    requires
        head(s) == Ok::<_, Error>((PktView::Data(lit("packfile").push(10)), rest)),
        packed(rest, Seq::empty()) == Ok::<_, Error>(pack),
    ensures
        fetched(s, shallow) == Ok::<_, Error>(FetchView { shallow, pack }),
{
    reveal(head);
    reveal(packed);
    reveal(fetched);
    lemma_trimmed(lit("packfile"));
    lemma_shallow_word();
    lemma_first_pkt(s);
}

proof fn lemma_fetched_shallow(
    s: Seq<u8>,
    rest: Seq<u8>,
    shallow: Seq<Seq<u8>>,
    all: Seq<Seq<u8>>,
    after: Seq<u8>,
)
    requires
        head(s) == Ok::<_, Error>((PktView::Data(lit("shallow-info").push(10)), rest)),
        cut_off(rest, shallow) == Ok::<_, Error>((all, after)),
    ensures
        fetched(s, shallow) == fetched(after, all),
{
    reveal(head);
    reveal(cut_off);
    reveal(fetched);
    lemma_trimmed(lit("shallow-info"));
    lemma_first_pkt(s);
    crate::protov2::lemma_shallow_section(rest, shallow);
}

#[verifier::opaque]
spec fn skipped(s: Seq<u8>) -> Result<Seq<u8>> {
    after_section(s)
}

proof fn lemma_skipped(lines: Seq<Seq<u8>>, rest: Seq<u8>)
    requires
        lines_fit(lines),
    ensures
        skipped(framed(lines) + (lit("0001") + rest)) == Ok::<_, Error>(rest),
    decreases lines.len(),
{
    let end = lit("0001") + rest;
    if lines.len() == 0 {
        lemma_head_separators(rest);
        assert(framed(lines) + end =~= end);
        lemma_all_skipped(end, rest);
    } else {
        let after = framed(lines.skip(1)) + end;
        lemma_framed(lines, end);
        lemma_head_line(lines[0], after);
        lemma_skipped_line(pkt_line(lines[0]) + after, lines[0].push(10), after);
        lemma_skipped(lines.skip(1), rest);
    }
}

proof fn lemma_skipped_line(s: Seq<u8>, data: Seq<u8>, rest: Seq<u8>)
    requires
        head(s) == Ok::<_, Error>((PktView::Data(data), rest)),
    ensures
        skipped(s) == skipped(rest),
{
    reveal(head);
    reveal(skipped);
    lemma_first_pkt(s);
}

proof fn lemma_all_skipped(s: Seq<u8>, rest: Seq<u8>)
    requires
        head(s) == Ok::<_, Error>((PktView::Delim, rest)),
    ensures
        skipped(s) == Ok::<_, Error>(rest),
{
    reveal(head);
    reveal(skipped);
}

proof fn lemma_fetched_acknowledged(s: Seq<u8>, rest: Seq<u8>, shallow: Seq<Seq<u8>>, after: Seq<u8>)
    requires
        head(s) == Ok::<_, Error>((PktView::Data(lit("acknowledgments").push(10)), rest)),
        skipped(rest) == Ok::<_, Error>(after),
    ensures
        fetched(s, shallow) == fetched(after, shallow),
{
    reveal(head);
    reveal(skipped);
    reveal(fetched);
    lemma_trimmed(lit("acknowledgments"));
    lemma_shallow_word();
    lemma_first_pkt(s);
    crate::protov2::lemma_after_section(rest);
}

/// The section of a response with the pack.
pub open spec fn pack_part(list: Seq<Piece>, rest: Seq<u8>) -> Seq<u8> {
    pkt_line(lit("packfile")) + (pieces_bytes(list) + (lit("0000") + rest))
}

/// A section on the commits where the history is cut off, and what follows it.
pub open spec fn shallow_part(ids: Seq<Seq<u8>>, rest: Seq<u8>) -> Seq<u8> {
    pkt_line(lit("shallow-info")) + (framed(shallow_lines(ids)) + (lit("0001") + rest))
}

/// A section with acknowledgments, and what follows it.
pub open spec fn acknowledged_part(lines: Seq<Seq<u8>>, rest: Seq<u8>) -> Seq<u8> {
    pkt_line(lit("acknowledgments")) + (framed(lines) + (lit("0001") + rest))
}

proof fn lemma_pack_part(list: Seq<Piece>, rest: Seq<u8>, shallow: Seq<Seq<u8>>)
    requires
        pieces_fit(list),
        put_together(list).len() > 0,
    ensures
        fetched(pack_part(list, rest), shallow) == Ok::<_, Error>(
            FetchView { shallow, pack: put_together(list) },
        ),
{
    let none = Seq::<u8>::empty();
    let after = pieces_bytes(list) + (lit("0000") + rest);
    assert(none + put_together(list) =~= put_together(list));
    lemma_pieces(list, rest, none);
    lemma_shallow_word();
    lemma_head_line(lit("packfile"), after);
    lemma_fetched_pack(pack_part(list, rest), after, shallow, put_together(list));
}

proof fn lemma_shallow_part(ids: Seq<Seq<u8>>, rest: Seq<u8>)
    requires
        forall|i: int| 0 <= i < ids.len() ==> (#[trigger] ids[i]).len() == 20,
    ensures
        fetched(shallow_part(ids, rest), Seq::empty()) == fetched(rest, ids),
{
    let after = framed(shallow_lines(ids)) + (lit("0001") + rest);
    lemma_shallow(ids, rest, Seq::empty());
    assert(Seq::<Seq<u8>>::empty() + ids =~= ids);
    lemma_shallow_word();
    lemma_head_line(lit("shallow-info"), after);
    lemma_fetched_shallow(shallow_part(ids, rest), after, Seq::empty(), ids, rest);
}

proof fn lemma_acknowledged_part(lines: Seq<Seq<u8>>, rest: Seq<u8>, shallow: Seq<Seq<u8>>)
    requires
        lines_fit(lines),
    ensures
        fetched(acknowledged_part(lines, rest), shallow) == fetched(rest, shallow),
{
    let after = framed(lines) + (lit("0001") + rest);
    lemma_skipped(lines, rest);
    lemma_shallow_word();
    lemma_head_line(lit("acknowledgments"), after);
    lemma_fetched_acknowledged(acknowledged_part(lines, rest), after, shallow, rest);
}

/// The pack of a response is what its pieces make up, in their order and without what the server says
/// in between; the commits where the history is cut off are those of the lines before it.
/// Acknowledgments change nothing.
pub proof fn packs_are_put_together(
    lines: Seq<Seq<u8>>,
    ids: Seq<Seq<u8>>,
    list: Seq<Piece>,
    rest: Seq<u8>,
)
    requires
        lines_fit(lines),
        forall|i: int| 0 <= i < ids.len() ==> (#[trigger] ids[i]).len() == 20,
        pieces_fit(list),
        put_together(list).len() > 0,
    ensures
        sections(pack_part(list, rest), Seq::empty()) == Ok::<_, Error>(
            FetchView { shallow: Seq::empty(), pack: put_together(list) },
        ),
        sections(shallow_part(ids, pack_part(list, rest)), Seq::empty()) == Ok::<_, Error>(
            FetchView { shallow: ids, pack: put_together(list) },
        ),
        sections(
            acknowledged_part(lines, shallow_part(ids, pack_part(list, rest))),
            Seq::empty(),
        ) == Ok::<_, Error>(FetchView { shallow: ids, pack: put_together(list) }),
{
    let pack = pack_part(list, rest);
    lemma_pack_part(list, rest, Seq::empty());
    lemma_pack_part(list, rest, ids);
    lemma_shallow_part(ids, pack);
    lemma_acknowledged_part(lines, shallow_part(ids, pack), Seq::empty());
    reveal(fetched);
}

// --- capabilities -----------------------------------------------------------------------------------------

/// A capability: its name, and its values where it has any.
pub struct Capability {
    pub name: Seq<u8>,
    pub values: Option<Seq<Seq<u8>>>,
}

pub open spec fn is_capability(c: Capability) -> bool {
    &&& !c.name.contains(61)
    &&& c.values matches Some(values) ==> values.len() > 0 && are_words(values)
}

pub open spec fn capability_text(c: Capability) -> Seq<u8> {
    match c.values {
        Some(values) => c.name + seq![61u8] + spaced(values),
        None => c.name,
    }
}

pub open spec fn capability_lines(list: Seq<Capability>) -> Seq<Seq<u8>> {
    list.map_values(|c: Capability| capability_text(c))
}

/// A capability of the name is among them.
pub open spec fn offers(list: Seq<Capability>, name: Seq<u8>) -> bool {
    exists|i: int| 0 <= i < list.len() && (#[trigger] list[i]).name == name
}

/// The last capability for fetching says that a fetch can be shallow.
pub open spec fn offers_shallow(list: Seq<Capability>) -> bool
    decreases list.len(),
{
    if list.len() == 0 {
        false
    } else if list.last().name == lit("fetch") {
        list.last().values matches Some(values) && values.contains(lit("shallow"))
    } else {
        offers_shallow(list.drop_last())
    }
}

proof fn lemma_capability(adv: Advertisement, c: Capability)
    requires
        is_capability(c),
    ensures
        with_capability(adv, capability_text(c)) == (if c.name == lit("ls-refs") {
            Advertisement { ls_refs: true, ..adv }
        } else if c.name == lit("fetch") {
            Advertisement {
                fetch: true,
                fetch_shallow: c.values matches Some(values) && values.contains(lit("shallow")),
                ..adv
            }
        } else {
            adv
        }),
{
    let line = capability_text(c);
    match c.values {
        Some(values) => {
            lemma_cut(c.name, 61, spaced(values));
            assert(c.name.push(61) + spaced(values) =~= line);
            lemma_spaced(values);
        },
        None => {
            assert forall|i: int| 0 <= i < line.len() implies line[i] != 61 by {
                assert(c.name.contains(c.name[i]));
            }
            lemma_find_none(line, 61);
            let none = Seq::<u8>::empty();
            assert(cut(line, 61) is None);
            lemma_find_none(none, 32);
            assert(split(none, 32) =~= seq![none]);
            reveal_strlit("shallow");
            lemma_lit("shallow");
            assert(!split(none, 32).contains(lit("shallow")));
        },
    }
}

/// The flags after the first capabilities of a list.
spec fn so_far(list: Seq<Capability>, n: int) -> Advertisement {
    Advertisement {
        ls_refs: offers(list.take(n), lit("ls-refs")),
        fetch: offers(list.take(n), lit("fetch")),
        fetch_shallow: offers_shallow(list.take(n)),
    }
}

proof fn lemma_offers(list: Seq<Capability>, n: int, name: Seq<u8>)
    requires
        0 <= n < list.len(),
    ensures
        offers(list.take(n + 1), name) == (offers(list.take(n), name) || list[n].name == name),
{
    let (a, b) = (list.take(n), list.take(n + 1));
    if offers(a, name) {
        let i = choose|i: int| 0 <= i < a.len() && (#[trigger] a[i]).name == name;
        assert(b[i].name == name);
    }
    if list[n].name == name {
        assert(b[n].name == name);
    }
    if offers(b, name) {
        let i = choose|i: int| 0 <= i < b.len() && (#[trigger] b[i]).name == name;
        if i < n {
            assert(a[i].name == name);
        }
    }
}

#[verifier::opaque]
spec fn offered(s: Seq<u8>, adv: Advertisement) -> Result<Advertisement> {
    capabilities(s, adv)
}

proof fn lemma_offered(s: Seq<u8>, line: Seq<u8>, rest: Seq<u8>, adv: Advertisement)
    requires
        head(s) == Ok::<_, Error>((PktView::Data(line.push(10)), rest)),
    ensures
        offered(s, adv) == offered(rest, with_capability(adv, line)),
{
    reveal(head);
    reveal(offered);
    lemma_trimmed(line);
    lemma_first_pkt(s);
}

proof fn lemma_all_offered(s: Seq<u8>, rest: Seq<u8>, adv: Advertisement)
    requires
        head(s) == Ok::<_, Error>((PktView::Flush, rest)),
    ensures
        offered(s, adv) == Ok::<_, Error>(adv),
{
    reveal(head);
    reveal(offered);
}

proof fn lemma_next_capability(list: Seq<Capability>, n: int)
    requires
        0 <= n < list.len(),
        is_capability(list[n]),
    ensures
        with_capability(so_far(list, n), capability_text(list[n])) == so_far(list, n + 1),
{
    lemma_capability(so_far(list, n), list[n]);
    lemma_offers(list, n, lit("ls-refs"));
    lemma_offers(list, n, lit("fetch"));
    assert(list.take(n + 1).drop_last() =~= list.take(n));
    assert(list.take(n + 1).last() == list[n]);
    reveal_strlit("ls-refs");
    reveal_strlit("fetch");
    lemma_lit("ls-refs");
    lemma_lit("fetch");
    assert(lit("ls-refs").len() != lit("fetch").len());
}

proof fn lemma_capabilities(list: Seq<Capability>, n: int, rest: Seq<u8>)
    requires
        0 <= n <= list.len(),
        forall|i: int| 0 <= i < list.len() ==> is_capability(#[trigger] list[i]),
        lines_fit(capability_lines(list)),
    ensures
        offered(framed(capability_lines(list).skip(n)) + (lit("0000") + rest), so_far(list, n)) == Ok::<
            _,
            Error,
        >(so_far(list, list.len() as int)),
    decreases list.len() - n,
{
    let all = capability_lines(list);
    let lines = all.skip(n);
    let end = lit("0000") + rest;
    if n == list.len() {
        lemma_head_separators(rest);
        assert(lines.len() == 0);
        assert(framed(lines) + end =~= end);
        lemma_all_offered(end, rest, so_far(list, n));
    } else {
        assert forall|i: int| 0 <= i < lines.len() implies (#[trigger] lines[i]).len() < MAX_DATA_LEN by {
            assert(lines[i] == all[n + i]);
        }
        let after = framed(lines.skip(1)) + end;
        assert(lines.skip(1) =~= all.skip(n + 1));
        assert(lines[0] == capability_text(list[n]));
        lemma_framed(lines, end);
        lemma_head_line(lines[0], after);
        lemma_offered(pkt_line(lines[0]) + after, lines[0], after, so_far(list, n));
        assert(is_capability(list[n]));
        lemma_next_capability(list, n);
        lemma_capabilities(list, n + 1, rest);
    }
}

/// The announcement of a service, which some servers send before what they have to say.
pub open spec fn announcement(service: Seq<u8>) -> Seq<u8> {
    pkt_line(lit("# service=") + service) + lit("0000")
}

/// The first frame after an announcement.
#[verifier::opaque]
spec fn started(s: Seq<u8>) -> Result<(PktView, Seq<u8>)> {
    first_announced(s)
}

/// A first line that is no announcement.
proof fn lemma_unannounced(body: Seq<u8>, line: Seq<u8>, rest: Seq<u8>)
    requires
        head(body) == Ok::<_, Error>((PktView::Data(line.push(10)), rest)),
        line.len() > 0,
        line[0] != 35,
    ensures
        started(body) == Ok::<_, Error>((PktView::Data(line.push(10)), rest)),
{
    reveal(head);
    reveal(started);
    lemma_trimmed(line);
    reveal_strlit("# service=");
    lemma_lit("# service=");
    lemma_no_prefix(line, lit("# service="), 0);
}

proof fn lemma_announced(s: Seq<u8>, service: Seq<u8>, flush: Seq<u8>, body: Seq<u8>)
    requires
        head(s) == Ok::<_, Error>((PktView::Data((lit("# service=") + service).push(10)), flush)),
        head(flush) == Ok::<_, Error>((PktView::Flush, body)),
    ensures
        started(s) == head(body),
{
    reveal(head);
    reveal(started);
    let line = lit("# service=") + service;
    lemma_trimmed(line);
    lemma_prefix(lit("# service="), service);
}

/// The first line is found with and without an announcement.
proof fn lemma_started(service: Seq<u8>, line: Seq<u8>, rest: Seq<u8>, body: Seq<u8>)
    requires
        service.len() + 10 < MAX_DATA_LEN,
        0 < line.len() < MAX_DATA_LEN,
        line[0] != 35,
        body == pkt_line(line) + rest,
    ensures
        started(body) == Ok::<_, Error>((PktView::Data(line.push(10)), rest)),
        started(announcement(service) + body) == Ok::<_, Error>((PktView::Data(line.push(10)), rest)),
{
    let name = lit("# service=") + service;
    let flush = lit("0000") + body;
    lemma_head_line(line, rest);
    lemma_unannounced(body, line, rest);
    assert(name.len() < MAX_DATA_LEN) by {
        reveal_strlit("# service=");
        lemma_lit("# service=");
    }
    lemma_head_line(name, flush);
    lemma_head_separators(body);
    assert(announcement(service) + body =~= pkt_line(name) + flush);
    lemma_announced(pkt_line(name) + flush, service, flush, body);
}

#[verifier::opaque]
spec fn advertised(s: Seq<u8>) -> Result<Advertisement> {
    advertisement(s)
}

proof fn lemma_advertised(body: Seq<u8>, lines: Seq<u8>, found: Advertisement)
    requires
        started(body) == Ok::<_, Error>((PktView::Data(lit("version 2").push(10)), lines)),
        offered(lines, (Advertisement { ls_refs: false, fetch: false, fetch_shallow: false })) == Ok::<
            _,
            Error,
        >(found),
    ensures
        advertised(body) == Ok::<_, Error>(found),
{
    reveal(started);
    reveal(offered);
    reveal(advertised);
    lemma_trimmed(lit("version 2"));
}

/// What a server says that offers the capabilities.
pub open spec fn offering(list: Seq<Capability>) -> Advertisement {
    Advertisement {
        ls_refs: offers(list, lit("ls-refs")),
        fetch: offers(list, lit("fetch")),
        fetch_shallow: offers_shallow(list),
    }
}

proof fn lemma_offering(list: Seq<Capability>, rest: Seq<u8>)
    requires
        forall|i: int| 0 <= i < list.len() ==> is_capability(#[trigger] list[i]),
        lines_fit(capability_lines(list)),
    ensures
        offered(
            framed(capability_lines(list)) + (lit("0000") + rest),
            (Advertisement { ls_refs: false, fetch: false, fetch_shallow: false }),
        ) == Ok::<_, Error>(offering(list)),
{
    let texts = capability_lines(list);
    assert(texts.skip(0) =~= texts);
    assert(list.take(0) =~= Seq::<Capability>::empty());
    assert(list.take(list.len() as int) =~= list);
    lemma_capabilities(list, 0, rest);
}

proof fn lemma_offering_advertised(service: Seq<u8>, list: Seq<Capability>, rest: Seq<u8>, body: Seq<u8>)
    requires
        service.len() + 10 < MAX_DATA_LEN,
        forall|i: int| 0 <= i < list.len() ==> is_capability(#[trigger] list[i]),
        lines_fit(capability_lines(list)),
        body == pkt_line(lit("version 2")) + (framed(capability_lines(list)) + (lit("0000") + rest)),
    ensures
        advertised(body) == Ok::<_, Error>(offering(list)),
        advertised(announcement(service) + body) == Ok::<_, Error>(offering(list)),
{
    let lines = framed(capability_lines(list)) + (lit("0000") + rest);
    lemma_offering(list, rest);
    assert(0 < lit("version 2").len() < MAX_DATA_LEN && lit("version 2")[0] != 35) by {
        reveal_strlit("version 2");
        lemma_lit("version 2");
    }
    lemma_started(service, lit("version 2"), lines, body);
    lemma_advertised(body, lines, offering(list));
    lemma_advertised(announcement(service) + body, lines, offering(list));
}

proof fn lemma_is_advertised(s: Seq<u8>)
    ensures
        advertised(s) == advertisement(s),
{
    reveal(advertised);
}

/// A server of version 2 can list refs and send packs exactly where it says so, whether or not it
/// announces its service first.
pub proof fn capabilities_are_those_that_are_offered(
    service: Seq<u8>,
    list: Seq<Capability>,
    rest: Seq<u8>,
    body: Seq<u8>,
)
    requires
        service.len() + 10 < MAX_DATA_LEN,
        forall|i: int| 0 <= i < list.len() ==> is_capability(#[trigger] list[i]),
        lines_fit(capability_lines(list)),
        body == pkt_line(lit("version 2")) + (framed(capability_lines(list)) + (lit("0000") + rest)),
    ensures
        advertisement(body) == Ok::<_, Error>(offering(list)),
        advertisement(announcement(service) + body) == Ok::<_, Error>(offering(list)),
{
    lemma_offering_advertised(service, list, rest, body);
    lemma_is_advertised(body);
    lemma_is_advertised(announcement(service) + body);
}

// --- the other side of a push ------------------------------------------------------------------------------

/// The line of a ref.
pub open spec fn named_line(r: (Seq<u8>, Seq<u8>)) -> Seq<u8> {
    to_hex(r.1) + seq![32u8] + r.0
}

pub open spec fn is_named(r: (Seq<u8>, Seq<u8>)) -> bool {
    r.1.len() == 20 && r.0 != lit("capabilities^{}")
}

proof fn lemma_named(refs: Seq<(Seq<u8>, Seq<u8>)>, r: (Seq<u8>, Seq<u8>))
    requires
        r.1.len() == 20,
    ensures
        with_ref(refs, named_line(r)) == Ok::<_, Error>(
            if r.0 == lit("capabilities^{}") {
                refs
            } else {
                refs.push(r)
            },
        ),
{
    lemma_hex_is_a_word(r.1);
    lemma_cut(to_hex(r.1), 32, r.0);
    assert(to_hex(r.1).push(32) + r.0 =~= named_line(r));
    hex_round_trip(r.1);
}

#[verifier::opaque]
spec fn named(s: Seq<u8>, refs: Seq<(Seq<u8>, Seq<u8>)>) -> Result<Seq<(Seq<u8>, Seq<u8>)>> {
    refs_until_flush(s, refs)
}

proof fn lemma_next_named(
    s: Seq<u8>,
    line: Seq<u8>,
    rest: Seq<u8>,
    refs: Seq<(Seq<u8>, Seq<u8>)>,
    more: Seq<(Seq<u8>, Seq<u8>)>,
)
    requires
        head(s) == Ok::<_, Error>((PktView::Data(line.push(10)), rest)),
        with_ref(refs, line) == Ok::<_, Error>(more),
    ensures
        named(s, refs) == named(rest, more),
{
    reveal(head);
    reveal(named);
    lemma_trimmed(line);
    lemma_first_pkt(s);
}

proof fn lemma_all_named(s: Seq<u8>, rest: Seq<u8>, refs: Seq<(Seq<u8>, Seq<u8>)>)
    requires
        head(s) == Ok::<_, Error>((PktView::Flush, rest)),
    ensures
        named(s, refs) == Ok::<_, Error>(refs),
{
    reveal(head);
    reveal(named);
}

/// The lines of refs.
pub open spec fn named_lines(list: Seq<(Seq<u8>, Seq<u8>)>) -> Seq<Seq<u8>> {
    list.map_values(|r: (Seq<u8>, Seq<u8>)| named_line(r))
}

proof fn lemma_named_lines(list: Seq<(Seq<u8>, Seq<u8>)>, rest: Seq<u8>, refs: Seq<(Seq<u8>, Seq<u8>)>)
    requires
        forall|i: int| 0 <= i < list.len() ==> is_named(#[trigger] list[i]),
        lines_fit(named_lines(list)),
    ensures
        named(framed(named_lines(list)) + (lit("0000") + rest), refs) == Ok::<_, Error>(refs + list),
    decreases list.len(),
{
    let lines = named_lines(list);
    let end = lit("0000") + rest;
    if list.len() == 0 {
        lemma_head_separators(rest);
        lemma_all_named(end, rest, refs);
        assert(framed(lines) + end =~= end);
        assert(refs + list =~= refs);
    } else {
        let more = list.skip(1);
        let after = framed(lines.skip(1)) + end;
        assert(lines.skip(1) =~= named_lines(more));
        lemma_framed(lines, end);
        lemma_head_line(lines[0], after);
        assert(is_named(list[0]));
        lemma_named(refs, list[0]);
        lemma_next_named(pkt_line(lines[0]) + after, lines[0], after, refs, refs.push(list[0]));
        assert forall|i: int| 0 <= i < more.len() implies is_named(#[trigger] more[i]) by {
            assert(more[i] == list[i + 1]);
        }
        lemma_named_lines(more, rest, refs.push(list[0]));
        assert(refs.push(list[0]) + more =~= refs + list);
    }
}

#[verifier::opaque]
spec fn receives(s: Seq<u8>) -> Result<ReceiveView> {
    receive_advertisement(s)
}

proof fn lemma_is_received(s: Seq<u8>)
    ensures
        receives(s) == receive_advertisement(s),
{
    reveal(receives);
}

/// The first line of a server that is pushed to: a ref, and what the server can do.
pub open spec fn receiving_line(first: (Seq<u8>, Seq<u8>), words: Seq<Seq<u8>>) -> Seq<u8> {
    named_line(first) + seq![0u8] + spaced(words)
}

/// What a server says that is pushed to.
pub open spec fn receiving(words: Seq<Seq<u8>>, refs: Seq<(Seq<u8>, Seq<u8>)>) -> ReceiveView {
    ReceiveView {
        refs,
        report_status: words.contains(lit("report-status")),
        side_band_64k: words.contains(lit("side-band-64k")),
        delete_refs: words.contains(lit("delete-refs")),
    }
}

proof fn lemma_receives(
    body: Seq<u8>,
    start: (Seq<u8>, Seq<u8>),
    words: Seq<Seq<u8>>,
    lines: Seq<u8>,
    first: Seq<(Seq<u8>, Seq<u8>)>,
    refs: Seq<(Seq<u8>, Seq<u8>)>,
)
    requires
        started(body) == Ok::<_, Error>((PktView::Data(receiving_line(start, words).push(10)), lines)),
        !named_line(start).contains(0),
        words.len() > 0,
        are_words(words),
        with_ref(Seq::empty(), named_line(start)) == Ok::<_, Error>(first),
        named(lines, first) == Ok::<_, Error>(refs),
    ensures
        receives(body) == Ok::<_, Error>(receiving(words, refs)),
{
    reveal(started);
    reveal(named);
    reveal(receives);
    let line = receiving_line(start, words);
    lemma_trimmed(line);
    lemma_cut(named_line(start), 0, spaced(words));
    assert(named_line(start).push(0) + spaced(words) =~= line);
    lemma_spaced(words);
}

proof fn lemma_named_line(r: (Seq<u8>, Seq<u8>))
    requires
        r.1.len() == 20,
        !r.0.contains(0),
    ensures
        !named_line(r).contains(0),
        named_line(r).len() > 0,
        named_line(r)[0] != 35,
{
    let line = named_line(r);
    assert forall|i: int| 0 <= i < line.len() implies line[i] != 0 by {
        if i > to_hex(r.1).len() {
            assert(line[i] == r.0[i - to_hex(r.1).len() - 1]);
            assert(r.0.contains(line[i]));
        }
    }
    assert(line[0] == to_hex(r.1)[0]);
}

/// The refs of a server that is pushed to are those of its lines; the first also names what it can do.
/// A repository without refs has a line for that.
pub proof fn refs_to_push_to_are_read(
    service: Seq<u8>,
    first: (Seq<u8>, Seq<u8>),
    words: Seq<Seq<u8>>,
    list: Seq<(Seq<u8>, Seq<u8>)>,
    rest: Seq<u8>,
    body: Seq<u8>,
)
    requires
        service.len() + 10 < MAX_DATA_LEN,
        first.1.len() == 20,
        !first.0.contains(0),
        words.len() > 0,
        are_words(words),
        forall|i: int| 0 <= i < list.len() ==> is_named(#[trigger] list[i]),
        lines_fit(named_lines(list)),
        receiving_line(first, words).len() < MAX_DATA_LEN,
        body == pkt_line(receiving_line(first, words)) + (framed(named_lines(list)) + (lit("0000") + rest)),
    ensures
        ({
            let refs = if first.0 == lit("capabilities^{}") {
                list
            } else {
                seq![first] + list
            };
            &&& receive_advertisement(body) == Ok::<_, Error>(receiving(words, refs))
            &&& receive_advertisement(announcement(service) + body) == Ok::<_, Error>(
                receiving(words, refs),
            )
        }),
{
    let line = receiving_line(first, words);
    let lines = framed(named_lines(list)) + (lit("0000") + rest);
    let none = Seq::<(Seq<u8>, Seq<u8>)>::empty();
    lemma_named(none, first);
    lemma_named_line(first);
    let start = if first.0 == lit("capabilities^{}") {
        none
    } else {
        none.push(first)
    };
    let refs = if first.0 == lit("capabilities^{}") {
        list
    } else {
        seq![first] + list
    };
    lemma_named_lines(list, rest, start);
    assert(start + list =~= refs);
    assert(line[0] == named_line(first)[0]);
    lemma_started(service, line, lines, body);
    lemma_receives(body, first, words, lines, start, refs);
    lemma_receives(announcement(service) + body, first, words, lines, start, refs);
    lemma_is_received(body);
    lemma_is_received(announcement(service) + body);
}

// --- reports ------------------------------------------------------------------------------------------------

/// What a server says of one ref.
pub open spec fn result_line(r: ResultView) -> Seq<u8> {
    match r.1 {
        None => lit("ok ") + r.0,
        Some(reason) => lit("ng ") + r.0 + seq![32u8] + reason,
    }
}

pub open spec fn result_lines(results: Seq<ResultView>) -> Seq<Seq<u8>> {
    results.map_values(|r: ResultView| result_line(r))
}

pub open spec fn is_result(r: ResultView) -> bool {
    r.1 is Some ==> !r.0.contains(32)
}

/// The report on an update: what became of the pack, a line for each ref, and a flush.
pub open spec fn report_text(unpacked: Seq<u8>, results: Seq<ResultView>) -> Seq<u8> {
    framed(
        seq![lit("unpack ") + unpacked] + result_lines(results),
    ) + lit("0000")
}

proof fn lemma_report_words()
    ensures
        lit("unpack ").len() == 7 && lit("unpack ")[0] == 117,
        lit("ok ").len() == 3 && lit("ok ")[0] == 111,
        lit("ng ").len() == 3 && lit("ng ")[0] == 110,
{
    reveal_strlit("unpack ");
    reveal_strlit("ok ");
    reveal_strlit("ng ");
    lemma_lit("unpack ");
    lemma_lit("ok ");
    lemma_lit("ng ");
}

proof fn lemma_result(report: ReportView, r: ResultView)
    requires
        is_result(r),
    ensures
        with_report_line(report, result_line(r)) == (ReportView {
            results: report.results.push(r),
            ..report
        }),
{
    lemma_report_words();
    let line = result_line(r);
    lemma_no_prefix(line, lit("unpack "), 0);
    match r.1 {
        None => {
            lemma_prefix(lit("ok "), r.0);
        },
        Some(reason) => {
            lemma_no_prefix(line, lit("ok "), 0);
            assert(line =~= lit("ng ") + (r.0 + seq![32u8] + reason));
            lemma_prefix(lit("ng "), r.0 + seq![32u8] + reason);
            lemma_cut(r.0, 32, reason);
            assert(r.0.push(32) + reason =~= r.0 + seq![32u8] + reason);
        },
    }
}

#[verifier::opaque]
spec fn reported(s: Seq<u8>, report: ReportView) -> Result<ReportView> {
    report_from(s, report)
}

proof fn lemma_report_line(s: Seq<u8>, line: Seq<u8>, rest: Seq<u8>, report: ReportView)
    requires
        head(s) == Ok::<_, Error>((PktView::Data(line.push(10)), rest)),
    ensures
        reported(s, report) == reported(rest, with_report_line(report, line)),
{
    reveal(head);
    reveal(reported);
    lemma_trimmed(line);
    lemma_first_pkt(s);
}

proof fn lemma_report_end(s: Seq<u8>, rest: Seq<u8>, report: ReportView)
    requires
        head(s) == Ok::<_, Error>((PktView::Flush, rest)),
    ensures
        reported(s, report) == Ok::<_, Error>(report),
{
    reveal(head);
    reveal(reported);
}

proof fn lemma_results(results: Seq<ResultView>, rest: Seq<u8>, report: ReportView)
    requires
        forall|i: int| 0 <= i < results.len() ==> is_result(#[trigger] results[i]),
        lines_fit(result_lines(results)),
    ensures
        reported(
            framed(result_lines(results)) + (lit("0000") + rest),
            report,
        ) == Ok::<_, Error>(ReportView { results: report.results + results, ..report }),
    decreases results.len(),
{
    let lines = result_lines(results);
    let end = lit("0000") + rest;
    if results.len() == 0 {
        lemma_head_separators(rest);
        lemma_report_end(end, rest, report);
        assert(framed(lines) + end =~= end);
        assert(report.results + results =~= report.results);
    } else {
        let more = results.skip(1);
        assert(lines.skip(1) =~= result_lines(more));
        lemma_framed(lines, end);
        let after = framed(lines.skip(1)) + end;
        lemma_head_line(lines[0], after);
        lemma_report_line(pkt_line(lines[0]) + after, lines[0], after, report);
        assert(is_result(results[0]));
        lemma_result(report, results[0]);
        assert forall|i: int| 0 <= i < more.len() implies is_result(#[trigger] more[i]) by {
            assert(more[i] == results[i + 1]);
        }
        let next = ReportView { results: report.results.push(results[0]), ..report };
        lemma_results(more, rest, next);
        assert(next.results + more =~= report.results + results);
    }
}

proof fn lemma_report(unpacked: Seq<u8>, results: Seq<ResultView>, rest: Seq<u8>)
    requires
        forall|i: int| 0 <= i < results.len() ==> is_result(#[trigger] results[i]),
        lines_fit(seq![lit("unpack ") + unpacked] + result_lines(results)),
    ensures
        reported(
            report_text(unpacked, results) + rest,
            (ReportView { unpack_ok: false, results: Seq::empty() }),
        ) == Ok::<_, Error>(ReportView { unpack_ok: unpacked == lit("ok"), results }),
{
    let first = lit("unpack ") + unpacked;
    let others = result_lines(results);
    let lines = seq![first] + others;
    let end = lit("0000") + rest;
    let none = ReportView { unpack_ok: false, results: Seq::empty() };
    assert(report_text(unpacked, results) + rest =~= framed(lines) + end);
    assert(lines.skip(1) =~= others);
    lemma_framed(lines, end);
    let after = framed(others) + end;
    lemma_head_line(first, after);
    lemma_report_line(pkt_line(first) + after, first, after, none);
    lemma_prefix(lit("unpack "), unpacked);
    let next = ReportView { unpack_ok: unpacked == lit("ok"), ..none };
    lemma_results(results, rest, next);
    assert(next.results + results =~= results);
}

#[verifier::opaque]
spec fn joined(s: Seq<u8>, all: Seq<u8>) -> Result<Seq<u8>> {
    unbanded(s, all)
}

proof fn lemma_joined(s: Seq<u8>, p: Piece, rest: Seq<u8>, all: Seq<u8>)
    requires
        head(s) == Ok::<_, Error>((PktView::Data(piece_data(p)), rest)),
    ensures
        joined(s, all) == joined(rest, all + piece_pack(p)),
{
    reveal(head);
    reveal(joined);
    lemma_piece_pack(p, all);
    lemma_first_pkt(s);
}

proof fn lemma_all_joined(s: Seq<u8>, rest: Seq<u8>, all: Seq<u8>)
    requires
        head(s) == Ok::<_, Error>((PktView::Flush, rest)),
    ensures
        joined(s, all) == Ok::<_, Error>(all),
{
    reveal(head);
    reveal(joined);
}

proof fn lemma_unbanded(list: Seq<Piece>, rest: Seq<u8>, all: Seq<u8>)
    requires
        pieces_fit(list),
    ensures
        joined(pieces_bytes(list) + (lit("0000") + rest), all) == Ok::<_, Error>(all + put_together(list)),
    decreases list.len(),
{
    let end = lit("0000") + rest;
    if list.len() == 0 {
        lemma_head_separators(rest);
        lemma_all_joined(end, rest, all);
        assert(pieces_bytes(list) + end =~= end);
        assert(all + put_together(list) =~= all);
    } else {
        let more = list.skip(1);
        let after = pieces_bytes(more) + end;
        lemma_more_pieces(list, end);
        lemma_piece(list[0], after);
        lemma_joined(piece_bytes(list[0]) + after, list[0], after, all);
        let next = all + piece_pack(list[0]);
        assert(next + put_together(more) =~= all + put_together(list));
        lemma_unbanded(more, rest, next);
    }
}

/// A report is read as it is written: whether the pack was taken in, and for each ref that it was
/// updated or why not. In pieces of a channel it says the same, however it is cut up.
pub proof fn reports_are_read_as_written(
    unpacked: Seq<u8>,
    results: Seq<ResultView>,
    list: Seq<Piece>,
    rest: Seq<u8>,
)
    requires
        forall|i: int| 0 <= i < results.len() ==> is_result(#[trigger] results[i]),
        lines_fit(seq![lit("unpack ") + unpacked] + result_lines(results)),
        pieces_fit(list),
        put_together(list) == report_text(unpacked, results),
    ensures
        report_status(report_text(unpacked, results) + rest, false) == Ok::<_, Error>(
            ReportView { unpack_ok: unpacked == lit("ok"), results },
        ),
        report_status(pieces_bytes(list) + (lit("0000") + rest), true) == Ok::<_, Error>(
            ReportView { unpack_ok: unpacked == lit("ok"), results },
        ),
{
    reveal(reported);
    reveal(joined);
    lemma_report(unpacked, results, rest);
    lemma_report(unpacked, results, Seq::empty());
    let inner = report_text(unpacked, results);
    assert(inner + Seq::<u8>::empty() =~= inner);
    lemma_unbanded(list, rest, Seq::empty());
    assert(Seq::<u8>::empty() + put_together(list) =~= inner);
}

} // verus!
