//! Packs from the side of the one who writes them.

use vstd::arithmetic::power2::{lemma2_to64, lemma_pow2_adds, lemma_pow2_pos, pow2};
use vstd::prelude::*;

use crate::delta::applied;
use crate::err::Error;
use crate::object::{object_id, Kind};
use crate::pack::cache::CacheView;
use crate::pack::entry::{
    base_at, contents_at, distance_at, distance_from, entry_at, head_at, kind_coded, size_from, BaseView,
    EntryHead,
};
use crate::pack::index::{lemma_place_found, PlaceView};
use crate::pack::laws::{
    along, at_place, has_place, index_is_in_order, lemma_one_object, lemma_parsed_named,
    lemma_resolved_deals, lemma_resolved_within, lemma_restored_sound, lemma_sorted_within, named,
    one_object, sound, stands_for,
};
use crate::pack::{be32_at, object_in, parsed, scan_step, scanned, Scan};
use crate::sort::sorted;
use crate::zlib::inflate::inflated;
use crate::zlib::prefix::trailing_bytes_are_ignored;

use super::deltas::{size_bytes, size_value};
use super::{lemma_stands_byte, lemma_stands_split, stands_at};

verus! {

// --- distances --------------------------------------------------------------------------------------

/// A number in bytes with the high bit set, the most significant first. Each number of bytes starts
/// counting where the one before it ends.
pub open spec fn lead_bytes(n: nat) -> Seq<u8>
    decreases n,
{
    if n < 128 {
        seq![(n + 128) as u8]
    } else {
        lead_bytes((n / 128 - 1) as nat).push((n % 128 + 128) as u8)
    }
}

/// A distance as it is written: the last byte has no high bit.
pub open spec fn distance_bytes(n: nat) -> Seq<u8> {
    if n < 128 {
        seq![n as u8]
    } else {
        lead_bytes((n / 128 - 1) as nat).push((n % 128) as u8)
    }
}

proof fn lemma_lead(data: Seq<u8>, p: int, end: int, n: nat)
    requires
        stands_at(data, p, lead_bytes(n)),
        p + lead_bytes(n).len() <= end,
        n < 0x1_0000_0000_0000_0000,
    ensures
        distance_at(data, p, end) == distance_from(data, p + lead_bytes(n).len(), end, n),
    decreases n,
{
    let bytes = lead_bytes(n);
    if n < 128 {
        lemma_stands_byte(data, p, bytes, 0);
        assert(data[p] % 128 == n);
    } else {
        let m = (n / 128 - 1) as nat;
        let b = (n % 128 + 128) as u8;
        assert(bytes =~= lead_bytes(m) + seq![b]);
        lemma_stands_split(data, p, lead_bytes(m), seq![b]);
        lemma_stands_byte(data, p + lead_bytes(m).len(), seq![b], 0);
        lemma_lead(data, p, end, m);
        let q = p + lead_bytes(m).len();
        assert(data[q] == b);
        assert(data[q] % 128 == n % 128);
        assert((m + 1) * 128 + n % 128 == n);
        assert(((m + 1) * 128) % 0x1_0000_0000_0000_0000 == (m + 1) * 128);
        assert(distance_from(data, q, end, m) == distance_from(data, q + 1, end, n));
    }
}

proof fn lemma_distance(data: Seq<u8>, p: int, end: int, n: nat)
    requires
        stands_at(data, p, distance_bytes(n)),
        p + distance_bytes(n).len() <= end,
        n < 0x1_0000_0000_0000_0000,
    ensures
        distance_at(data, p, end) == Ok::<_, Error>((n, p + distance_bytes(n).len())),
{
    let bytes = distance_bytes(n);
    if n < 128 {
        lemma_stands_byte(data, p, bytes, 0);
    } else {
        let m = (n / 128 - 1) as nat;
        let b = (n % 128) as u8;
        assert(bytes =~= lead_bytes(m) + seq![b]);
        lemma_stands_split(data, p, lead_bytes(m), seq![b]);
        lemma_stands_byte(data, p + lead_bytes(m).len(), seq![b], 0);
        lemma_lead(data, p, end, m);
        let q = p + lead_bytes(m).len();
        assert(data[q] == b);
        assert(((m + 1) * 128) % 0x1_0000_0000_0000_0000 == (m + 1) * 128);
        assert(distance_from(data, q, end, m) == Ok::<_, Error>((n, q + 1)));
    }
}

// --- entries ----------------------------------------------------------------------------------------

/// What an entry is written as: an object of its own, a delta on the entry that starts that many
/// bytes earlier, or a delta on the object with an id.
pub enum Form {
    Object(Kind),
    OnEarlier(nat),
    OnId(Seq<u8>),
}

/// An entry: the size of the contents in four bits and digits, and a stream that holds the contents.
pub struct Written {
    pub form: Form,
    pub low: u8,
    pub digits: Seq<u8>,
    pub stream: Seq<u8>,
    pub contents: Seq<u8>,
}

pub open spec fn number_of(form: Form) -> u8 {
    match form {
        Form::Object(Kind::Commit) => 1,
        Form::Object(Kind::Tree) => 2,
        Form::Object(Kind::Blob) => 3,
        Form::Object(Kind::Tag) => 4,
        Form::OnEarlier(_) => 6,
        Form::OnId(_) => 7,
    }
}

pub open spec fn base_bytes(form: Form) -> Seq<u8> {
    match form {
        Form::Object(_) => Seq::empty(),
        Form::OnEarlier(distance) => distance_bytes(distance),
        Form::OnId(oid) => oid,
    }
}

/// The first byte of an entry.
pub open spec fn first_byte(e: Written) -> u8 {
    (number_of(e.form) * 16 + e.low + (if e.digits.len() > 0 {
        128int
    } else {
        0
    })) as u8
}

pub open spec fn written_bytes(e: Written) -> Seq<u8> {
    seq![first_byte(e)] + (size_bytes(e.digits) + (base_bytes(e.form) + e.stream))
}

/// An entry that can stand at `offset`.
pub open spec fn can_stand(e: Written, offset: int) -> bool {
    &&& e.low < 16
    &&& forall|i: int| 0 <= i < e.digits.len() ==> #[trigger] e.digits[i] < 128
    &&& 7 * e.digits.len() < usize::BITS + 3
    &&& e.contents.len() == e.low + 16 * size_value(e.digits)
    &&& e.contents.len() <= usize::MAX
    &&& inflated(e.stream) == Ok::<_, Error>((e.contents, e.stream.len() as int))
    &&& match e.form {
        Form::Object(_) => true,
        Form::OnEarlier(distance) => distance < 0x1_0000_0000_0000_0000 && 12 <= offset - distance,
        Form::OnId(oid) => oid.len() == 20,
    }
}

/// The base of an entry at `offset`.
pub open spec fn base_of(form: Form, offset: int) -> BaseView {
    match form {
        Form::Object(_) => BaseView::Whole,
        Form::OnEarlier(distance) => BaseView::Offset(offset - distance),
        Form::OnId(oid) => BaseView::Id(oid),
    }
}

proof fn lemma_size_from(data: Seq<u8>, p: int, end: int, digits: Seq<u8>, shift: nat, low: nat)
    requires
        stands_at(data, p, size_bytes(digits)),
        p + digits.len() <= end,
        digits.len() > 0,
        shift + 7 * digits.len() < usize::BITS + 7,
        forall|i: int| 0 <= i < digits.len() ==> #[trigger] digits[i] < 128,
        low + pow2(shift) * size_value(digits) <= usize::MAX,
    ensures
        size_from(data, p, end, shift, low) == Ok::<_, Error>(
            (low + pow2(shift) * size_value(digits), p + digits.len()),
        ),
    decreases digits.len(),
{
    let bytes = size_bytes(digits);
    lemma_stands_byte(data, p, bytes, 0);
    lemma_pow2_pos(shift);
    let w = pow2(shift) as int;
    let rest = digits.skip(1);
    let d = digits[0] as int;
    let more = size_value(rest) as int;
    lemma2_to64();
    lemma_pow2_adds(shift, 7);
    assert(w * (d + 128 * more) == d * w + (w * 128) * more) by (nonlinear_arith);
    assert((w * 128) * more >= 0) by (nonlinear_arith)
        requires
            w > 0,
            more >= 0,
    ;
    assert(d * w >= 0) by (nonlinear_arith)
        requires
            w > 0,
            d >= 0,
    ;
    assert(data[p] % 128 == d);
    vstd::arithmetic::div_mod::lemma_small_mod((low + d * w) as nat, (usize::MAX + 1) as nat);
    assert((low + (data[p] % 128) as nat * pow2(shift)) % (usize::MAX + 1) as nat == low + d * w);
    if digits.len() > 1 {
        assert(data[p] == d + 128);
        assert(bytes =~= seq![bytes[0]] + size_bytes(rest));
        lemma_stands_split(data, p, seq![bytes[0]], size_bytes(rest));
        let v = (low + d * w) as nat;
        assert(pow2(shift + 7) == w * 128);
        lemma_size_from(data, p + 1, end, rest, shift + 7, v);
        assert(size_from(data, p, end, shift, low) == size_from(data, p + 1, end, shift + 7, v));
        assert(v + pow2(shift + 7) * size_value(rest) == low + pow2(shift) * size_value(digits));
    } else {
        assert(rest =~= Seq::<u8>::empty());
        assert(more == 0);
        assert(size_value(digits) == d);
        assert(w * d == d * w) by (nonlinear_arith);
    }
}

proof fn lemma_head(data: Seq<u8>, offset: int, end: int, e: Written)
    requires
        stands_at(data, offset, seq![first_byte(e)]),
        stands_at(data, offset + 1, size_bytes(e.digits)),
        offset + 1 + e.digits.len() <= end,
        can_stand(e, offset),
    ensures
        head_at(data, offset, end) == Ok::<_, Error>(
            (number_of(e.form), e.contents.len(), offset + 1 + e.digits.len()),
        ),
{
    lemma_stands_byte(data, offset, seq![first_byte(e)], 0);
    let b = data[offset];
    let n = number_of(e.form);
    assert(n <= 7);
    assert(b == n * 16 + e.low + (if e.digits.len() > 0 {
        128int
    } else {
        0
    }));
    assert(b / 16 % 8 == n);
    assert(b % 16 == e.low);
    if e.digits.len() > 0 {
        lemma2_to64();
        assert(pow2(4) == 16);
        lemma_size_from(data, offset + 1, end, e.digits, 4, e.low as nat);
    } else {
        assert(size_value(e.digits) == 0);
    }
}

/// An entry is read as it is written: its number, the size, the base and the contents, and what
/// follows it starts where it ends.
pub proof fn entries_are_read_as_written(data: Seq<u8>, offset: int, end: int, e: Written)
    requires
        stands_at(data, offset, written_bytes(e)),
        offset + written_bytes(e).len() <= end <= data.len(),
        can_stand(e, offset),
    ensures
        ({
            let start = offset + 1 + e.digits.len() + base_bytes(e.form).len();
            &&& entry_at(data, offset, end) == Ok::<_, Error>(
                EntryHead {
                    code: number_of(e.form),
                    size: e.contents.len(),
                    base: base_of(e.form, offset),
                    start,
                },
            )
            &&& contents_at(data, start, end, e.contents.len()) == Ok::<_, Error>(
                (e.contents, e.stream.len() as int),
            )
            &&& start + e.stream.len() == offset + written_bytes(e).len()
        }),
        e.form matches Form::Object(kind) ==> kind_coded(number_of(e.form)) == kind,
{
    let first = seq![first_byte(e)];
    let size = size_bytes(e.digits);
    let base = base_bytes(e.form);
    lemma_stands_split(data, offset, first, size + (base + e.stream));
    lemma_stands_split(data, offset + 1, size, base + e.stream);
    let p = offset + 1 + e.digits.len();
    lemma_stands_split(data, p, base, e.stream);
    let start = p + base.len();
    lemma_head(data, offset, end, e);
    assert(base_at(data, number_of(e.form), p, offset, end) == Ok::<_, Error>(
        (base_of(e.form, offset), start),
    )) by {
        match e.form {
            Form::Object(_) => {},
            Form::OnEarlier(distance) => {
                lemma_distance(data, p, end, distance);
            },
            Form::OnId(oid) => {
                assert(data.subrange(p, p + 20) == oid);
            },
        }
    }
    reveal(entry_at);
    reveal(contents_at);
    let tail = data.subrange(start + e.stream.len(), end);
    assert(data.subrange(start, end) =~= data.subrange(start, start + e.stream.len()) + tail);
    trailing_bytes_are_ignored(e.stream, tail);
}

// --- the whole pack ---------------------------------------------------------------------------------

pub open spec fn all_bytes(list: Seq<Written>) -> Seq<u8>
    decreases list.len(),
{
    if list.len() == 0 {
        Seq::empty()
    } else {
        written_bytes(list[0]) + all_bytes(list.skip(1))
    }
}

/// Where the `k`-th entry starts in a pack.
pub open spec fn position(list: Seq<Written>, k: int) -> int {
    12int + all_bytes(list.take(k)).len()
}

/// The entries stand in the pack one after the other, from its head to its checksum.
pub open spec fn holds_entries(data: Seq<u8>, list: Seq<Written>) -> bool {
    &&& data.len() == 12 + all_bytes(list).len() + 20
    &&& be32_at(data, 8) == list.len()
    &&& stands_at(data, 12, all_bytes(list))
    &&& forall|k: int| 0 <= k < list.len() ==> can_stand(#[trigger] list[k], position(list, k))
}

proof fn lemma_all_bytes(a: Seq<Written>, b: Seq<Written>)
    ensures
        all_bytes(a + b) == all_bytes(a) + all_bytes(b),
    decreases a.len(),
{
    if a.len() == 0 {
        assert(a + b =~= b);
        assert(all_bytes(a) + all_bytes(b) =~= all_bytes(b));
    } else {
        assert((a + b).skip(1) =~= a.skip(1) + b);
        assert((a + b)[0] == a[0]);
        lemma_all_bytes(a.skip(1), b);
        assert(all_bytes(a + b) =~= all_bytes(a) + all_bytes(b));
    }
}

proof fn lemma_position(data: Seq<u8>, list: Seq<Written>, k: int)
    requires
        holds_entries(data, list),
        0 <= k < list.len(),
    ensures
        12 <= position(list, k),
        stands_at(data, position(list, k), written_bytes(list[k])),
        position(list, k) + written_bytes(list[k]).len() == position(list, k + 1),
        position(list, k + 1) <= data.len() - 20,
{
    let (a, b) = (list.take(k), list.skip(k));
    assert(list =~= a + b);
    lemma_all_bytes(a, b);
    lemma_stands_split(data, 12, all_bytes(a), all_bytes(b));
    assert(b[0] == list[k]);
    lemma_stands_split(data, position(list, k), written_bytes(b[0]), all_bytes(b.skip(1)));
    let one = seq![list[k]];
    assert(list.take(k + 1) =~= a + one);
    lemma_all_bytes(a, one);
    assert(one.skip(1) =~= Seq::<Written>::empty());
    assert(all_bytes(one.skip(1)) =~= Seq::<u8>::empty());
    assert(all_bytes(one) =~= written_bytes(list[k]));
    lemma_all_bytes(list.take(k + 1), list.skip(k + 1));
    assert(list =~= list.take(k + 1) + list.skip(k + 1));
}

/// What is known after the first entries of a pack.
spec fn looked_through(s: Scan, list: Seq<Written>, n: int) -> bool {
    &&& s.offset == position(list, n)
    &&& forall|k: int|
        0 <= k < n ==> match (#[trigger] list[k]).form {
            Form::Object(kind) => s.places.contains(
                PlaceView { oid: object_id(kind, list[k].contents), offset: position(list, k) },
            ),
            _ => s.pending.contains(position(list, k)),
        }
}

proof fn lemma_step(data: Seq<u8>, list: Seq<Written>, n: int, s: Scan)
    requires
        holds_entries(data, list),
        0 <= n < list.len(),
        looked_through(s, list, n),
    ensures
        scan_step(data, data.len() - 20, s) matches Ok(t) && looked_through(t, list, n + 1),
{
    let end = data.len() - 20;
    let p = position(list, n);
    let e = list[n];
    lemma_position(data, list, n);
    assert(can_stand(list[n], p));
    entries_are_read_as_written(data, p, end, e);
    let t = scan_step(data, end, s)->Ok_0;
    assert(t.offset == position(list, n + 1));
    match e.form {
        Form::Object(kind) => {
            let place = PlaceView { oid: object_id(kind, e.contents), offset: p };
            assert(t.places == s.places.push(place));
            assert(t.places[s.places.len() as int] == place);
        },
        _ => {
            assert(t.pending == s.pending.push(p));
            assert(t.pending[s.pending.len() as int] == p);
        },
    }
    assert forall|k: int| 0 <= k < n + 1 implies match (#[trigger] list[k]).form {
        Form::Object(kind) => t.places.contains(
            PlaceView { oid: object_id(kind, list[k].contents), offset: position(list, k) },
        ),
        _ => t.pending.contains(position(list, k)),
    } by {
        if k < n {
            match list[k].form {
                Form::Object(kind) => {
                    let place = PlaceView {
                        oid: object_id(kind, list[k].contents),
                        offset: position(list, k),
                    };
                    let i = choose|i: int| 0 <= i < s.places.len() && s.places[i] == place;
                    assert(t.places[i] == place);
                },
                _ => {
                    let q = position(list, k);
                    let i = choose|i: int| 0 <= i < s.pending.len() && s.pending[i] == q;
                    assert(t.pending[i] == q);
                },
            }
        }
    }
}

proof fn lemma_scanned(data: Seq<u8>, list: Seq<Written>, n: int, s: Scan)
    requires
        holds_entries(data, list),
        0 <= n <= list.len(),
        looked_through(s, list, n),
    ensures
        scanned(data, data.len() - 20, (list.len() - n) as nat, s) matches Ok(t) && looked_through(
            t,
            list,
            list.len() as int,
        ),
    decreases list.len() - n,
{
    if n < list.len() {
        lemma_step(data, list, n, s);
        let t = scan_step(data, data.len() - 20, s)->Ok_0;
        lemma_scanned(data, list, n + 1, t);
    }
}

/// The index of a pack has a place for every entry that was written, and for each object of its own
/// the id of what was written.
pub proof fn every_written_entry_has_a_place(data: Seq<u8>, cache_bytes: nat, list: Seq<Written>, k: int)
    requires
        holds_entries(data, list),
        parsed(data, cache_bytes) is Ok,
        0 <= k < list.len(),
    ensures
        parsed(data, cache_bytes) matches Ok(index) && {
            &&& index.len() == list.len()
            &&& exists|i: int| 0 <= i < index.len() && (#[trigger] index[i]).offset == position(list, k)
            &&& forall|i: int, kind: Kind|
                0 <= i < index.len() && (#[trigger] index[i]).offset == position(list, k) && list[k].form
                    == Form::Object(kind) ==> index[i].oid == #[trigger] object_id(kind, list[k].contents)
        },
{
    let end = data.len() - 20;
    let start = Scan { places: Seq::empty(), pending: Seq::empty(), offset: 12 };
    let index = parsed(data, cache_bytes)->Ok_0;
    assert(list.take(0) =~= Seq::<Written>::empty());
    lemma_scanned(data, list, 0, start);
    let s = scanned(data, end, list.len(), start)->Ok_0;
    let cache = CacheView::empty(cache_bytes);
    let first = sorted(s.places);
    index_is_in_order(data, cache_bytes);
    lemma_sorted_within(s.places);
    lemma_resolved_within(data, end, first, s.pending, cache);
    let p = position(list, k);
    lemma_resolved_deals(data, end, first, s.pending, cache, p);
    match list[k].form {
        Form::Object(kind) => {
            let place = PlaceView { oid: object_id(kind, list[k].contents), offset: p };
            let i = choose|i: int| 0 <= i < s.places.len() && s.places[i] == place;
            assert(first.contains(s.places[i]));
            let j = choose|j: int| 0 <= j < first.len() && first[j] == place;
            assert(index.contains(first[j]));
            let m = choose|m: int| 0 <= m < index.len() && index[m] == place;
            assert(index[m].offset == p);
            assert forall|i: int, other: Kind|
                0 <= i < index.len() && (#[trigger] index[i]).offset == p && list[k].form == Form::Object(
                    other,
                ) implies index[i].oid == #[trigger] object_id(other, list[k].contents) by {
                if i < m {
                    assert(index[i].offset != index[m].offset);
                } else if m < i {
                    assert(index[m].offset != index[i].offset);
                }
            }
        },
        _ => {
            assert(has_place(index, p));
        },
    }
}

// --- deltas -------------------------------------------------------------------------------------------

/// What is read from a place is what its entry stands for.
proof fn lemma_read(data: Seq<u8>, index: Seq<PlaceView>, oid: Seq<u8>, x: (Kind, Seq<u8>)) -> (offset: int)
    requires
        object_in(data, index, oid) == Ok::<_, Error>(Some(x)),
    ensures
        at_place(index, oid, offset),
        stands_for(data, data.len() - 20, index, offset, x),
{
    let end = data.len() - 20;
    lemma_place_found(index, oid);
    let offset = crate::pack::index::place_of(index, oid)->0;
    let i = choose|i: int|
        0 <= i < index.len() && (#[trigger] index[i]).oid == oid && index[i].offset == offset;
    assert(index[i] == PlaceView { oid, offset });
    assert(sound(data, end, index, CacheView::absent()));
    lemma_restored_sound(data, end, index, CacheView::absent(), offset, 0);
    offset
}

/// An entry that is a delta has the kind of its base and the id of what the delta makes of it,
/// whether the base is given by its position or by its id. No id names two different objects of
/// the pack.
pub proof fn deltas_have_the_ids_of_what_they_make(
    data: Seq<u8>,
    cache_bytes: nat,
    i: int,
    j: int,
    h: EntryHead,
    kind: Kind,
    body: Seq<u8>,
    delta: Seq<u8>,
    n: int,
    out: Seq<u8>,
)
    requires
        parsed(data, cache_bytes) matches Ok(index) && {
            &&& one_object(data, data.len() - 20, index)
            &&& 0 <= i < index.len()
            &&& 0 <= j < index.len()
            &&& entry_at(data, index[i].offset, data.len() - 20) == Ok::<_, Error>(h)
            &&& h.base == BaseView::Offset(index[j].offset) || h.base == BaseView::Id(index[j].oid)
            &&& object_in(data, index, index[j].oid) == Ok::<_, Error>(Some((kind, body)))
        },
        contents_at(data, h.start, data.len() - 20, h.size) == Ok::<_, Error>((delta, n)),
        applied(body, delta) == Ok::<_, Error>(out),
    ensures
        parsed(data, cache_bytes)->Ok_0[i].oid == object_id(kind, out),
{
    let end = data.len() - 20;
    let index = parsed(data, cache_bytes)->Ok_0;
    lemma_parsed_named(data, cache_bytes);
    let p = index[i];
    assert(named(data, end, index, p));
    let x = choose|x: (Kind, Seq<u8>)| #[trigger]
        stands_for(data, end, index, p.offset, x) && object_id(x.0, x.1) == p.oid;
    let path = choose|path: Seq<int>| #[trigger]
        along(data, end, index, path) == Some(x) && path[0] == p.offset;
    let y = along(data, end, index, path.skip(1))->0;
    let base = path[1];
    assert(stands_for(data, end, index, base, y));
    let place = lemma_read(data, index, index[j].oid, (kind, body));
    assert(index[j] == PlaceView { oid: index[j].oid, offset: index[j].offset });
    assert(at_place(index, index[j].oid, index[j].offset));
    assert(at_place(index, index[j].oid, base));
    lemma_one_object(data, end, index, index[j].oid, base, place, y, (kind, body));
}

} // verus!
