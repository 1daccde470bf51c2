//! The index of a pack: object ids and the positions of their entries, in order.

use vstd::prelude::*;

use crate::bytes::lex_less;
use crate::oid::Oid;
use crate::sort::{in_order, lemma_total, lemma_transitive, HasKey, Keyed};
use crate::zlib::inflate::be32;

verus! {

/// Where an object is.
pub struct PlaceView {
    pub oid: Seq<u8>,
    pub offset: int,
}

/// Where an object is.
#[derive(Debug, Clone, Copy)]
pub struct Place {
    pub oid: Oid,
    pub offset: u32,
}

impl View for Place {
    type V = PlaceView;

    open spec fn view(&self) -> PlaceView {
        PlaceView { oid: self.oid@, offset: self.offset as int }
    }
}

pub open spec fn place_views(s: Seq<Place>) -> Seq<PlaceView> {
    s.map_values(|p: Place| p@)
}

impl HasKey for PlaceView {
    /// First by the id, then by the position.
    open spec fn key(&self) -> Seq<u8> {
        self.oid + be32(self.offset as u32)
    }
}

impl HasKey for Place {
    open spec fn key(&self) -> Seq<u8> {
        self@.key()
    }
}

/// The order of byte strings in two parts.
proof fn lemma_less_concat(a: Seq<u8>, x: Seq<u8>, b: Seq<u8>, y: Seq<u8>)
    requires
        a.len() == b.len(),
    ensures
        lex_less(a + x, b + y) == (lex_less(a, b) || (a == b && lex_less(x, y))),
    decreases a.len(),
{
    if a.len() == 0 {
        assert(a + x =~= x);
        assert(b + y =~= y);
        assert(a =~= b);
    } else {
        assert((a + x).skip(1) =~= a.skip(1) + x);
        assert((b + y).skip(1) =~= b.skip(1) + y);
        lemma_less_concat(a.skip(1), x, b.skip(1), y);
        assert(a =~= seq![a[0]] + a.skip(1));
        assert(b =~= seq![b[0]] + b.skip(1));
    }
}

proof fn lemma_be32_less(a: u32, b: u32)
    ensures
        lex_less(be32(a), be32(b)) == (a < b),
{
    let (x, y) = (be32(a), be32(b));
    reveal_with_fuel(lex_less, 5);
    assert(x.skip(1)[0] == x[1] && x.skip(1).skip(1)[0] == x[2] && x.skip(1).skip(1).skip(1)[0] == x[3]);
    assert(y.skip(1)[0] == y[1] && y.skip(1).skip(1)[0] == y[2] && y.skip(1).skip(1).skip(1)[0] == y[3]);
    assert(a == 16777216 * (a / 16777216) + 65536 * (a / 65536 % 256) + 256 * (a / 256 % 256) + a % 256);
    assert(b == 16777216 * (b / 16777216) + 65536 * (b / 65536 % 256) + 256 * (b / 256 % 256) + b % 256);
}

impl Keyed for Place {
    fn goes_before(&self, other: &Self) -> (r: bool) {
        proof {
            self.oid.lemma_len();
            other.oid.lemma_len();
            lemma_less_concat(self.oid@, be32(self.offset), other.oid@, be32(other.offset));
            lemma_be32_less(self.offset, other.offset);
            lemma_total(self.oid@, other.oid@);
        }
        if self.oid.less(&other.oid) {
            true
        } else if other.oid.less(&self.oid) {
            false
        } else {
            self.offset < other.offset
        }
    }
}

/// The index has a place of the id.
pub open spec fn has_id(index: Seq<PlaceView>, oid: Seq<u8>) -> bool {
    exists|i: int| 0 <= i < index.len() && (#[trigger] index[i]).oid == oid
}

/// No id comes before a lesser one.
pub open spec fn ids_in_order(index: Seq<PlaceView>) -> bool {
    forall|i: int, j: int|
        0 <= i < j < index.len() ==> !lex_less((#[trigger] index[j]).oid, (#[trigger] index[i]).oid)
}

/// Where a search by halves ends that has come down to `size` places from `base` on.
pub open spec fn halved(index: Seq<PlaceView>, oid: Seq<u8>, base: int, size: nat) -> int
    decreases size,
{
    if size <= 1 {
        base
    } else {
        let middle = base + size / 2;
        halved(
            index,
            oid,
            if lex_less(oid, index[middle].oid) {
                base
            } else {
                middle
            },
            (size - size / 2) as nat,
        )
    }
}

/// The position that a search for an id finds. Where the ids are in order it finds one whenever
/// there is one, and of equal ids the last; elsewhere it may pass over the id.
pub open spec fn place_of(index: Seq<PlaceView>, oid: Seq<u8>) -> Option<int> {
    if index.len() == 0 {
        None
    } else {
        let p = index[halved(index, oid, 0, index.len())];
        if p.oid == oid {
            Some(p.offset)
        } else {
            None
        }
    }
}

proof fn lemma_halved_within(index: Seq<PlaceView>, oid: Seq<u8>, base: int, size: nat)
    requires
        size > 0,
    ensures
        base <= halved(index, oid, base, size) < base + size,
    decreases size,
{
    if size > 1 {
        lemma_halved_within(index, oid, base, (size - size / 2) as nat);
        lemma_halved_within(index, oid, base + size / 2, (size - size / 2) as nat);
    }
}

/// What [`place_of`] finds is in the index.
pub proof fn lemma_place_found(index: Seq<PlaceView>, oid: Seq<u8>)
    ensures
        place_of(index, oid) matches Some(offset) ==> exists|i: int|
            0 <= i < index.len() && (#[trigger] index[i]).oid == oid && index[i].offset == offset,
{
    if index.len() > 0 {
        lemma_halved_within(index, oid, 0, index.len());
        let p = index[halved(index, oid, 0, index.len())];
        assert(p.oid == oid ==> place_of(index, oid) == Some(p.offset));
    }
}

/// A search among ids in order ends at the last one that is not greater.
proof fn lemma_halved(index: Seq<PlaceView>, oid: Seq<u8>, base: int, size: nat)
    requires
        ids_in_order(index),
        size > 0,
        0 <= base,
        base + size <= index.len(),
        base > 0 ==> !lex_less(oid, index[base].oid),
        forall|i: int| base + size <= i < index.len() ==> lex_less(oid, (#[trigger] index[i]).oid),
    ensures
        ({
            let r = halved(index, oid, base, size);
            &&& 0 <= r < index.len()
            &&& r > 0 ==> !lex_less(oid, index[r].oid)
            &&& forall|i: int| r < i < index.len() ==> lex_less(oid, (#[trigger] index[i]).oid)
        }),
    decreases size,
{
    if size > 1 {
        let middle = base + size / 2;
        let rest = (size - size / 2) as nat;
        if lex_less(oid, index[middle].oid) {
            assert forall|i: int| base + rest <= i < index.len() implies lex_less(
                oid,
                (#[trigger] index[i]).oid,
            ) by {
                if i > middle {
                    lemma_total(index[middle].oid, index[i].oid);
                    if lex_less(index[middle].oid, index[i].oid) {
                        lemma_transitive(oid, index[middle].oid, index[i].oid);
                    }
                }
            }
            lemma_halved(index, oid, base, rest);
        } else {
            lemma_halved(index, oid, middle, rest);
        }
    }
}

/// Where the ids are in order, [`place_of`] finds every id that is there.
pub proof fn lemma_place_of(index: Seq<PlaceView>, oid: Seq<u8>)
    requires
        ids_in_order(index),
    ensures
        place_of(index, oid) is Some <==> has_id(index, oid),
{
    lemma_place_found(index, oid);
    if has_id(index, oid) {
        let j = choose|j: int| 0 <= j < index.len() && (#[trigger] index[j]).oid == oid;
        lemma_halved(index, oid, 0, index.len());
        let r = halved(index, oid, 0, index.len());
        lemma_total(oid, oid);
        if j < r {
            lemma_total(index[r].oid, oid);
        }
    }
}

/// Places at different positions have different keys.
pub proof fn lemma_keys_apart(a: PlaceView, b: PlaceView)
    requires
        a.oid.len() == b.oid.len(),
        0 <= a.offset <= u32::MAX,
        0 <= b.offset <= u32::MAX,
        a.offset != b.offset,
    ensures
        a.key() != b.key(),
{
    let (x, y) = (be32(a.offset as u32), be32(b.offset as u32));
    if a.key() == b.key() {
        let n = a.oid.len() as int;
        assert(a.key().skip(n) =~= x);
        assert(b.key().skip(n) =~= y);
        lemma_be32_less(a.offset as u32, b.offset as u32);
        lemma_be32_less(b.offset as u32, a.offset as u32);
        lemma_total(x, y);
    }
}

/// Two places in the order of their keys are in the order of their ids.
pub proof fn lemma_ids_ordered(a: PlaceView, b: PlaceView)
    requires
        a.oid.len() == b.oid.len(),
        !lex_less(b.key(), a.key()),
    ensures
        !lex_less(b.oid, a.oid),
{
    lemma_less_concat(b.oid, be32(b.offset as u32), a.oid, be32(a.offset as u32));
}

/// Places in the order of their keys are in the order of their ids.
pub proof fn lemma_ids_in_order(index: Seq<Place>)
    requires
        in_order(index),
    ensures
        ids_in_order(place_views(index)),
{
    let views = place_views(index);
    assert forall|i: int, j: int| 0 <= i < j < views.len() implies !lex_less(
        (#[trigger] views[j]).oid,
        (#[trigger] views[i]).oid,
    ) by {
        index[i].oid.lemma_len();
        index[j].oid.lemma_len();
        assert(!lex_less(index[j].key(), index[i].key()));
        lemma_ids_ordered(index[i]@, index[j]@);
    }
}

/// Searches the index for an id, by halves.
pub fn lookup(index: &[Place], oid: &Oid) -> (r: Option<u32>)
    ensures
        match r {
            Some(offset) => place_of(place_views(index@), oid@) == Some(offset as int),
            None => place_of(place_views(index@), oid@) is None,
        },
{
    let ghost views = place_views(index@);
    if index.len() == 0 {
        return None;
    }
    let mut base: usize = 0;
    let mut size: usize = index.len();
    while size > 1
        invariant
            views == place_views(index@),
            size > 0,
            base + size <= index.len(),
            halved(views, oid@, 0, views.len()) == halved(views, oid@, base as int, size as nat),
        decreases size,
    {
        let half: usize = size / 2;
        let middle: usize = base + half;
        assert(views[middle as int] == index@[middle as int]@);
        if !oid.less(&index[middle].oid) {
            base = middle;
        }
        size = size - half;
    }
    assert(views[base as int] == index@[base as int]@);
    if index[base].oid == *oid {
        Some(index[base].offset)
    } else {
        None
    }
}

} // verus!
