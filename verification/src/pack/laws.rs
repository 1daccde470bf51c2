//! What a parsed pack lists and gives back, whatever was kept while it was parsed.

use vstd::prelude::*;

use crate::bytes::lex_less;
use crate::delta::applied;
use crate::err::{Error, Result};
use crate::object::{object_header, object_id, Kind};
use crate::sha1::lemma_digest_len;
use crate::sort::{in_order, lemma_sorted, lemma_sorted_contains, lemma_total, sorted, HasKey};
use crate::zlib::prefix::lemma_inflated_len;

use super::cache::{kept_at, with_room, CacheView, Kept};
use super::entry::{contents_at, entry_at, kind_coded, lemma_entry_at, BaseView};
use super::index::{
    has_id, ids_in_order, lemma_ids_ordered, lemma_keys_apart, lemma_place_found, lemma_place_of, place_of,
    PlaceView,
};
use super::{
    be32_at, object_in, parsed, patched, resolved, restored, rounded, scan_step, scanned, Restored, Round,
    Scan, MAX_DELTA_DEPTH,
};

verus! {

// --- what entries stand for ----------------------------------------------------------------------------

/// The delta whose contents start at `start` applied to a base.
pub open spec fn delta_on(
    data: Seq<u8>,
    end: int,
    start: int,
    size: nat,
    base: Option<(Kind, Seq<u8>)>,
) -> Option<(Kind, Seq<u8>)> {
    match base {
        None => None,
        Some((kind, body)) => match contents_at(data, start, end, size) {
            Err(_) => None,
            Ok((delta, _)) => match applied(body, delta) {
                Err(_) => None,
                Ok(out) => Some((kind, out)),
            },
        },
    }
}

/// The index has the id at `offset`.
pub open spec fn at_place(index: Seq<PlaceView>, oid: Seq<u8>, offset: int) -> bool {
    index.contains(PlaceView { oid, offset })
}

/// The object at the start of a path of entries: each is a delta on the next, and the last is an
/// object of its own. The base of a delta that names one may be at any place of its id.
pub open spec fn along(data: Seq<u8>, end: int, index: Seq<PlaceView>, path: Seq<int>) -> Option<
    (Kind, Seq<u8>),
>
    decreases path.len(),
{
    if path.len() == 0 {
        None
    } else {
        match entry_at(data, path[0], end) {
            Err(_) => None,
            Ok(h) => match h.base {
                BaseView::Whole => match contents_at(data, h.start, end, h.size) {
                    Err(_) => None,
                    Ok((body, _)) => Some((kind_coded(h.code), body)),
                },
                BaseView::Offset(base) => if path.len() > 1 && path[1] == base {
                    delta_on(data, end, h.start, h.size, along(data, end, index, path.skip(1)))
                } else {
                    None
                },
                BaseView::Id(oid) => if path.len() > 1 && at_place(index, oid, path[1]) {
                    delta_on(data, end, h.start, h.size, along(data, end, index, path.skip(1)))
                } else {
                    None
                },
            },
        }
    }
}

/// The entry at `offset` stands for the object `x`.
pub open spec fn stands_for(
    data: Seq<u8>,
    end: int,
    index: Seq<PlaceView>,
    offset: int,
    x: (Kind, Seq<u8>),
) -> bool {
    exists|path: Seq<int>| #[trigger]
        along(data, end, index, path) == Some(x) && path[0] == offset
}

pub open spec fn within(small: Seq<PlaceView>, large: Seq<PlaceView>) -> bool {
    forall|i: int| 0 <= i < small.len() ==> large.contains(#[trigger] small[i])
}

proof fn lemma_at_place_within(small: Seq<PlaceView>, large: Seq<PlaceView>, oid: Seq<u8>, offset: int)
    requires
        within(small, large),
        at_place(small, oid, offset),
    ensures
        at_place(large, oid, offset),
{
    let p = PlaceView { oid, offset };
    let i = choose|i: int| 0 <= i < small.len() && small[i] == p;
    assert(large.contains(small[i]));
}

proof fn lemma_along_within(
    data: Seq<u8>,
    end: int,
    small: Seq<PlaceView>,
    large: Seq<PlaceView>,
    path: Seq<int>,
)
    requires
        within(small, large),
        along(data, end, small, path) is Some,
    ensures
        along(data, end, large, path) == along(data, end, small, path),
    decreases path.len(),
{
    let h = entry_at(data, path[0], end)->Ok_0;
    match h.base {
        BaseView::Whole => {},
        BaseView::Offset(base) => {
            lemma_along_within(data, end, small, large, path.skip(1));
        },
        BaseView::Id(oid) => {
            lemma_along_within(data, end, small, large, path.skip(1));
            lemma_at_place_within(small, large, oid, path[1]);
        },
    }
}

/// What an entry stands for, it stands for in a larger index too.
proof fn lemma_stands_within(
    data: Seq<u8>,
    end: int,
    small: Seq<PlaceView>,
    large: Seq<PlaceView>,
    offset: int,
    x: (Kind, Seq<u8>),
)
    requires
        within(small, large),
        stands_for(data, end, small, offset, x),
    ensures
        stands_for(data, end, large, offset, x),
{
    let path = choose|path: Seq<int>| #[trigger]
        along(data, end, small, path) == Some(x) && path[0] == offset;
    lemma_along_within(data, end, small, large, path);
}

/// A delta stands for what it makes of its base.
proof fn lemma_stands_on_base(
    data: Seq<u8>,
    end: int,
    index: Seq<PlaceView>,
    offset: int,
    base: int,
    y: (Kind, Seq<u8>),
    x: (Kind, Seq<u8>),
)
    requires
        entry_at(data, offset, end) matches Ok(h) && (h.base == BaseView::Offset(base) || (h.base
            matches BaseView::Id(oid) && at_place(index, oid, base))) && delta_on(
            data,
            end,
            h.start,
            h.size,
            Some(y),
        ) == Some(x),
        stands_for(data, end, index, base, y),
    ensures
        stands_for(data, end, index, offset, x),
{
    let rest = choose|rest: Seq<int>| #[trigger]
        along(data, end, index, rest) == Some(y) && rest[0] == base;
    let path = seq![offset] + rest;
    assert(path.skip(1) =~= rest);
    assert(along(data, end, index, path) == Some(x));
}

/// No id names two different objects of the pack.
pub open spec fn one_object(data: Seq<u8>, end: int, index: Seq<PlaceView>) -> bool {
    forall|i: int, j: int, x: (Kind, Seq<u8>), y: (Kind, Seq<u8>)|
        0 <= i < index.len() && 0 <= j < index.len() && index[i].oid == index[j].oid && #[trigger]
        stands_for(data, end, index, index[i].offset, x) && #[trigger] stands_for(
            data,
            end,
            index,
            index[j].offset,
            y,
        ) ==> x == y
}

/// All places of an id stand for one object.
pub proof fn lemma_one_object(
    data: Seq<u8>,
    end: int,
    index: Seq<PlaceView>,
    oid: Seq<u8>,
    a: int,
    b: int,
    x: (Kind, Seq<u8>),
    y: (Kind, Seq<u8>),
)
    requires
        one_object(data, end, index),
        at_place(index, oid, a),
        at_place(index, oid, b),
        stands_for(data, end, index, a, x),
        stands_for(data, end, index, b, y),
    ensures
        x == y,
{
    let i = choose|i: int| 0 <= i < index.len() && index[i] == PlaceView { oid, offset: a };
    let j = choose|j: int| 0 <= j < index.len() && index[j] == PlaceView { oid, offset: b };
    assert(stands_for(data, end, index, index[i].offset, x));
    assert(stands_for(data, end, index, index[j].offset, y));
}

/// An entry stands for one object at most.
proof fn lemma_along_one(
    data: Seq<u8>,
    end: int,
    index: Seq<PlaceView>,
    p: Seq<int>,
    q: Seq<int>,
)
    requires
        one_object(data, end, index),
        along(data, end, index, p) is Some,
        along(data, end, index, q) is Some,
        p[0] == q[0],
    ensures
        along(data, end, index, p) == along(data, end, index, q),
    decreases p.len(),
{
    let h = entry_at(data, p[0], end)->Ok_0;
    match h.base {
        BaseView::Whole => {},
        BaseView::Offset(base) => {
            lemma_along_one(data, end, index, p.skip(1), q.skip(1));
        },
        BaseView::Id(oid) => {
            let u = along(data, end, index, p.skip(1))->0;
            let v = along(data, end, index, q.skip(1))->0;
            assert(stands_for(data, end, index, p[1], u));
            assert(stands_for(data, end, index, q[1], v));
            lemma_one_object(data, end, index, oid, p[1], q[1], u, v);
        },
    }
}

proof fn lemma_stands_one(
    data: Seq<u8>,
    end: int,
    index: Seq<PlaceView>,
    offset: int,
    x: (Kind, Seq<u8>),
    y: (Kind, Seq<u8>),
)
    requires
        one_object(data, end, index),
        stands_for(data, end, index, offset, x),
        stands_for(data, end, index, offset, y),
    ensures
        x == y,
{
    let p = choose|p: Seq<int>| #[trigger] along(data, end, index, p) == Some(x) && p[0] == offset;
    let q = choose|q: Seq<int>| #[trigger] along(data, end, index, q) == Some(y) && q[0] == offset;
    lemma_along_one(data, end, index, p, q);
}

// --- chains ------------------------------------------------------------------------------------------

/// The entry at `offset` is a delta, and its base may be at `base`.
pub open spec fn rests_on(data: Seq<u8>, end: int, index: Seq<PlaceView>, offset: int, base: int) -> bool {
    entry_at(data, offset, end) matches Ok(h) && match h.base {
        BaseView::Whole => false,
        BaseView::Offset(b) => b == base,
        BaseView::Id(oid) => at_place(index, oid, base),
    }
}

/// A path of entries of which each is a delta on the next.
pub open spec fn linked(data: Seq<u8>, end: int, index: Seq<PlaceView>, path: Seq<int>) -> bool
    decreases path.len(),
{
    path.len() == 1 || (path.len() > 1 && rests_on(data, end, index, path[0], path[1]) && linked(
        data,
        end,
        index,
        path.skip(1),
    ))
}

/// No chain from `offset` on is too long where `depth` deltas stand on top of it.
pub open spec fn fits(data: Seq<u8>, end: int, index: Seq<PlaceView>, offset: int, depth: nat) -> bool {
    forall|path: Seq<int>| #[trigger]
        linked(data, end, index, path) && path[0] == offset ==> depth + path.len() <= MAX_DELTA_DEPTH + 1
}

/// No object of the pack is at the end of more than [`MAX_DELTA_DEPTH`] deltas on top of each
/// other.
pub open spec fn chains_fit(data: Seq<u8>, end: int, index: Seq<PlaceView>) -> bool {
    forall|i: int| 0 <= i < index.len() ==> fits(data, end, index, (#[trigger] index[i]).offset, 0)
}

proof fn lemma_fits_here(data: Seq<u8>, end: int, index: Seq<PlaceView>, offset: int, depth: nat)
    requires
        fits(data, end, index, offset, depth),
    ensures
        depth <= MAX_DELTA_DEPTH,
{
    assert(linked(data, end, index, seq![offset]));
}

/// The chains from the base of an entry are shorter.
proof fn lemma_fits_base(
    data: Seq<u8>,
    end: int,
    index: Seq<PlaceView>,
    offset: int,
    base: int,
    depth: nat,
)
    requires
        fits(data, end, index, offset, depth),
        rests_on(data, end, index, offset, base),
    ensures
        fits(data, end, index, base, depth + 1),
{
    assert forall|path: Seq<int>| #[trigger]
        linked(data, end, index, path) && path[0] == base implies depth + 1 + path.len()
        <= MAX_DELTA_DEPTH + 1 by {
        let longer = seq![offset] + path;
        assert(longer.skip(1) =~= path);
        assert(linked(data, end, index, longer));
    }
}

// --- what is kept is sound ---------------------------------------------------------------------------

/// Everything that is kept is what its entry stands for.
pub open spec fn sound(data: Seq<u8>, end: int, index: Seq<PlaceView>, cache: CacheView) -> bool {
    forall|i: int|
        0 <= i < cache.kept.len() ==> stands_for(
            data,
            end,
            index,
            (#[trigger] cache.kept[i]).offset,
            (cache.kept[i].kind, cache.kept[i].body),
        )
}

proof fn lemma_kept_at(kept: Seq<Kept>, offset: int)
    ensures
        kept_at(kept, offset) matches Some(x) ==> exists|i: int|
            0 <= i < kept.len() && (#[trigger] kept[i]).offset == offset && (kept[i].kind, kept[i].body)
                == x,
    decreases kept.len(),
{
    if kept.len() > 0 && kept[0].offset != offset {
        let rest = kept.skip(1);
        lemma_kept_at(rest, offset);
        if let Some(x) = kept_at(rest, offset) {
            let i = choose|i: int|
                0 <= i < rest.len() && (#[trigger] rest[i]).offset == offset && (
                rest[i].kind,
                rest[i].body,
                ) == x;
            assert(kept[i + 1] == rest[i]);
        }
    }
}

proof fn lemma_with_room(kept: Seq<Kept>, need: nat, budget: nat, i: int)
    requires
        0 <= i < with_room(kept, need, budget).len(),
    ensures
        exists|j: int| 0 <= j < kept.len() && #[trigger] kept[j] == with_room(kept, need, budget)[i],
    decreases kept.len(),
{
    let left = with_room(kept, need, budget);
    if left != kept {
        let rest = kept.skip(1);
        lemma_with_room(rest, need, budget, i);
        let j = choose|j: int| 0 <= j < rest.len() && #[trigger] rest[j] == left[i];
        assert(kept[j + 1] == rest[j]);
    } else {
        assert(kept[i] == left[i]);
    }
}

proof fn lemma_insert_sound(
    data: Seq<u8>,
    end: int,
    index: Seq<PlaceView>,
    cache: CacheView,
    offset: int,
    x: (Kind, Seq<u8>),
)
    requires
        sound(data, end, index, cache),
        stands_for(data, end, index, offset, x),
    ensures
        sound(data, end, index, cache.insert(offset, x.0, x.1)),
{
    let next = cache.insert(offset, x.0, x.1);
    if next != cache {
        let left = with_room(cache.kept, x.1.len(), cache.budget);
        assert forall|i: int| 0 <= i < next.kept.len() implies stands_for(
            data,
            end,
            index,
            (#[trigger] next.kept[i]).offset,
            (next.kept[i].kind, next.kept[i].body),
        ) by {
            if i < left.len() {
                lemma_with_room(cache.kept, x.1.len(), cache.budget, i);
                let j = choose|j: int| 0 <= j < cache.kept.len() && #[trigger] cache.kept[j] == left[i];
                assert(next.kept[i] == cache.kept[j]);
            } else {
                assert(next.kept[i] == Kept { offset, kind: x.0, body: x.1 });
            }
        }
    }
}

proof fn lemma_sound_within(
    data: Seq<u8>,
    end: int,
    small: Seq<PlaceView>,
    large: Seq<PlaceView>,
    cache: CacheView,
)
    requires
        within(small, large),
        sound(data, end, small, cache),
    ensures
        sound(data, end, large, cache),
{
    assert forall|i: int| 0 <= i < cache.kept.len() implies stands_for(
        data,
        end,
        large,
        (#[trigger] cache.kept[i]).offset,
        (cache.kept[i].kind, cache.kept[i].body),
    ) by {
        let k = cache.kept[i];
        lemma_stands_within(data, end, small, large, k.offset, (k.kind, k.body));
    }
}

/// A delta applied to what its base stands for.
proof fn lemma_patched_sound(
    data: Seq<u8>,
    end: int,
    index: Seq<PlaceView>,
    offset: int,
    base_offset: int,
    base: Restored,
)
    requires
        entry_at(data, offset, end) matches Ok(h) && (h.base == BaseView::Offset(base_offset) || (h.base
            matches BaseView::Id(oid) && at_place(index, oid, base_offset))),
        sound(data, end, index, base.1),
        base.0 matches Ok(x) ==> stands_for(data, end, index, base_offset, x),
    ensures
        ({
            let h = entry_at(data, offset, end)->Ok_0;
            let r = patched(data, end, offset, h.start, h.size, base);
            &&& sound(data, end, index, r.1)
            &&& r.0 matches Ok(x) ==> stands_for(data, end, index, offset, x)
        }),
{
    let h = entry_at(data, offset, end)->Ok_0;
    let r = patched(data, end, offset, h.start, h.size, base);
    if let Ok(x) = r.0 {
        let y = base.0->Ok_0;
        lemma_stands_on_base(data, end, index, offset, base_offset, y, x);
        lemma_insert_sound(data, end, index, base.1, offset, x);
    }
}

/// Where an id is found, it is.
proof fn lemma_looked_up(index: Seq<PlaceView>, oid: Seq<u8>)
    ensures
        place_of(index, oid) matches Some(offset) ==> at_place(index, oid, offset),
{
    lemma_place_found(index, oid);
    if let Some(offset) = place_of(index, oid) {
        let i = choose|i: int|
            0 <= i < index.len() && (#[trigger] index[i]).oid == oid && index[i].offset == offset;
        assert(index[i] == PlaceView { oid, offset });
    }
}

/// Where the ids are in order, each of them is found.
proof fn lemma_looked_up_in_order(index: Seq<PlaceView>, oid: Seq<u8>, offset: int)
    requires
        ids_in_order(index),
        at_place(index, oid, offset),
    ensures
        place_of(index, oid) is Some,
{
    let i = choose|i: int| 0 <= i < index.len() && index[i] == PlaceView { oid, offset };
    assert(index[i].oid == oid);
    lemma_place_of(index, oid);
}

/// With a sound cache an object is restored to what its entry stands for, and the cache stays
/// sound.
pub proof fn lemma_restored_sound(
    data: Seq<u8>,
    end: int,
    index: Seq<PlaceView>,
    cache: CacheView,
    offset: int,
    depth: nat,
)
    requires
        sound(data, end, index, cache),
    ensures
        sound(data, end, index, restored(data, end, index, cache, offset, depth).1),
        restored(data, end, index, cache, offset, depth).0 matches Ok(x) ==> stands_for(
            data,
            end,
            index,
            offset,
            x,
        ),
    decreases MAX_DELTA_DEPTH + 1 - depth,
{
    reveal(restored);
    if depth <= MAX_DELTA_DEPTH {
        lemma_kept_at(cache.kept, offset);
        if cache.get(offset) is None {
            if let Ok(h) = entry_at(data, offset, end) {
                match h.base {
                    BaseView::Whole => {
                        if let Ok((body, n)) = contents_at(data, h.start, end, h.size) {
                            let x = (kind_coded(h.code), body);
                            assert(along(data, end, index, seq![offset]) == Some(x));
                            lemma_insert_sound(data, end, index, cache, offset, x);
                        }
                    },
                    BaseView::Offset(base) => {
                        lemma_restored_sound(data, end, index, cache, base, depth + 1);
                        let inner = restored(data, end, index, cache, base, depth + 1);
                        lemma_patched_sound(data, end, index, offset, base, inner);
                    },
                    BaseView::Id(oid) => {
                        lemma_looked_up(index, oid);
                        if let Some(base) = place_of(index, oid) {
                            lemma_restored_sound(data, end, index, cache, base, depth + 1);
                            let inner = restored(data, end, index, cache, base, depth + 1);
                            lemma_patched_sound(data, end, index, offset, base, inner);
                        }
                    },
                }
            }
        }
    }
}

// --- the rounds --------------------------------------------------------------------------------------

/// A place holds an object with the id that it names.
pub open spec fn named(data: Seq<u8>, end: int, index: Seq<PlaceView>, p: PlaceView) -> bool {
    exists|x: (Kind, Seq<u8>)| #[trigger]
        stands_for(data, end, index, p.offset, x) && object_id(x.0, x.1) == p.oid
}

pub open spec fn all_named(data: Seq<u8>, end: int, index: Seq<PlaceView>, places: Seq<PlaceView>) -> bool {
    forall|i: int| 0 <= i < places.len() ==> named(data, end, index, #[trigger] places[i])
}

proof fn lemma_named_within(
    data: Seq<u8>,
    end: int,
    small: Seq<PlaceView>,
    large: Seq<PlaceView>,
    places: Seq<PlaceView>,
)
    requires
        within(small, large),
        all_named(data, end, small, places),
    ensures
        all_named(data, end, large, places),
{
    assert forall|i: int| 0 <= i < places.len() implies named(data, end, large, #[trigger] places[i]) by {
        let p = places[i];
        let x = choose|x: (Kind, Seq<u8>)| #[trigger]
            stands_for(data, end, small, p.offset, x) && object_id(x.0, x.1) == p.oid;
        lemma_stands_within(data, end, small, large, p.offset, x);
    }
}

/// Too many deltas stand on top of each other.
pub open spec fn too_deep<T>(r: Result<T>) -> bool {
    r == Err::<T, _>(Error::Corrupt("delta chain too deep"))
}

/// Where the ids are in order, what an entry stands for is restored, unless too many deltas stand on
/// top of each other.
proof fn lemma_restored_complete(
    data: Seq<u8>,
    end: int,
    index: Seq<PlaceView>,
    fin: Seq<PlaceView>,
    cache: CacheView,
    offset: int,
    depth: nat,
    x: (Kind, Seq<u8>),
)
    requires
        ids_in_order(index),
        within(index, fin),
        one_object(data, end, fin),
        all_named(data, end, index, index),
        sound(data, end, index, cache),
        stands_for(data, end, index, offset, x),
    ensures
        ({
            let r = restored(data, end, index, cache, offset, depth).0;
            &&& r == Ok::<_, Error>(x) || too_deep(r)
            &&& fits(data, end, fin, offset, depth) ==> r == Ok::<_, Error>(x)
        }),
    decreases MAX_DELTA_DEPTH + 1 - depth,
{
    reveal(restored);
    let fitting = fits(data, end, fin, offset, depth);
    if fitting {
        lemma_fits_here(data, end, fin, offset, depth);
    }
    if depth <= MAX_DELTA_DEPTH {
        lemma_kept_at(cache.kept, offset);
        lemma_stands_within(data, end, index, fin, offset, x);
        if let Some(y) = cache.get(offset) {
            lemma_stands_within(data, end, index, fin, offset, y);
            lemma_stands_one(data, end, fin, offset, x, y);
        } else {
            let path = choose|path: Seq<int>| #[trigger]
                along(data, end, index, path) == Some(x) && path[0] == offset;
            let rest = path.skip(1);
            let h = entry_at(data, offset, end)->Ok_0;
            match h.base {
                BaseView::Whole => {},
                BaseView::Offset(base) => {
                    let y = along(data, end, index, rest)->0;
                    assert(stands_for(data, end, index, base, y));
                    if fitting {
                        lemma_fits_base(data, end, fin, offset, base, depth);
                    }
                    lemma_restored_complete(data, end, index, fin, cache, base, depth + 1, y);
                },
                BaseView::Id(oid) => {
                    let y = along(data, end, index, rest)->0;
                    let b = path[1];
                    assert(stands_for(data, end, index, b, y));
                    lemma_looked_up(index, oid);
                    lemma_looked_up_in_order(index, oid, b);
                    let base = place_of(index, oid)->0;
                    let p = PlaceView { oid, offset: base };
                    let i = choose|i: int| 0 <= i < index.len() && index[i] == p;
                    assert(named(data, end, index, index[i]));
                    let z = choose|z: (Kind, Seq<u8>)| #[trigger]
                        stands_for(data, end, index, p.offset, z) && object_id(z.0, z.1) == p.oid;
                    lemma_stands_within(data, end, index, fin, b, y);
                    lemma_stands_within(data, end, index, fin, base, z);
                    lemma_at_place_within(index, fin, oid, b);
                    lemma_at_place_within(index, fin, oid, base);
                    lemma_one_object(data, end, fin, oid, b, base, y, z);
                    if fitting {
                        lemma_fits_base(data, end, fin, offset, base, depth);
                    }
                    lemma_restored_complete(data, end, index, fin, cache, base, depth + 1, z);
                },
            }
        }
    }
}

proof fn lemma_within_concat(a: Seq<PlaceView>, b: Seq<PlaceView>)
    ensures
        within(a, a + b),
        within(b, a + b),
{
    assert forall|i: int| 0 <= i < a.len() implies (a + b).contains(#[trigger] a[i]) by {
        assert((a + b)[i] == a[i]);
    }
    assert forall|i: int| 0 <= i < b.len() implies (a + b).contains(#[trigger] b[i]) by {
        assert((a + b)[a.len() + i] == b[i]);
    }
}

/// The places are the same before and after sorting.
pub proof fn lemma_sorted_within(places: Seq<PlaceView>)
    ensures
        within(places, sorted(places)),
        within(sorted(places), places),
{
    let all = sorted(places);
    assert forall|i: int| 0 <= i < places.len() implies all.contains(#[trigger] places[i]) by {
        lemma_sorted_contains(places, places[i]);
    }
    assert forall|i: int| 0 <= i < all.len() implies places.contains(#[trigger] all[i]) by {
        lemma_sorted_contains(places, all[i]);
    }
}

proof fn lemma_within_trans(a: Seq<PlaceView>, b: Seq<PlaceView>, c: Seq<PlaceView>)
    requires
        within(a, b),
        within(b, c),
    ensures
        within(a, c),
{
    assert forall|i: int| 0 <= i < a.len() implies c.contains(#[trigger] a[i]) by {
        let j = choose|j: int| 0 <= j < b.len() && b[j] == a[i];
        assert(c.contains(b[j]));
    }
}

/// What a round has found is named, and what it keeps is sound.
proof fn lemma_rounded_sound(
    data: Seq<u8>,
    end: int,
    index: Seq<PlaceView>,
    pending: Seq<int>,
    r: Round,
)
    requires
        sound(data, end, index + r.places, r.cache),
        all_named(data, end, index + r.places, index + r.places),
        rounded(data, end, index, pending, r) is Ok,
    ensures
        ({
            let t = rounded(data, end, index, pending, r)->Ok_0;
            &&& sound(data, end, index + t.places, t.cache)
            &&& all_named(data, end, index + t.places, index + t.places)
        }),
    decreases pending.len(),
{
    reveal(rounded);
    if pending.len() > 0 {
        let offset = pending[0];
        let known = index + r.places;
        let (object, cache) = restored(data, end, known, r.cache, offset, 0);
        lemma_restored_sound(data, end, known, r.cache, offset, 0);
        match object {
            Ok((kind, body)) => {
                let p = PlaceView { oid: object_id(kind, body), offset };
                let next = Round { places: r.places.push(p), cache, ..r };
                let more = index + next.places;
                assert(more =~= known + seq![p]);
                lemma_within_concat(known, seq![p]);
                lemma_named_within(data, end, known, more, known);
                lemma_sound_within(data, end, known, more, cache);
                lemma_stands_within(data, end, known, more, offset, (kind, body));
                assert forall|i: int| 0 <= i < more.len() implies named(data, end, more, #[trigger] more[i]) by {
                    if i < known.len() {
                        assert(more[i] == known[i]);
                    } else {
                        assert(more[i] == p);
                        assert(stands_for(data, end, more, p.offset, (kind, body)));
                    }
                }
                lemma_rounded_sound(data, end, index, pending.skip(1), next);
            },
            Err(_) => {
                let next = Round { left: r.left.push(offset), cache, ..r };
                lemma_rounded_sound(data, end, index, pending.skip(1), next);
            },
        }
    }
}

/// The final index holds all places of an earlier one.
pub proof fn lemma_resolved_within(
    data: Seq<u8>,
    end: int,
    index: Seq<PlaceView>,
    pending: Seq<int>,
    cache: CacheView,
)
    ensures
        resolved(data, end, index, pending, cache) matches Ok(fin) ==> within(index, fin),
    decreases pending.len(),
{
    let start = Round { places: Seq::empty(), left: Seq::empty(), cache };
    super::lemma_rounded_len(data, end, index, pending, start);
    if pending.len() == 0 {
        assert forall|i: int| 0 <= i < index.len() implies index.contains(#[trigger] index[i]) by {}
    } else if let Ok(r) = rounded(data, end, index, pending, start) {
        if r.places.len() > 0 {
            let known = index + r.places;
            let next = sorted(known);
            lemma_resolved_within(data, end, next, r.left, r.cache);
            lemma_within_concat(index, r.places);
            lemma_sorted_within(known);
            lemma_within_trans(index, known, next);
            if let Ok(fin) = resolved(data, end, next, r.left, r.cache) {
                lemma_within_trans(index, next, fin);
            }
        }
    }
}

/// After a round: what was found holds in the next index.
proof fn lemma_next_index(data: Seq<u8>, end: int, known: Seq<PlaceView>, cache: CacheView)
    requires
        all_named(data, end, known, known),
        sound(data, end, known, cache),
    ensures
        all_named(data, end, sorted(known), sorted(known)),
        sound(data, end, sorted(known), cache),
{
    let next = sorted(known);
    lemma_sorted_within(known);
    lemma_named_within(data, end, known, next, known);
    lemma_sound_within(data, end, known, next, cache);
    assert forall|i: int| 0 <= i < next.len() implies named(data, end, next, #[trigger] next[i]) by {
        assert(known.contains(next[i]));
        let j = choose|j: int| 0 <= j < known.len() && known[j] == next[i];
        assert(named(data, end, next, known[j]));
    }
}

/// A round from an index that names its objects: the next index does too.
proof fn lemma_round_named(
    data: Seq<u8>,
    end: int,
    index: Seq<PlaceView>,
    pending: Seq<int>,
    cache: CacheView,
)
    requires
        all_named(data, end, index, index),
        sound(data, end, index, cache),
        rounded(
            data,
            end,
            index,
            pending,
            (Round { places: Seq::empty(), left: Seq::empty(), cache }),
        ) is Ok,
    ensures
        ({
            let start = Round { places: Seq::empty(), left: Seq::empty(), cache };
            let t = rounded(data, end, index, pending, start)->Ok_0;
            let next = sorted(index + t.places);
            &&& all_named(data, end, next, next)
            &&& sound(data, end, next, t.cache)
        }),
{
    let start = Round { places: Seq::empty(), left: Seq::empty(), cache };
    assert(index + start.places =~= index);
    lemma_rounded_sound(data, end, index, pending, start);
    let t = rounded(data, end, index, pending, start)->Ok_0;
    lemma_next_index(data, end, index + t.places, t.cache);
}

proof fn lemma_resolved_named(
    data: Seq<u8>,
    end: int,
    index: Seq<PlaceView>,
    pending: Seq<int>,
    cache: CacheView,
)
    requires
        resolved(data, end, index, pending, cache) is Ok,
        all_named(data, end, index, index),
        sound(data, end, index, cache),
    ensures
        resolved(data, end, index, pending, cache) matches Ok(fin) && all_named(data, end, fin, fin),
    decreases pending.len(),
{
    let start = Round { places: Seq::empty(), left: Seq::empty(), cache };
    super::lemma_rounded_len(data, end, index, pending, start);
    if pending.len() > 0 {
        let r = rounded(data, end, index, pending, start)->Ok_0;
        lemma_round_named(data, end, index, pending, cache);
        lemma_resolved_named(data, end, sorted(index + r.places), r.left, r.cache);
    }
}

/// Objects that are no deltas stand for themselves in any index.
proof fn lemma_scanned_named(data: Seq<u8>, end: int, n: nat, s: Scan, index: Seq<PlaceView>)
    requires
        scanned(data, end, n, s) is Ok,
        all_named(data, end, index, s.places),
    ensures
        all_named(data, end, index, scanned(data, end, n, s)->Ok_0.places),
    decreases n,
{
    if n > 0 {
        let t = scan_step(data, end, s)->Ok_0;
        let h = entry_at(data, s.offset, end)->Ok_0;
        if h.base is Whole {
            let (body, consumed) = contents_at(data, h.start, end, h.size)->Ok_0;
            let x = (kind_coded(h.code), body);
            let p = PlaceView { oid: object_id(x.0, x.1), offset: s.offset };
            assert(along(data, end, index, seq![s.offset]) == Some(x));
            assert(stands_for(data, end, index, p.offset, x));
            assert(named(data, end, index, p));
            assert forall|i: int| 0 <= i < t.places.len() implies named(
                data,
                end,
                index,
                #[trigger] t.places[i],
            ) by {
                if i < s.places.len() {
                    assert(t.places[i] == s.places[i]);
                } else {
                    assert(t.places[i] == p);
                }
            }
        }
        lemma_scanned_named(data, end, (n - 1) as nat, t, index);
    }
}

/// The first index names its objects.
proof fn lemma_first_index(data: Seq<u8>, end: int, n: nat)
    requires
        scanned(data, end, n, (Scan { places: Seq::empty(), pending: Seq::empty(), offset: 12 })) is Ok,
    ensures
        ({
            let s = scanned(
                data,
                end,
                n,
                Scan { places: Seq::empty(), pending: Seq::empty(), offset: 12 },
            )->Ok_0;
            all_named(data, end, sorted(s.places), sorted(s.places))
        }),
{
    let start = Scan { places: Seq::empty(), pending: Seq::empty(), offset: 12 };
    let s = scanned(data, end, n, start)->Ok_0;
    let index = sorted(s.places);
    lemma_scanned_named(data, end, n, start, index);
    lemma_sorted_within(s.places);
    assert forall|i: int| 0 <= i < index.len() implies named(data, end, index, #[trigger] index[i]) by {
        assert(s.places.contains(index[i]));
        let j = choose|j: int| 0 <= j < s.places.len() && s.places[j] == index[i];
        assert(named(data, end, index, s.places[j]));
    }
}

/// The index of a parsed pack names the objects at its places.
pub proof fn lemma_parsed_named(data: Seq<u8>, cache_bytes: nat)
    requires
        parsed(data, cache_bytes) is Ok,
    ensures
        parsed(data, cache_bytes) matches Ok(index) && all_named(data, data.len() - 20, index, index),
{
    let end = data.len() - 20;
    let start = Scan { places: Seq::empty(), pending: Seq::empty(), offset: 12 };
    let n = be32_at(data, 8) as nat;
    let s = scanned(data, end, n, start)->Ok_0;
    lemma_first_index(data, end, n);
    lemma_resolved_named(data, end, sorted(s.places), s.pending, CacheView::empty(cache_bytes));
}

// --- the order and the length of the index --------------------------------------------------------------

/// A place of the index is at `offset`.
pub open spec fn has_place(index: Seq<PlaceView>, offset: int) -> bool {
    exists|i: int| 0 <= i < index.len() && (#[trigger] index[i]).offset == offset
}

proof fn lemma_has_place_within(small: Seq<PlaceView>, large: Seq<PlaceView>, offset: int)
    requires
        within(small, large),
        has_place(small, offset),
    ensures
        has_place(large, offset),
{
    let i = choose|i: int| 0 <= i < small.len() && (#[trigger] small[i]).offset == offset;
    assert(large.contains(small[i]));
    let j = choose|j: int| 0 <= j < large.len() && large[j] == small[i];
    assert(large[j].offset == offset);
}

/// The index after a round has the places that were known and those that were found.
proof fn lemma_has_place_next(index: Seq<PlaceView>, places: Seq<PlaceView>, offset: int)
    ensures
        has_place(sorted(index + places), offset) <==> has_place(index, offset) || has_place(places, offset),
{
    let known = index + places;
    lemma_sorted_within(known);
    lemma_within_concat(index, places);
    if has_place(index, offset) {
        lemma_has_place_within(index, known, offset);
        lemma_has_place_within(known, sorted(known), offset);
    }
    if has_place(places, offset) {
        lemma_has_place_within(places, known, offset);
        lemma_has_place_within(known, sorted(known), offset);
    }
    if has_place(sorted(known), offset) {
        lemma_has_place_within(sorted(known), known, offset);
        let i = choose|i: int| 0 <= i < known.len() && (#[trigger] known[i]).offset == offset;
        if i < index.len() {
            assert(index[i].offset == offset);
        } else {
            assert(places[i - index.len()].offset == offset);
        }
    }
}

/// A round finds or leaves each delta, and nothing else.
proof fn lemma_rounded_deals(
    data: Seq<u8>,
    end: int,
    index: Seq<PlaceView>,
    pending: Seq<int>,
    r: Round,
    offset: int,
)
    requires
        rounded(data, end, index, pending, r) is Ok,
    ensures
        rounded(data, end, index, pending, r) matches Ok(t) && ((t.left.contains(offset) || has_place(
            t.places,
            offset,
        )) <==> (pending.contains(offset) || r.left.contains(offset) || has_place(r.places, offset))),
    decreases pending.len(),
{
    reveal(rounded);
    if pending.len() > 0 {
        let first = pending[0];
        let rest = pending.skip(1);
        assert(pending.contains(offset) <==> offset == first || rest.contains(offset)) by {
            if pending.contains(offset) && offset != first {
                let k = choose|k: int| 0 <= k < pending.len() && pending[k] == offset;
                assert(rest[k - 1] == offset);
            }
            if rest.contains(offset) {
                let k = choose|k: int| 0 <= k < rest.len() && rest[k] == offset;
                assert(pending[k + 1] == offset);
            }
        }
        let (object, cache) = restored(data, end, index + r.places, r.cache, first, 0);
        match object {
            Ok((kind, body)) => {
                let p = PlaceView { oid: object_id(kind, body), offset: first };
                let next = Round { places: r.places.push(p), cache, ..r };
                assert(has_place(next.places, offset) <==> offset == first || has_place(r.places, offset)) by {
                    if has_place(r.places, offset) {
                        let i = choose|i: int|
                            0 <= i < r.places.len() && (#[trigger] r.places[i]).offset == offset;
                        assert(next.places[i].offset == offset);
                    }
                    assert(next.places[r.places.len() as int] == p);
                    if has_place(next.places, offset) {
                        let i = choose|i: int|
                            0 <= i < next.places.len() && (#[trigger] next.places[i]).offset == offset;
                        if i < r.places.len() {
                            assert(r.places[i].offset == offset);
                        }
                    }
                }
                lemma_rounded_deals(data, end, index, rest, next, offset);
            },
            Err(_) => {
                let next = Round { left: r.left.push(first), cache, ..r };
                assert(next.left.contains(offset) <==> offset == first || r.left.contains(offset)) by {
                    if r.left.contains(offset) {
                        let i = choose|i: int| 0 <= i < r.left.len() && r.left[i] == offset;
                        assert(next.left[i] == offset);
                    }
                    assert(next.left[r.left.len() as int] == first);
                    if next.left.contains(offset) {
                        let i = choose|i: int| 0 <= i < next.left.len() && next.left[i] == offset;
                        if i < r.left.len() {
                            assert(r.left[i] == offset);
                        }
                    }
                }
                lemma_rounded_deals(data, end, index, rest, next, offset);
            },
        }
    }
}

/// The final index has places for the deltas and for what was there before, and no others.
pub proof fn lemma_resolved_deals(
    data: Seq<u8>,
    end: int,
    index: Seq<PlaceView>,
    pending: Seq<int>,
    cache: CacheView,
    offset: int,
)
    requires
        resolved(data, end, index, pending, cache) is Ok,
    ensures
        resolved(data, end, index, pending, cache) matches Ok(fin) && (has_place(fin, offset) <==> has_place(
            index,
            offset,
        ) || pending.contains(offset)),
    decreases pending.len(),
{
    let start = Round { places: Seq::empty(), left: Seq::empty(), cache };
    super::lemma_rounded_len(data, end, index, pending, start);
    if pending.len() > 0 {
        let r = rounded(data, end, index, pending, start)->Ok_0;
        lemma_rounded_deals(data, end, index, pending, start, offset);
        lemma_has_place_next(index, r.places, offset);
        lemma_resolved_deals(data, end, sorted(index + r.places), r.left, r.cache, offset);
    }
}

proof fn lemma_scanned_len(data: Seq<u8>, end: int, n: nat, s: Scan)
    ensures
        scanned(data, end, n, s) matches Ok(t) ==> t.places.len() + t.pending.len() == s.places.len()
            + s.pending.len() + n,
    decreases n,
{
    if n > 0 {
        if let Ok(t) = scan_step(data, end, s) {
            lemma_scanned_len(data, end, (n - 1) as nat, t);
        }
    }
}

proof fn lemma_resolved_order(
    data: Seq<u8>,
    end: int,
    index: Seq<PlaceView>,
    pending: Seq<int>,
    cache: CacheView,
)
    requires
        in_order(index),
    ensures
        resolved(data, end, index, pending, cache) matches Ok(fin) ==> in_order(fin) && fin.len()
            == index.len() + pending.len(),
    decreases pending.len(),
{
    let start = Round { places: Seq::empty(), left: Seq::empty(), cache };
    super::lemma_rounded_len(data, end, index, pending, start);
    if pending.len() > 0 {
        if let Ok(r) = rounded(data, end, index, pending, start) {
            if r.places.len() > 0 {
                let next = sorted(index + r.places);
                lemma_sorted(index + r.places);
                lemma_resolved_order(data, end, next, r.left, r.cache);
            }
        }
    }
}

/// Places that name objects and are in the order of their keys are in the order of their ids.
proof fn lemma_named_order(data: Seq<u8>, end: int, index: Seq<PlaceView>)
    requires
        in_order(index),
        all_named(data, end, index, index),
    ensures
        ids_in_order(index),
        forall|i: int| 0 <= i < index.len() ==> (#[trigger] index[i]).oid.len() == 20,
{
    assert forall|i: int| 0 <= i < index.len() implies (#[trigger] index[i]).oid.len() == 20 by {
        let p = index[i];
        assert(named(data, end, index, p));
        let x = choose|x: (Kind, Seq<u8>)| #[trigger]
            stands_for(data, end, index, p.offset, x) && object_id(x.0, x.1) == p.oid;
        lemma_digest_len(object_header(x.0, x.1.len()) + x.1);
    }
    assert forall|i: int, j: int| 0 <= i < j < index.len() implies !lex_less(
        (#[trigger] index[j]).oid,
        (#[trigger] index[i]).oid,
    ) by {
        assert(!lex_less(index[j].key(), index[i].key()));
        lemma_ids_ordered(index[i], index[j]);
    }
}

/// The entries so far are at different positions, all of them before the next one.
spec fn apart(s: Scan) -> bool {
    &&& forall|i: int| 0 <= i < s.places.len() ==> 12 <= (#[trigger] s.places[i]).offset < s.offset
    &&& forall|i: int| 0 <= i < s.pending.len() ==> 12 <= #[trigger] s.pending[i] < s.offset
    &&& forall|i: int, j: int|
        0 <= i < j < s.places.len() ==> (#[trigger] s.places[i]).offset != (#[trigger] s.places[j]).offset
    &&& forall|i: int, j: int|
        0 <= i < j < s.pending.len() ==> #[trigger] s.pending[i] != #[trigger] s.pending[j]
    &&& forall|i: int, j: int|
        0 <= i < s.places.len() && 0 <= j < s.pending.len() ==> (#[trigger] s.places[i]).offset
            != #[trigger] s.pending[j]
}

proof fn lemma_scanned_apart(data: Seq<u8>, end: int, n: nat, s: Scan)
    requires
        apart(s),
        12 <= s.offset,
        end <= data.len(),
    ensures
        scanned(data, end, n, s) matches Ok(t) ==> apart(t),
    decreases n,
{
    if n > 0 {
        if let Ok(t) = scan_step(data, end, s) {
            lemma_entry_at(data, s.offset, end);
            let h = entry_at(data, s.offset, end)->Ok_0;
            lemma_inflated_len(data.subrange(h.start, end));
            assert(t.offset > s.offset) by {
                reveal(contents_at);
            }
            lemma_scanned_apart(data, end, (n - 1) as nat, t);
        }
    }
}

/// The positions in an index.
spec fn positions(index: Seq<PlaceView>) -> Seq<int> {
    index.map_values(|p: PlaceView| p.offset)
}

/// A list as long as another one whose values are all different, and which has all of them, has
/// each of them once.
proof fn lemma_each_once(all: Seq<int>, list: Seq<int>)
    requires
        all.no_duplicates(),
        all.len() == list.len(),
        forall|x: int| all.contains(x) ==> #[trigger] list.contains(x),
    ensures
        list.no_duplicates(),
{
    broadcast use vstd::seq_lib::seq_to_set_is_finite;

    all.unique_seq_to_set();
    list.lemma_cardinality_of_set();
    assert(all.to_set().subset_of(list.to_set()));
    vstd::set_lib::lemma_len_subset(all.to_set(), list.to_set());
    list.lemma_no_dup_set_cardinality();
}

/// The index of a parsed pack has as many places as the head of the pack says, at different
/// positions, in the order of their ids.
pub proof fn index_is_in_order(data: Seq<u8>, cache_bytes: nat)
    requires
        parsed(data, cache_bytes) is Ok,
    ensures
        parsed(data, cache_bytes) matches Ok(index) && {
            &&& index.len() == be32_at(data, 8)
            &&& in_order(index)
            &&& ids_in_order(index)
            &&& forall|i: int|
                0 <= i < index.len() ==> (#[trigger] index[i]).oid.len() == 20 && 12 <= index[i].offset
                    < data.len() - 20
            &&& forall|i: int, j: int|
                0 <= i < j < index.len() ==> (#[trigger] index[i]).offset != (#[trigger] index[j]).offset
        },
{
    let end = data.len() - 20;
    let start = Scan { places: Seq::empty(), pending: Seq::empty(), offset: 12 };
    let n = be32_at(data, 8) as nat;
    let s = scanned(data, end, n, start)->Ok_0;
    let first = sorted(s.places);
    let index = parsed(data, cache_bytes)->Ok_0;
    let cache = CacheView::empty(cache_bytes);
    lemma_scanned_len(data, end, n, start);
    lemma_scanned_apart(data, end, n, start);
    lemma_sorted(s.places);
    lemma_resolved_order(data, end, first, s.pending, cache);
    lemma_parsed_named(data, cache_bytes);
    lemma_named_order(data, end, index);
    let all = positions(s.places) + s.pending;
    let list = positions(index);
    assert(all.no_duplicates());
    lemma_sorted_within(s.places);
    assert forall|x: int| all.contains(x) implies #[trigger] list.contains(x) by {
        let k = choose|k: int| 0 <= k < all.len() && all[k] == x;
        if k < s.places.len() {
            assert(s.places[k].offset == x);
            lemma_has_place_within(s.places, first, x);
        } else {
            assert(s.pending[k - s.places.len()] == x);
        }
        lemma_resolved_deals(data, end, first, s.pending, cache, x);
        let i = choose|i: int| 0 <= i < index.len() && (#[trigger] index[i]).offset == x;
        assert(list[i] == x);
    }
    lemma_each_once(all, list);
    assert forall|i: int, j: int| 0 <= i < j < index.len() implies (#[trigger] index[i]).offset != (
    #[trigger] index[j]).offset by {
        assert(list[i] != list[j]);
    }
    assert forall|i: int| 0 <= i < index.len() implies 12 <= (#[trigger] index[i]).offset < end by {
        let x = index[i].offset;
        assert(has_place(index, x));
        lemma_resolved_deals(data, end, first, s.pending, cache, x);
        if has_place(first, x) {
            lemma_has_place_within(first, s.places, x);
        }
    }
}

// --- reading ---------------------------------------------------------------------------------------------

/// Reading an id from a parsed pack gives an object with that id, and gives one for every id in the
/// index; only a chain of too many deltas is not read, and there is none where the chains are short.
/// No id names two different objects of the pack.
pub proof fn read_gives_the_named_object(data: Seq<u8>, cache_bytes: nat, oid: Seq<u8>)
    requires
        parsed(data, cache_bytes) matches Ok(index) && one_object(data, data.len() - 20, index),
    ensures
        parsed(data, cache_bytes) matches Ok(index) && match object_in(data, index, oid) {
            Ok(Some((kind, body))) => object_id(kind, body) == oid,
            Ok(None) => !has_id(index, oid),
            Err(e) => e == Error::Corrupt("delta chain too deep"),
        },
        chains_fit(data, data.len() - 20, parsed(data, cache_bytes)->Ok_0) ==> object_in(
            data,
            parsed(data, cache_bytes)->Ok_0,
            oid,
        ) is Ok,
{
    let end = data.len() - 20;
    let index = parsed(data, cache_bytes)->Ok_0;
    lemma_parsed_named(data, cache_bytes);
    index_is_in_order(data, cache_bytes);
    lemma_place_found(index, oid);
    lemma_place_of(index, oid);
    assert forall|i: int| 0 <= i < index.len() implies index.contains(#[trigger] index[i]) by {}
    if let Some(offset) = place_of(index, oid) {
        let i = choose|i: int|
            0 <= i < index.len() && (#[trigger] index[i]).oid == oid && index[i].offset == offset;
        let p = index[i];
        assert(named(data, end, index, p));
        let x = choose|x: (Kind, Seq<u8>)| #[trigger]
            stands_for(data, end, index, p.offset, x) && object_id(x.0, x.1) == p.oid;
        lemma_restored_complete(data, end, index, index, CacheView::absent(), offset, 0, x);
        if chains_fit(data, end, index) {
            assert(fits(data, end, index, index[i].offset, 0));
        }
    }
}

// --- the size of the cache -----------------------------------------------------------------------------
//
// Two sizes of the cache may deal with the deltas in different rounds. Where one of them ends with an
// index, the other one finds only places of that index, and goes on until it has them all.

/// A place of the index has the id of what its entry stands for.
proof fn lemma_place_is_named(
    data: Seq<u8>,
    end: int,
    index: Seq<PlaceView>,
    offset: int,
    x: (Kind, Seq<u8>),
)
    requires
        one_object(data, end, index),
        all_named(data, end, index, index),
        has_place(index, offset),
        stands_for(data, end, index, offset, x),
    ensures
        at_place(index, object_id(x.0, x.1), offset),
{
    let i = choose|i: int| 0 <= i < index.len() && (#[trigger] index[i]).offset == offset;
    let p = index[i];
    assert(named(data, end, index, p));
    let y = choose|y: (Kind, Seq<u8>)| #[trigger]
        stands_for(data, end, index, p.offset, y) && object_id(y.0, y.1) == p.oid;
    lemma_stands_one(data, end, index, offset, x, y);
    assert(index[i] == PlaceView { oid: object_id(x.0, x.1), offset });
}

/// With a part of the final index an object is restored to what it is in the end, unless a base is
/// not known yet or too many deltas stand on top of each other.
proof fn lemma_restored_towards(
    data: Seq<u8>,
    end: int,
    index: Seq<PlaceView>,
    fin: Seq<PlaceView>,
    cache: CacheView,
    offset: int,
    depth: nat,
    x: (Kind, Seq<u8>),
)
    requires
        within(index, fin),
        one_object(data, end, fin),
        all_named(data, end, fin, fin),
        sound(data, end, index, cache),
        stands_for(data, end, fin, offset, x),
    ensures
        ({
            let r = restored(data, end, index, cache, offset, depth).0;
            let met = r == Ok::<_, Error>(x) || r == Err::<(Kind, Seq<u8>), _>(Error::MissingBase);
            &&& met || too_deep(r)
            &&& fits(data, end, fin, offset, depth) ==> met
        }),
    decreases MAX_DELTA_DEPTH + 1 - depth,
{
    reveal(restored);
    let fitting = fits(data, end, fin, offset, depth);
    if fitting {
        lemma_fits_here(data, end, fin, offset, depth);
    }
    if depth <= MAX_DELTA_DEPTH {
        lemma_kept_at(cache.kept, offset);
        if let Some(y) = cache.get(offset) {
            lemma_stands_within(data, end, index, fin, offset, y);
            lemma_stands_one(data, end, fin, offset, x, y);
        } else {
            let path = choose|path: Seq<int>| #[trigger]
                along(data, end, fin, path) == Some(x) && path[0] == offset;
            let rest = path.skip(1);
            let h = entry_at(data, offset, end)->Ok_0;
            match h.base {
                BaseView::Whole => {},
                BaseView::Offset(base) => {
                    let y = along(data, end, fin, rest)->0;
                    assert(stands_for(data, end, fin, base, y));
                    if fitting {
                        lemma_fits_base(data, end, fin, offset, base, depth);
                    }
                    lemma_restored_towards(data, end, index, fin, cache, base, depth + 1, y);
                },
                BaseView::Id(oid) => {
                    let y = along(data, end, fin, rest)->0;
                    let b = path[1];
                    assert(stands_for(data, end, fin, b, y));
                    lemma_looked_up(index, oid);
                    if let Some(base) = place_of(index, oid) {
                        lemma_at_place_within(index, fin, oid, base);
                        let p = PlaceView { oid, offset: base };
                        let i = choose|i: int| 0 <= i < fin.len() && fin[i] == p;
                        assert(named(data, end, fin, fin[i]));
                        let z = choose|z: (Kind, Seq<u8>)| #[trigger]
                            stands_for(data, end, fin, p.offset, z) && object_id(z.0, z.1) == p.oid;
                        lemma_one_object(data, end, fin, oid, b, base, y, z);
                        if fitting {
                            lemma_fits_base(data, end, fin, offset, base, depth);
                        }
                        lemma_restored_towards(data, end, index, fin, cache, base, depth + 1, z);
                    }
                },
            }
        }
    }
}

/// No chain from one of the deltas on is too long.
spec fn all_fit(data: Seq<u8>, end: int, index: Seq<PlaceView>, pending: Seq<int>) -> bool {
    forall|i: int| 0 <= i < pending.len() ==> fits(data, end, index, #[trigger] pending[i], 0)
}

/// Every delta has a place.
spec fn all_placed(index: Seq<PlaceView>, pending: Seq<int>) -> bool {
    forall|i: int| 0 <= i < pending.len() ==> has_place(index, #[trigger] pending[i])
}

/// A round finds places of the final index only.
proof fn lemma_rounded_towards(
    data: Seq<u8>,
    end: int,
    index: Seq<PlaceView>,
    fin: Seq<PlaceView>,
    pending: Seq<int>,
    r: Round,
)
    requires
        within(index + r.places, fin),
        one_object(data, end, fin),
        all_named(data, end, fin, fin),
        sound(data, end, index + r.places, r.cache),
        all_placed(fin, pending),
    ensures
        match rounded(data, end, index, pending, r) {
            Ok(t) => within(index + t.places, fin),
            Err(_) => too_deep(rounded(data, end, index, pending, r)),
        },
        all_fit(data, end, fin, pending) ==> rounded(data, end, index, pending, r) is Ok,
    decreases pending.len(),
{
    reveal(rounded);
    if pending.len() > 0 {
        let offset = pending[0];
        let rest = pending.skip(1);
        let known = index + r.places;
        assert(has_place(fin, pending[0]));
        let k = choose|k: int| 0 <= k < fin.len() && (#[trigger] fin[k]).offset == offset;
        assert(named(data, end, fin, fin[k]));
        let x = choose|x: (Kind, Seq<u8>)| #[trigger]
            stands_for(data, end, fin, fin[k].offset, x) && object_id(x.0, x.1) == fin[k].oid;
        let (object, cache) = restored(data, end, known, r.cache, offset, 0);
        lemma_restored_towards(data, end, known, fin, r.cache, offset, 0, x);
        lemma_restored_sound(data, end, known, r.cache, offset, 0);
        assert forall|i: int| 0 <= i < rest.len() implies has_place(fin, #[trigger] rest[i]) by {
            assert(rest[i] == pending[i + 1]);
        }
        if all_fit(data, end, fin, pending) {
            assert(fits(data, end, fin, pending[0], 0));
            assert forall|i: int| 0 <= i < rest.len() implies fits(data, end, fin, #[trigger] rest[i], 0) by {
                assert(rest[i] == pending[i + 1]);
            }
        }
        match object {
            Ok((kind, body)) => {
                let p = PlaceView { oid: object_id(kind, body), offset };
                let next = Round { places: r.places.push(p), cache, ..r };
                let more = index + next.places;
                assert(more =~= known + seq![p]);
                lemma_within_concat(known, seq![p]);
                lemma_sound_within(data, end, known, more, cache);
                lemma_place_is_named(data, end, fin, offset, x);
                assert forall|i: int| 0 <= i < more.len() implies fin.contains(#[trigger] more[i]) by {
                    if i < known.len() {
                        assert(more[i] == known[i]);
                    }
                }
                lemma_rounded_towards(data, end, index, fin, rest, next);
            },
            Err(Error::MissingBase) => {
                let next = Round { left: r.left.push(offset), cache, ..r };
                lemma_rounded_towards(data, end, index, fin, rest, next);
            },
            Err(_) => {},
        }
    }
}

proof fn lemma_rounded_grows(
    data: Seq<u8>,
    end: int,
    index: Seq<PlaceView>,
    pending: Seq<int>,
    r: Round,
)
    ensures
        rounded(data, end, index, pending, r) matches Ok(t) ==> t.places.len() >= r.places.len(),
    decreases pending.len(),
{
    reveal(rounded);
    if pending.len() > 0 {
        let offset = pending[0];
        let (object, cache) = restored(data, end, index + r.places, r.cache, offset, 0);
        match object {
            Ok((kind, body)) => {
                let p = PlaceView { oid: object_id(kind, body), offset };
                let next = Round { places: r.places.push(p), cache, ..r };
                lemma_rounded_grows(data, end, index, pending.skip(1), next);
            },
            Err(_) => {
                let next = Round { left: r.left.push(offset), cache, ..r };
                lemma_rounded_grows(data, end, index, pending.skip(1), next);
            },
        }
    }
}

/// Where a round finds nothing, the base of every delta is missing in the index itself.
proof fn lemma_nothing_found(
    data: Seq<u8>,
    end: int,
    index: Seq<PlaceView>,
    pending: Seq<int>,
    r: Round,
    offset: int,
)
    requires
        rounded(data, end, index, pending, r) matches Ok(t) && t.places.len() == 0,
        sound(data, end, index, r.cache),
        pending.contains(offset),
    ensures
        exists|cache: CacheView| #[trigger]
            sound(data, end, index, cache) && restored(data, end, index, cache, offset, 0).0 == Err::<
                (Kind, Seq<u8>),
                _,
            >(Error::MissingBase),
    decreases pending.len(),
{
    reveal(rounded);
    lemma_rounded_grows(data, end, index, pending, r);
    assert(index + r.places =~= index);
    let first = pending[0];
    let rest = pending.skip(1);
    let (object, cache) = restored(data, end, index, r.cache, first, 0);
    lemma_restored_sound(data, end, index, r.cache, first, 0);
    match object {
        Ok((kind, body)) => {
            let p = PlaceView { oid: object_id(kind, body), offset: first };
            lemma_rounded_grows(data, end, index, rest, Round { places: r.places.push(p), cache, ..r });
        },
        Err(_) => {
            if offset != first {
                let k = choose|k: int| 0 <= k < pending.len() && pending[k] == offset;
                assert(rest[k - 1] == offset);
                let next = Round { left: r.left.push(first), cache, ..r };
                lemma_nothing_found(data, end, index, rest, next, offset);
            }
        },
    }
}

/// The places of the final index are known or to be found.
spec fn covers(index: Seq<PlaceView>, pending: Seq<int>, fin: Seq<PlaceView>) -> bool {
    forall|offset: int| #[trigger]
        has_place(fin, offset) ==> has_place(index, offset) || pending.contains(offset)
}

/// Some delta stands for an object already.
spec fn within_reach(data: Seq<u8>, end: int, index: Seq<PlaceView>, pending: Seq<int>) -> bool {
    exists|path: Seq<int>| #[trigger]
        along(data, end, index, path) is Some && pending.contains(path[0])
}

/// A path through the final index is one through the index that is known, or a delta on it is within
/// reach.
proof fn lemma_within_reach(
    data: Seq<u8>,
    end: int,
    index: Seq<PlaceView>,
    fin: Seq<PlaceView>,
    pending: Seq<int>,
    path: Seq<int>,
)
    requires
        within(index, fin),
        one_object(data, end, fin),
        all_named(data, end, fin, fin),
        covers(index, pending, fin),
        along(data, end, fin, path) is Some,
    ensures
        along(data, end, index, path) == along(data, end, fin, path) || within_reach(
            data,
            end,
            index,
            pending,
        ),
    decreases path.len(),
{
    let h = entry_at(data, path[0], end)->Ok_0;
    let rest = path.skip(1);
    match h.base {
        BaseView::Whole => {},
        BaseView::Offset(base) => {
            lemma_within_reach(data, end, index, fin, pending, rest);
        },
        BaseView::Id(oid) => {
            lemma_within_reach(data, end, index, fin, pending, rest);
            let b = path[1];
            if along(data, end, index, rest) == along(data, end, fin, rest) && !pending.contains(b) {
                let y = along(data, end, fin, rest)->0;
                let i = choose|i: int| 0 <= i < fin.len() && fin[i] == PlaceView { oid, offset: b };
                assert(fin[i].offset == b);
                assert(has_place(fin, b));
                let j = choose|j: int| 0 <= j < index.len() && (#[trigger] index[j]).offset == b;
                assert(fin.contains(index[j]));
                let k = choose|k: int| 0 <= k < fin.len() && fin[k] == index[j];
                assert(stands_for(data, end, fin, b, y));
                assert(named(data, end, fin, fin[i]));
                assert(named(data, end, fin, fin[k]));
                let u = choose|u: (Kind, Seq<u8>)| #[trigger]
                    stands_for(data, end, fin, fin[i].offset, u) && object_id(u.0, u.1) == fin[i].oid;
                let v = choose|v: (Kind, Seq<u8>)| #[trigger]
                    stands_for(data, end, fin, fin[k].offset, v) && object_id(v.0, v.1) == fin[k].oid;
                lemma_stands_one(data, end, fin, b, u, v);
                assert(index[j] == PlaceView { oid, offset: b });
                assert(at_place(index, oid, b));
            }
        },
    }
}

/// A round finds something as long as deltas are left.
proof fn lemma_round_moves(
    data: Seq<u8>,
    end: int,
    index: Seq<PlaceView>,
    fin: Seq<PlaceView>,
    pending: Seq<int>,
    cache: CacheView,
)
    requires
        pending.len() > 0,
        ids_in_order(index),
        within(index, fin),
        one_object(data, end, fin),
        all_named(data, end, fin, fin),
        all_named(data, end, index, index),
        sound(data, end, index, cache),
        covers(index, pending, fin),
        all_placed(fin, pending),
    ensures
        rounded(
            data,
            end,
            index,
            pending,
            (Round { places: Seq::empty(), left: Seq::empty(), cache }),
        ) matches Ok(t) ==> t.places.len() > 0,
{
    let start = Round { places: Seq::empty(), left: Seq::empty(), cache };
    if let Ok(t) = rounded(data, end, index, pending, start) {
        if t.places.len() == 0 {
            let o = pending[0];
            assert(has_place(fin, pending[0]));
            let k = choose|k: int| 0 <= k < fin.len() && (#[trigger] fin[k]).offset == o;
            assert(named(data, end, fin, fin[k]));
            let x = choose|x: (Kind, Seq<u8>)| #[trigger]
                stands_for(data, end, fin, fin[k].offset, x) && object_id(x.0, x.1) == fin[k].oid;
            let path = choose|path: Seq<int>| #[trigger]
                along(data, end, fin, path) == Some(x) && path[0] == o;
            lemma_within_reach(data, end, index, fin, pending, path);
            if along(data, end, index, path) is Some {
                assert(pending.contains(path[0]));
            }
            let q = choose|q: Seq<int>| #[trigger]
                along(data, end, index, q) is Some && pending.contains(q[0]);
            let y = along(data, end, index, q)->0;
            assert(stands_for(data, end, index, q[0], y));
            lemma_nothing_found(data, end, index, pending, start, q[0]);
            let c = choose|c: CacheView| #[trigger]
                sound(data, end, index, c) && restored(data, end, index, c, q[0], 0).0 == Err::<
                    (Kind, Seq<u8>),
                    _,
                >(Error::MissingBase);
            lemma_restored_complete(data, end, index, fin, c, q[0], 0, y);
        }
    }
}

/// The rounds end with places of the final index, unless too many deltas stand on top of each other.
proof fn lemma_resolved_towards(
    data: Seq<u8>,
    end: int,
    index: Seq<PlaceView>,
    fin: Seq<PlaceView>,
    pending: Seq<int>,
    cache: CacheView,
)
    requires
        in_order(index),
        within(index, fin),
        one_object(data, end, fin),
        all_named(data, end, fin, fin),
        all_named(data, end, index, index),
        sound(data, end, index, cache),
        covers(index, pending, fin),
        all_placed(fin, pending),
    ensures
        match resolved(data, end, index, pending, cache) {
            Ok(g) => within(g, fin),
            Err(_) => too_deep(resolved(data, end, index, pending, cache)),
        },
        chains_fit(data, end, fin) ==> resolved(data, end, index, pending, cache) is Ok,
    decreases pending.len(),
{
    let start = Round { places: Seq::empty(), left: Seq::empty(), cache };
    super::lemma_rounded_len(data, end, index, pending, start);
    if pending.len() > 0 {
        assert(index + start.places =~= index);
        lemma_named_order(data, end, index);
        lemma_round_moves(data, end, index, fin, pending, cache);
        lemma_rounded_towards(data, end, index, fin, pending, start);
        if chains_fit(data, end, fin) {
            assert forall|i: int| 0 <= i < pending.len() implies fits(data, end, fin, #[trigger] pending[i], 0) by {
                assert(has_place(fin, pending[i]));
                let k = choose|k: int| 0 <= k < fin.len() && (#[trigger] fin[k]).offset == pending[i];
                assert(fits(data, end, fin, fin[k].offset, 0));
            }
            assert(all_fit(data, end, fin, pending));
        }
        if let Ok(r) = rounded(data, end, index, pending, start) {
            let known = index + r.places;
            let next = sorted(known);
            lemma_round_named(data, end, index, pending, cache);
            lemma_sorted(known);
            lemma_sorted_within(known);
            lemma_within_trans(next, known, fin);
            assert forall|offset: int| #[trigger] has_place(fin, offset) implies has_place(next, offset)
                || r.left.contains(offset) by {
                lemma_rounded_deals(data, end, index, pending, start, offset);
                lemma_has_place_next(index, r.places, offset);
            }
            assert forall|i: int| 0 <= i < r.left.len() implies has_place(fin, #[trigger] r.left[i]) by {
                let offset = r.left[i];
                assert(r.left.contains(offset));
                lemma_rounded_deals(data, end, index, pending, start, offset);
                let k = choose|k: int| 0 <= k < pending.len() && pending[k] == offset;
                assert(has_place(fin, pending[k]));
            }
            lemma_resolved_towards(data, end, next, fin, r.left, r.cache);
        }
    }
}

/// A list in order is no further on than another one that has all of its places.
proof fn lemma_not_before(g: Seq<PlaceView>, fin: Seq<PlaceView>, i: int)
    requires
        in_order(g),
        in_order(fin),
        within(g, fin),
        forall|a: int, b: int| 0 <= a < b < g.len() ==> #[trigger] g[a].key() != #[trigger] g[b].key(),
        0 <= i < g.len(),
    ensures
        exists|j: int| i <= j < fin.len() && #[trigger] fin[j] == g[i],
    decreases i,
{
    assert(fin.contains(g[i]));
    let j = choose|j: int| 0 <= j < fin.len() && fin[j] == g[i];
    if i > 0 {
        lemma_not_before(g, fin, i - 1);
        let before = choose|before: int| i - 1 <= before < fin.len() && #[trigger] fin[before] == g[i - 1];
        assert(g[i - 1].key() != g[i].key());
        lemma_total(g[i - 1].key(), g[i].key());
        assert(!lex_less(g[i].key(), g[i - 1].key()));
        if j < before {
            assert(!lex_less(fin[before].key(), fin[j].key()));
        }
        assert(fin[j] == g[i] && i <= j);
    } else {
        assert(fin[j] == g[i]);
    }
}

/// Two lists in order, as long as each other, are the same where one has all places of the other and
/// no two keys are equal.
proof fn lemma_same_from(g: Seq<PlaceView>, fin: Seq<PlaceView>, i: int)
    requires
        in_order(g),
        in_order(fin),
        within(g, fin),
        g.len() == fin.len(),
        forall|a: int, b: int| 0 <= a < b < g.len() ==> #[trigger] g[a].key() != #[trigger] g[b].key(),
        0 <= i <= g.len(),
    ensures
        forall|k: int| i <= k < g.len() ==> #[trigger] g[k] == fin[k],
    decreases g.len() - i,
{
    if i < g.len() {
        lemma_same_from(g, fin, i + 1);
        lemma_not_before(g, fin, i);
        let j = choose|j: int| i <= j < fin.len() && #[trigger] fin[j] == g[i];
        if j > i {
            assert(g[j] == fin[j]);
            assert(g[i].key() != g[j].key());
        }
    }
}

/// A pack that is parsed with one size of the cache is parsed with another, to the same index,
/// unless that one needs too many deltas on top of each other.
proof fn lemma_parsed_same(data: Seq<u8>, a: nat, b: nat)
    requires
        parsed(data, a) matches Ok(index) && one_object(data, data.len() - 20, index),
    ensures
        parsed(data, b) == parsed(data, a) || too_deep(parsed(data, b)),
        chains_fit(data, data.len() - 20, parsed(data, a)->Ok_0) ==> parsed(data, b) == parsed(data, a),
{
    let end = data.len() - 20;
    let start = Scan { places: Seq::empty(), pending: Seq::empty(), offset: 12 };
    let n = be32_at(data, 8) as nat;
    let s = scanned(data, end, n, start)->Ok_0;
    let first = sorted(s.places);
    let fin = parsed(data, a)->Ok_0;
    let (ca, cb) = (CacheView::empty(a), CacheView::empty(b));
    lemma_first_index(data, end, n);
    lemma_parsed_named(data, a);
    lemma_sorted(s.places);
    lemma_resolved_within(data, end, first, s.pending, ca);
    assert forall|offset: int| #[trigger] has_place(fin, offset) implies has_place(first, offset)
        || s.pending.contains(offset) by {
        lemma_resolved_deals(data, end, first, s.pending, ca, offset);
    }
    assert forall|i: int| 0 <= i < s.pending.len() implies has_place(fin, #[trigger] s.pending[i]) by {
        lemma_resolved_deals(data, end, first, s.pending, ca, s.pending[i]);
    }
    lemma_resolved_towards(data, end, first, fin, s.pending, cb);
    if let Ok(g) = parsed(data, b) {
        index_is_in_order(data, a);
        index_is_in_order(data, b);
        assert forall|i: int, j: int| 0 <= i < j < g.len() implies #[trigger] g[i].key() != #[trigger] g[j].key() by {
            lemma_keys_apart(g[i], g[j]);
        }
        lemma_same_from(g, fin, 0);
        assert(g =~= fin);
    }
}

/// The size of the cache does not change what a pack is parsed to: where two sizes give different
/// results, one of them needs too many deltas on top of each other. No id names two different
/// objects of the pack.
pub proof fn cache_size_does_not_matter(data: Seq<u8>, a: nat, b: nat)
    requires
        parsed(data, a) matches Ok(index) ==> one_object(data, data.len() - 20, index),
        parsed(data, b) matches Ok(index) ==> one_object(data, data.len() - 20, index),
    ensures
        parsed(data, a) is Ok && parsed(data, b) is Ok ==> parsed(data, a) == parsed(data, b),
        parsed(data, a) is Ok && parsed(data, b) is Err ==> too_deep(parsed(data, b)),
        parsed(data, a) is Err && parsed(data, b) is Ok ==> too_deep(parsed(data, a)),
{
    if parsed(data, a) is Ok {
        lemma_parsed_same(data, a, b);
    }
    if parsed(data, b) is Ok {
        lemma_parsed_same(data, b, a);
    }
}

/// Where no chain of deltas is too long, a pack is parsed with every size of the cache or with
/// none, and then it holds the same ids in the same order, and every id gives the same object. No
/// id names two different objects of the pack.
pub proof fn cache_size_does_not_matter_for_short_chains(data: Seq<u8>, a: nat, b: nat)
    requires
        parsed(data, a) matches Ok(index) ==> one_object(data, data.len() - 20, index) && chains_fit(
            data,
            data.len() - 20,
            index,
        ),
        parsed(data, b) matches Ok(index) ==> one_object(data, data.len() - 20, index) && chains_fit(
            data,
            data.len() - 20,
            index,
        ),
    ensures
        parsed(data, a) is Ok <==> parsed(data, b) is Ok,
        parsed(data, a) is Ok ==> parsed(data, a) == parsed(data, b),
        parsed(data, a) is Ok ==> forall|oid: Seq<u8>| #[trigger]
            object_in(data, parsed(data, a)->Ok_0, oid) == object_in(data, parsed(data, b)->Ok_0, oid),
{
    if parsed(data, a) is Ok {
        lemma_parsed_same(data, a, b);
    }
    if parsed(data, b) is Ok {
        lemma_parsed_same(data, b, a);
    }
}

} // verus!
