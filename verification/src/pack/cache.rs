//! A bounded store of objects that were restored from deltas.
//!
//! Deltas with the same base tend to stand side by side, and without a store the base would be
//! restored for each of them. What came in first is dropped first; an object that is larger than
//! the whole budget is not kept.

use vstd::prelude::*;

use crate::bytes::owned;
use crate::object::Kind;

verus! {

/// How many objects are kept at most.
pub const BASE_CACHE_ENTRIES: usize = 64;

/// An object that is kept, and the position of its entry.
pub struct Kept {
    pub offset: int,
    pub kind: Kind,
    pub body: Seq<u8>,
}

/// The contents of a cache.
pub struct CacheView {
    /// Whether anything is kept at all.
    pub on: bool,
    pub budget: nat,
    /// The oldest first.
    pub kept: Seq<Kept>,
}

/// How many bytes are kept.
pub open spec fn total(kept: Seq<Kept>) -> nat
    decreases kept.len(),
{
    if kept.len() == 0 {
        0
    } else {
        kept[0].body.len() + total(kept.skip(1))
    }
}

/// What is kept for the entry at `offset`.
pub open spec fn kept_at(kept: Seq<Kept>, offset: int) -> Option<(Kind, Seq<u8>)>
    decreases kept.len(),
{
    if kept.len() == 0 {
        None
    } else if kept[0].offset == offset {
        Some((kept[0].kind, kept[0].body))
    } else {
        kept_at(kept.skip(1), offset)
    }
}

/// What is left when the oldest are dropped until there is room for `need` bytes.
pub open spec fn with_room(kept: Seq<Kept>, need: nat, budget: nat) -> Seq<Kept>
    decreases kept.len(),
{
    if kept.len() > 0 && (total(kept) + need > budget || kept.len() >= BASE_CACHE_ENTRIES) {
        with_room(kept.skip(1), need, budget)
    } else {
        kept
    }
}

impl CacheView {
    pub open spec fn empty(budget: nat) -> Self {
        CacheView { on: true, budget, kept: Seq::empty() }
    }

    pub open spec fn absent() -> Self {
        CacheView { on: false, budget: 0, kept: Seq::empty() }
    }

    pub open spec fn get(self, offset: int) -> Option<(Kind, Seq<u8>)> {
        kept_at(self.kept, offset)
    }

    pub open spec fn insert(self, offset: int, kind: Kind, body: Seq<u8>) -> Self {
        if !self.on || body.len() > self.budget || self.get(offset) is Some {
            self
        } else {
            CacheView {
                kept: with_room(self.kept, body.len(), self.budget).push(Kept { offset, kind, body }),
                ..self
            }
        }
    }
}

proof fn lemma_total_push(kept: Seq<Kept>, k: Kept)
    ensures
        total(kept.push(k)) == total(kept) + k.body.len(),
    decreases kept.len(),
{
    if kept.len() == 0 {
        assert(kept.push(k).skip(1) =~= kept);
    } else {
        lemma_total_push(kept.skip(1), k);
        assert(kept.push(k).skip(1) =~= kept.skip(1).push(k));
    }
}

pub struct BaseCache {
    on: bool,
    entries: Vec<(u32, Kind, Vec<u8>)>,
    bytes: usize,
    budget: usize,
}

impl View for BaseCache {
    type V = CacheView;

    closed spec fn view(&self) -> CacheView {
        CacheView { on: self.on, budget: self.budget as nat, kept: kept_views(self.entries@) }
    }
}

spec fn kept_views(s: Seq<(u32, Kind, Vec<u8>)>) -> Seq<Kept> {
    Seq::new(s.len(), |i: int| Kept { offset: s[i].0 as int, kind: s[i].1, body: s[i].2@ })
}

impl BaseCache {
    pub closed spec fn wf(&self) -> bool {
        self.bytes == total(self@.kept) && self.bytes <= self.budget
    }

    pub fn new(budget: usize) -> (r: Self)
        ensures
            r.wf(),
            r@ == CacheView::empty(budget as nat),
    {
        let r = BaseCache { on: true, entries: Vec::new(), bytes: 0, budget };
        assert(r@.kept =~= Seq::<Kept>::empty());
        r
    }

    /// A cache that keeps nothing.
    pub fn none() -> (r: Self)
        ensures
            r.wf(),
            r@ == CacheView::absent(),
    {
        let r = BaseCache { on: false, entries: Vec::new(), bytes: 0, budget: 0 };
        assert(r@.kept =~= Seq::<Kept>::empty());
        r
    }

    /// What is kept for the entry at `offset`.
    pub fn get(&self, offset: usize) -> (r: Option<(Kind, &[u8])>)
        ensures
            match r {
                Some((kind, body)) => self@.get(offset as int) == Some((kind, body@)),
                None => self@.get(offset as int) is None,
            },
    {
        let ghost all = self@.kept;
        let mut i: usize = 0;
        assert(all.skip(0) =~= all);
        while i < self.entries.len()
            invariant
                i <= self.entries.len(),
                all == self@.kept,
                all == kept_views(self.entries@),
                kept_at(all, offset as int) == kept_at(all.skip(i as int), offset as int),
            decreases self.entries.len() - i,
        {
            assert(all.skip(i as int)[0] == all[i as int]);
            assert(all.skip(i as int).skip(1) =~= all.skip(i + 1));
            if self.entries[i].0 as usize == offset {
                return Some((self.entries[i].1, self.entries[i].2.as_slice()));
            }
            i += 1;
        }
        None
    }

    /// Keeps an object, and drops the oldest ones to make room for it.
    pub fn insert(&mut self, offset: usize, kind: Kind, body: &[u8])
        requires
            old(self).wf(),
            offset <= u32::MAX,
        ensures
            final(self).wf(),
            final(self)@ == old(self)@.insert(offset as int, kind, body@),
    {
        if !self.on || body.len() > self.budget || self.get(offset).is_some() {
            return;
        }
        let ghost budget = self.budget as nat;
        let ghost need = body@.len();
        while self.entries.len() > 0 && (body.len() > self.budget - self.bytes || self.entries.len()
            >= BASE_CACHE_ENTRIES)
            invariant
                self.wf(),
                self.on == old(self).on,
                self.budget == old(self).budget,
                budget == self.budget as nat,
                need == body@.len(),
                with_room(self@.kept, need, budget) == with_room(old(self)@.kept, need, budget),
            decreases self.entries.len(),
        {
            let ghost before = self.entries@;
            let ghost kept = self@.kept;
            let (_, _, evicted) = self.entries.remove(0);
            assert(kept_views(self.entries@) =~= kept.skip(1));
            self.bytes -= evicted.len();
        }
        let ghost kept = self@.kept;
        assert(with_room(kept, need, budget) == kept);
        proof {
            if kept.len() == 0 {
                assert(total(kept) == 0);
            }
            lemma_total_push(kept, Kept { offset: offset as int, kind, body: body@ });
        }
        self.bytes += body.len();
        self.entries.push((offset as u32, kind, owned(body)));
        assert(self@.kept =~= kept.push(Kept { offset: offset as int, kind, body: body@ }));
    }
}

} // verus!
