//! What to push of a bundle: refs of it, and all its objects in a pack.

use vstd::prelude::*;

use crate::bundle::{ref_list, ref_named, Bundle};
use crate::bytes::{has_prefix, lit, owned, starts_with, text};
use crate::log::{name_view, not_found_text, ref_not_found};
use crate::object::{oid_views, Kind};
use crate::oid::Oid;
use crate::pack::index::PlaceView;
use crate::pack::write::{object_views, pack_bytes};
use crate::pack::{object_in, write_pack, Pack};
use crate::protov0::named_views;
use crate::push::{Push, PushView, State};
use crate::text::{readable, readable_text};

verus! {

/// The refs below `refs/`.
pub open spec fn pushable(refs: Seq<(Seq<u8>, Seq<u8>)>) -> Seq<(Seq<u8>, Seq<u8>)>
    decreases refs.len(),
{
    if refs.len() == 0 {
        refs
    } else {
        let rest = pushable(refs.drop_last());
        if has_prefix(refs.last().0, lit("refs/")) {
            rest.push(refs.last())
        } else {
            rest
        }
    }
}

/// Why there is nothing to push.
#[derive(Debug, Clone, Copy, PartialEq, Eq)]
pub enum NoUpdate {
    /// A name to push to, and none to push from.
    NoSource,
    /// There is no ref with the name to push from.
    NoRef,
    Nothing,
}

/// The refs to update: the one from which is pushed, under the name to which is pushed, or all
/// below `refs/`.
pub open spec fn updates_of(
    refs: Seq<(Seq<u8>, Seq<u8>)>,
    from: Option<Seq<u8>>,
    to: Option<Seq<u8>>,
) -> core::result::Result<Seq<(Seq<u8>, Seq<u8>)>, NoUpdate> {
    match (from, to) {
        (None, Some(_)) => Err(NoUpdate::NoSource),
        (None, None) => if pushable(refs).len() == 0 {
            Err(NoUpdate::Nothing)
        } else {
            Ok(pushable(refs))
        },
        (Some(name), _) => match ref_named(refs, name) {
            None => Err(NoUpdate::NoRef),
            Some(oid) => Ok(
                seq![
                    (
                        match to {
                            Some(other) => other,
                            None => name,
                        },
                        oid,
                    ),
                ],
            ),
        },
    }
}

/// What is said of a push without updates; `name` is the one that is pushed from.
pub open spec fn no_update_text(e: NoUpdate, name: Seq<char>) -> Seq<char> {
    match e {
        NoUpdate::NoSource => "destination ref requires a source ref"@,
        NoUpdate::NoRef => not_found_text(name),
        NoUpdate::Nothing => "no refs to push"@,
    }
}

/// The first `n` objects of a pack.
pub open spec fn objects_of(data: Seq<u8>, index: Seq<PlaceView>, n: nat) -> core::result::Result<
    Seq<(Kind, Seq<u8>)>,
    Seq<char>,
>
    decreases n,
{
    if n == 0 {
        Ok(Seq::empty())
    } else {
        match objects_of(data, index, (n - 1) as nat) {
            Err(e) => Err(e),
            Ok(objects) => match object_in(data, index, index[n - 1].oid) {
                Err(e) => Err(e.text()),
                Ok(None) => Err("object disappeared"@),
                Ok(Some(object)) => Ok(objects.push(object)),
            },
        }
    }
}

proof fn lemma_objects_err(data: Seq<u8>, index: Seq<PlaceView>, n: nat, m: nat)
    requires
        n <= m,
        objects_of(data, index, n) is Err,
    ensures
        objects_of(data, index, m) == objects_of(data, index, n),
    decreases m,
{
    if n < m {
        lemma_objects_err(data, index, n, (m - 1) as nat);
    }
}

/// Whether a name to push to comes with one to push from.
pub fn check_destination(from: Option<&[u8]>, to: Option<&[u8]>) -> (r: core::result::Result<
    (),
    String,
>)
    ensures
        r is Ok <==> !(from is None && to is Some),
        r matches Err(e) ==> e@ == no_update_text(NoUpdate::NoSource, Seq::empty()),
{
    if from.is_none() && to.is_some() {
        return Err("destination ref requires a source ref".to_owned());
    }
    Ok(())
}

/// The refs to update.
pub fn updates(bundle: &Bundle<'_>, from: Option<&[u8]>, to: Option<&[u8]>) -> (r:
    core::result::Result<Vec<(Vec<u8>, Oid)>, NoUpdate>)
    ensures
        match (r, updates_of(ref_list(bundle.refs@), name_view(from), name_view(to))) {
            (Ok(list), Ok(want)) => named_views(list@) == want,
            (Err(e), Err(f)) => e == f,
            _ => false,
        },
{
    let ghost all = ref_list(bundle.refs@);
    let mut list: Vec<(Vec<u8>, Oid)> = Vec::new();
    if let Some(name) = from {
        let oid = match bundle.find_ref(name) {
            Some(oid) => oid,
            None => {
                return Err(NoUpdate::NoRef);
            },
        };
        let target = match to {
            Some(other) => other,
            None => name,
        };
        list.push((owned(target), oid));
        assert(named_views(list@) =~= seq![(target@, oid@)]);
        return Ok(list);
    }
    if to.is_some() {
        return Err(NoUpdate::NoSource);
    }
    let mut i: usize = 0;
    assert(all.take(0) =~= Seq::<(Seq<u8>, Seq<u8>)>::empty());
    assert(named_views(list@) =~= Seq::<(Seq<u8>, Seq<u8>)>::empty());
    while i < bundle.refs.len()
        invariant
            i <= bundle.refs@.len(),
            all == ref_list(bundle.refs@),
            named_views(list@) == pushable(all.take(i as int)),
        decreases bundle.refs.len() - i,
    {
        let (name, oid) = bundle.refs[i];
        let ghost before = list@;
        assert(all.take(i + 1).drop_last() =~= all.take(i as int));
        assert(all.take(i + 1).last() == (name@, oid@));
        if starts_with(name, text("refs/")) {
            list.push((owned(name), oid));
            assert(named_views(list@) =~= named_views(before).push((name@, oid@)));
        }
        i += 1;
    }
    assert(all.take(i as int) =~= all);
    if list.len() == 0 {
        return Err(NoUpdate::Nothing);
    }
    Ok(list)
}

/// All objects of a pack in a pack of their own.
fn repack(pack: &Pack<'_>) -> (r: core::result::Result<Vec<u8>, String>)
    ensures
        match (r, objects_of(pack.data(), pack.index(), pack.index().len())) {
            (Ok(data), Ok(objects)) => data@ == pack_bytes(objects),
            (Err(e), Err(f)) => e@ == f,
            _ => false,
        },
{
    let ghost index = pack.index();
    let oids = pack.oids();
    let mut objects: Vec<(Kind, Vec<u8>)> = Vec::new();
    let mut i: usize = 0;
    assert(owned_views(objects@) =~= Seq::<(Kind, Seq<u8>)>::empty());
    while i < oids.len()
        invariant
            i <= oids@.len(),
            index == pack.index(),
            oid_views(oids@) == index.map_values(|p: PlaceView| p.oid),
            objects_of(pack.data(), index, i as nat) == Ok::<_, Seq<char>>(owned_views(objects@)),
        decreases oids.len() - i,
    {
        assert(oid_views(oids@).len() == index.len());
        assert(oid_views(oids@)[i as int] == index[i as int].oid);
        let ghost before = objects@;
        proof {
            if objects_of(pack.data(), index, (i + 1) as nat) is Err {
                lemma_objects_err(pack.data(), index, (i + 1) as nat, index.len());
            }
        }
        match pack.read_object(&oids[i]) {
            Err(e) => {
                return Err(e.message());
            },
            Ok(None) => {
                return Err("object disappeared".to_owned());
            },
            Ok(Some(object)) => {
                objects.push(object);
                assert(owned_views(objects@) =~= owned_views(before).push((object.0, object.1@)));
            },
        }
        i += 1;
    }
    assert(oid_views(oids@).len() == index.len());
    let mut borrowed: Vec<(Kind, &[u8])> = Vec::new();
    let mut k: usize = 0;
    while k < objects.len()
        invariant
            k <= objects@.len(),
            borrowed@.len() == k,
            forall|j: int|
                0 <= j < k ==> ((#[trigger] borrowed@[j]).0, borrowed@[j].1@) == (
                    objects@[j].0,
                    objects@[j].1@,
                ),
        decreases objects.len() - k,
    {
        borrowed.push((objects[k].0, objects[k].1.as_slice()));
        k += 1;
    }
    assert(object_views(borrowed@) =~= owned_views(objects@));
    Ok(write_pack(borrowed.as_slice()))
}

pub open spec fn owned_views(s: Seq<(Kind, Vec<u8>)>) -> Seq<(Kind, Seq<u8>)> {
    Seq::new(s.len(), |i: int| (s[i].0, s[i].1@))
}

/// A push of refs of a bundle, with all objects of the bundle, or why there is none.
pub open spec fn push_start(
    refs: Seq<(Seq<u8>, Seq<u8>)>,
    data: Seq<u8>,
    index: Seq<PlaceView>,
    from: Option<Seq<u8>>,
    to: Option<Seq<u8>>,
) -> core::result::Result<PushView, Seq<char>> {
    match updates_of(refs, from, to) {
        Err(e) => Err(no_update_text(e, readable_text(from->0))),
        Ok(updates) => match objects_of(data, index, index.len()) {
            Err(e) => Err(e),
            Ok(objects) => Ok(
                PushView {
                    state: State::InfoRefs,
                    updates,
                    pack: pack_bytes(objects),
                    commands: Seq::empty(),
                    report: None,
                },
            ),
        },
    }
}

/// A push of refs of a bundle. All objects of the bundle go with it, those too that the other side
/// has.
pub fn driver(bundle: &Bundle<'_>, from: Option<&[u8]>, to: Option<&[u8]>) -> (r:
    core::result::Result<Push, String>)
    ensures
        match (
            r,
            push_start(
                ref_list(bundle.refs@),
                bundle.pack.data(),
                bundle.pack.index(),
                name_view(from),
                name_view(to),
            ),
        ) {
            (Ok(driver), Ok(want)) => driver@ == want,
            (Err(e), Err(f)) => e@ == f,
            _ => false,
        },
{
    let list = match updates(bundle, from, to) {
        Ok(list) => list,
        Err(NoUpdate::NoSource) => {
            return Err("destination ref requires a source ref".to_owned());
        },
        Err(NoUpdate::Nothing) => {
            return Err("no refs to push".to_owned());
        },
        Err(NoUpdate::NoRef) => {
            let shown = readable(
                match from {
                    Some(name) => name,
                    None => text(""),
                },
            );
            return Err(ref_not_found(shown.as_str()));
        },
    };
    let pack = match repack(&bundle.pack) {
        Ok(pack) => pack,
        Err(e) => {
            return Err(e);
        },
    };
    Ok(Push::new(list, pack))
}

} // verus!
