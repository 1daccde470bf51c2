//! The history in a bundle: where it starts and which commits it lists.

use vstd::prelude::*;

use crate::bundle::{ref_list, ref_named, Bundle};
use crate::bytes::{cut, cut_at};
use crate::err::{Error, Result};
use crate::history::order::{
    commits_from, lemma_next_of, lemma_no_next, lemma_search_error, lemma_tips_of, search_error,
    tips_of,
};
use crate::history::{commit_in, reachable, reachable_set, unbroken, Walk, WalkedCommit};
use crate::object::{commit_view, CommitView};
use crate::oid::Oid;
use crate::pack::Pack;
use crate::Odb;

verus! {

// --- where a history starts --------------------------------------------------------------------------------

/// Why a history cannot start.
#[derive(Debug, Clone, Copy, PartialEq, Eq)]
pub enum StartError {
    /// There is no ref with the name.
    NoRef,
    /// A ref leads to no commit.
    Refused(Error),
}

/// What refs point to.
pub open spec fn targets(refs: Seq<(Seq<u8>, Seq<u8>)>) -> Seq<Seq<u8>> {
    refs.map_values(|r: (Seq<u8>, Seq<u8>)| r.1)
}

/// The commits that a history starts at: that of the ref with the name, or those of all refs.
pub open spec fn starts<O: Odb>(
    odb: &O,
    refs: Seq<(Seq<u8>, Seq<u8>)>,
    name: Option<Seq<u8>>,
) -> core::result::Result<Seq<Seq<u8>>, StartError> {
    let oids = match name {
        Some(n) => match ref_named(refs, n) {
            Some(oid) => Some(seq![oid]),
            None => None,
        },
        None => Some(targets(refs)),
    };
    match oids {
        None => Err(StartError::NoRef),
        Some(oids) => match tips_of(odb, oids) {
            Ok(tips) => Ok(tips),
            Err(e) => Err(StartError::Refused(e)),
        },
    }
}

/// Adds what refs point to as start points.
pub fn push_refs<'b, O: Odb>(walk: &mut Walk<'b, O>, refs: &[(&[u8], Oid)]) -> (r: Result<()>)
    requires
        old(walk).wf(),
        !old(walk)@.started,
        old(walk)@.tips.len() == 0,
    ensures
        final(walk).wf(),
        final(walk).odb() == old(walk).odb(),
        !final(walk)@.started,
        match r {
            Ok(()) => tips_of(old(walk).odb(), targets(ref_list(refs@))) == Ok::<_, Error>(
                final(walk)@.tips,
            ),
            Err(e) => tips_of(old(walk).odb(), targets(ref_list(refs@))) == Err::<Seq<Seq<u8>>, _>(e),
        },
{
    let ghost all = targets(ref_list(refs@));
    let ghost odb = walk.odb();
    let mut i: usize = 0;
    assert(all.take(0) =~= Seq::<Seq<u8>>::empty());
    assert(walk@.tips =~= Seq::<Seq<u8>>::empty());
    while i < refs.len()
        invariant
            i <= refs@.len(),
            all == targets(ref_list(refs@)),
            walk.wf(),
            walk.odb() == odb,
            odb == old(walk).odb(),
            !walk@.started,
            tips_of(odb, all.take(i as int)) == Ok::<_, Error>(walk@.tips),
        decreases refs.len() - i,
    {
        assert(all.take(i + 1).drop_last() =~= all.take(i as int));
        assert(all.take(i + 1).last() == refs@[i as int].1@);
        if let Err(e) = walk.push(refs[i].1) {
            proof {
                lemma_tips_of(odb, all, i + 1);
            }
            return Err(e);
        }
        i += 1;
    }
    assert(all.take(i as int) =~= all);
    Ok(())
}

/// A walk from the ref with the name, or from all refs.
pub fn start<'b, 'a>(bundle: &'b Bundle<'a>, name: Option<&[u8]>) -> (r: core::result::Result<
    Walk<'b, Pack<'a>>,
    StartError,
>)
    ensures
        match r {
            Ok(walk) => {
                &&& walk.wf()
                &&& walk.odb() == &bundle.pack
                &&& !walk@.started
                &&& starts(&bundle.pack, ref_list(bundle.refs@), name_view(name)) == Ok::<_, StartError>(
                    walk@.tips,
                )
            },
            Err(e) => starts(&bundle.pack, ref_list(bundle.refs@), name_view(name)) == Err::<
                Seq<Seq<u8>>,
                _,
            >(e),
        },
{
    let mut walk = Walk::new(&bundle.pack);
    match name {
        Some(n) => {
            let oid = match bundle.find_ref(n) {
                Some(oid) => oid,
                None => {
                    return Err(StartError::NoRef);
                },
            };
            let ghost one = seq![oid@];
            proof {
                assert(one.drop_last() =~= Seq::<Seq<u8>>::empty());
                assert(tips_of(&bundle.pack, one.drop_last()) == Ok::<_, Error>(one.drop_last()));
                assert(one.last() == oid@);
                assert(walk@.tips =~= Seq::<Seq<u8>>::empty());
            }
            if let Err(e) = walk.push(oid) {
                return Err(StartError::Refused(e));
            }
        },
        None => {
            if let Err(e) = push_refs(&mut walk, bundle.refs.as_slice()) {
                return Err(StartError::Refused(e));
            }
        },
    }
    Ok(walk)
}

pub open spec fn name_view(name: Option<&[u8]>) -> Option<Seq<u8>> {
    match name {
        Some(n) => Some(n@),
        None => None,
    }
}

/// What is said of a ref that is not there.
pub open spec fn not_found_text(name: Seq<char>) -> Seq<char> {
    "ref not found: "@ + name
}

/// What is said of a ref that is not there.
pub fn ref_not_found(name: &str) -> (r: String)
    ensures
        r@ == not_found_text(name@),
{
    let mut message = "ref not found: ".to_owned();
    message.append(name);
    message
}

// --- which commits are listed ----------------------------------------------------------------------------

/// The commits that are listed, `limit` of them at most. Where one of the history is broken, none
/// are; that shows only when there is one to list.
pub open spec fn listed<O: Odb>(odb: &O, tips: Seq<Seq<u8>>, limit: nat) -> Result<Seq<Seq<u8>>> {
    if limit == 0 {
        Ok(Seq::empty())
    } else if !unbroken(odb, tips) {
        Err(search_error(odb, tips))
    } else {
        Ok(commits_from(odb, reachable_set(odb, tips), limit))
    }
}

/// The commit with the id.
pub open spec fn commit_at<O: Odb>(odb: &O, oid: Seq<u8>) -> CommitView {
    commit_in(odb, oid)->0->Ok_0
}

/// The first line of a message.
pub open spec fn subject_of(message: Seq<u8>) -> Seq<u8> {
    match cut(message, 10) {
        Some((line, _)) => line,
        None => message,
    }
}

/// The first line of a message.
pub fn subject<'a>(message: &'a [u8]) -> (r: &'a [u8])
    ensures
        r@ == subject_of(message@),
{
    match cut_at(message, 10) {
        Some((line, _)) => line,
        None => message,
    }
}

/// How far a list has come.
pub open spec fn listing<O: Odb>(
    walk: &Walk<'_, O>,
    odb: &O,
    tips: Seq<Seq<u8>>,
    limit: nat,
    done: Seq<Seq<u8>>,
) -> bool {
    &&& walk.wf()
    &&& walk.odb() == odb
    &&& walk@.tips == tips
    &&& done.len() <= limit
    &&& walk@.started <==> done.len() > 0
    &&& done.len() > 0 ==> unbroken(odb, tips)
    &&& forall|oid: Seq<u8>| #[trigger]
        walk.to_come().contains(oid) ==> reachable(odb, tips, oid)
    &&& commits_from(odb, reachable_set(odb, tips), limit) == done + commits_from(
        odb,
        walk.to_come(),
        (limit - done.len()) as nat,
    )
}

/// The start of a list.
pub proof fn lemma_listing_start<O: Odb>(
    walk: &Walk<'_, O>,
    odb: &O,
    tips: Seq<Seq<u8>>,
    limit: nat,
)
    requires
        walk.wf(),
        walk.odb() == odb,
        walk@.tips == tips,
        !walk@.started,
    ensures
        listing(walk, odb, tips, limit, Seq::empty()),
{
    let none = Seq::<Seq<u8>>::empty();
    assert(none + commits_from(odb, walk.to_come(), limit) =~= commits_from(odb, walk.to_come(), limit));
}

/// The end of a list that is as long as it may be.
pub proof fn lemma_listing_end<O: Odb>(
    walk: &Walk<'_, O>,
    odb: &O,
    tips: Seq<Seq<u8>>,
    limit: nat,
    done: Seq<Seq<u8>>,
)
    requires
        listing(walk, odb, tips, limit, done),
        done.len() == limit,
    ensures
        listed(odb, tips, limit) == Ok::<_, Error>(done),
{
    assert(done + Seq::<Seq<u8>>::empty() =~= done);
}

/// The commit that comes next, while fewer than `limit` did.
pub(crate) fn next_listed<'b, O: Odb>(
    walk: &mut Walk<'b, O>,
    Ghost(odb): Ghost<&O>,
    Ghost(tips): Ghost<Seq<Seq<u8>>>,
    Ghost(limit): Ghost<nat>,
    Ghost(done): Ghost<Seq<Seq<u8>>>,
) -> (r: Option<Result<WalkedCommit>>)
    requires
        listing(old(walk), odb, tips, limit, done),
        done.len() < limit,
    ensures
        match r {
            Some(Ok(c)) => {
                &&& listing(final(walk), odb, tips, limit, done.push(c.oid@))
                &&& commit_view(c.raw@) == Ok::<_, Error>(commit_at(odb, c.oid@))
                &&& old(walk).to_come().contains(c.oid@)
                &&& final(walk)@.left == old(walk).to_come().remove(c.oid@)
                &&& final(walk)@.left.finite()
            },
            Some(Err(e)) => listed(odb, tips, limit) == Err::<Seq<Seq<u8>>, _>(e),
            None => {
                &&& listed(odb, tips, limit) == Ok::<_, Error>(done)
                &&& old(walk).to_come().finite()
            },
        },
{
    let ghost left = walk.to_come();
    let r = walk.next();
    proof {
        match &r {
            Some(Ok(c)) => {
                lemma_next_of(odb, left, c.oid@);
                let rest = commits_from(odb, walk.to_come(), (limit - done.len() - 1) as nat);
                assert(done + (seq![c.oid@] + rest) =~= done.push(c.oid@) + rest);
                assert(left.contains(c.oid@));
                assert(reachable(odb, tips, c.oid@));
            },
            Some(Err(e)) => {
                lemma_search_error(odb, tips, *e);
            },
            None => {
                lemma_no_next(odb, left);
                assert(done + Seq::<Seq<u8>>::empty() =~= done);
            },
        }
    }
    r
}

} // verus!
