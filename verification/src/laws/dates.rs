//! The order of a walk, said of the commits as they are written.

use vstd::prelude::*;

use crate::bytes::lex_less;
use crate::err::Error;
use crate::history::{
    comes_next, commit_in, earlier, may_come, parents_of, peeled, reachable, reached, time_of,
};
use crate::object::{CommitView, Kind, TagView};
use crate::Odb;

use super::objects::{
    commit_text, commits_are_read_as_written, is_commit, is_tag, tag_text, tags_are_read_as_written,
};

verus! {

/// The store holds the text of the commit under its id.
pub open spec fn stored<O: Odb>(odb: &O, oid: Seq<u8>, c: CommitView) -> bool {
    exists|others: Seq<Seq<u8>>|
        is_commit(c, others) && odb.lookup(oid) == Some((Kind::Commit, #[trigger] commit_text(c, others)))
}

/// The commits of a store.
pub open spec fn stores<O: Odb>(odb: &O, commits: Map<Seq<u8>, CommitView>) -> bool {
    &&& forall|oid: Seq<u8>| #[trigger] commits.dom().contains(oid) ==> stored(odb, oid, commits[oid])
    &&& forall|oid: Seq<u8>|
        #![trigger odb.lookup(oid)]
        odb.lookup(oid) matches Some((Kind::Commit, body)) ==> commits.dom().contains(oid)
}

/// A commit is left, and none of those that are left names it as a parent.
pub open spec fn free(commits: Map<Seq<u8>, CommitView>, left: Set<Seq<u8>>, oid: Seq<u8>) -> bool {
    left.contains(oid) && forall|child: Seq<u8>| #[trigger]
        left.contains(child) ==> !commits[child].parents.contains(oid)
}

/// The committer's time decides, and the greater id where the times are equal.
pub open spec fn precedes(commits: Map<Seq<u8>, CommitView>, a: Seq<u8>, b: Seq<u8>) -> bool {
    let (ta, tb) = (commits[a].committer.time, commits[b].committer.time);
    ta > tb || (ta == tb && lex_less(b, a))
}

proof fn lemma_stored<O: Odb>(odb: &O, oid: Seq<u8>, c: CommitView)
    requires
        stored(odb, oid, c),
    ensures
        commit_in(odb, oid) == Some(Ok::<_, Error>(c)),
        parents_of(odb, oid) == c.parents,
        time_of(odb, oid) == c.committer.time,
{
    let others = choose|others: Seq<Seq<u8>>|
        is_commit(c, others) && odb.lookup(oid) == Some((Kind::Commit, #[trigger] commit_text(c, others)));
    commits_are_read_as_written(c, others);
}

/// The commit that comes next is free, and its committer's time is later than that of every other
/// free commit; its id is the greater one where the times are equal. Every such commit comes next.
pub proof fn latest_committer_comes_next<O: Odb>(
    odb: &O,
    commits: Map<Seq<u8>, CommitView>,
    left: Set<Seq<u8>>,
    oid: Seq<u8>,
)
    requires
        stores(odb, commits),
        left.subset_of(commits.dom()),
    ensures
        comes_next(odb, left, oid) <==> (free(commits, left, oid) && forall|other: Seq<u8>| #[trigger]
            free(commits, left, other) && other != oid ==> precedes(commits, oid, other)),
{
    assert forall|x: Seq<u8>| #[trigger] may_come(odb, left, x) == free(commits, left, x) by {
        assert forall|child: Seq<u8>| #[trigger] left.contains(child) implies parents_of(odb, child)
            == commits[child].parents by {
            lemma_stored(odb, child, commits[child]);
        }
    }
    assert forall|x: Seq<u8>| left.contains(x) implies #[trigger] time_of(odb, x)
        == commits[x].committer.time by {
        lemma_stored(odb, x, commits[x]);
    }
    let wanted = free(commits, left, oid) && forall|other: Seq<u8>| #[trigger]
        free(commits, left, other) && other != oid ==> precedes(commits, oid, other);
    if comes_next(odb, left, oid) {
        assert forall|other: Seq<u8>| #[trigger] free(commits, left, other) && other != oid implies precedes(
            commits,
            oid,
            other,
        ) by {
            assert(may_come(odb, left, other));
            assert(earlier(odb, other, oid));
            assert(time_of(odb, other) == commits[other].committer.time);
            assert(time_of(odb, oid) == commits[oid].committer.time);
        }
        assert(may_come(odb, left, oid));
    }
    if wanted {
        assert(may_come(odb, left, oid));
        assert forall|other: Seq<u8>| #[trigger] may_come(odb, left, other) && other != oid implies earlier(
            odb,
            other,
            oid,
        ) by {
            assert(free(commits, left, other));
            assert(time_of(odb, other) == commits[other].committer.time);
            assert(time_of(odb, oid) == commits[oid].committer.time);
        }
    }
}

/// Two histories with the same commits, parents and committers have the same order, whatever their
/// authors, trees and messages are.
pub proof fn only_parents_and_committers_decide<P: Odb, Q: Odb>(
    a: &P,
    in_a: Map<Seq<u8>, CommitView>,
    b: &Q,
    in_b: Map<Seq<u8>, CommitView>,
    left: Set<Seq<u8>>,
    oid: Seq<u8>,
)
    requires
        stores(a, in_a),
        stores(b, in_b),
        left.subset_of(in_a.dom()),
        left.subset_of(in_b.dom()),
        forall|x: Seq<u8>| #[trigger]
            left.contains(x) ==> in_a[x].parents == in_b[x].parents && in_a[x].committer == in_b[x].committer,
    ensures
        comes_next(a, left, oid) == comes_next(b, left, oid),
{
    latest_committer_comes_next(a, in_a, left, oid);
    latest_committer_comes_next(b, in_b, left, oid);
    assert forall|x: Seq<u8>| #[trigger] free(in_a, left, x) == free(in_b, left, x) by {}
    assert forall|x: Seq<u8>| free(in_a, left, oid) && #[trigger] free(in_a, left, x) implies precedes(
        in_a,
        oid,
        x,
    ) == precedes(in_b, oid, x) by {
        assert(left.contains(x) && left.contains(oid));
    }
    if comes_next(a, left, oid) {
        assert(free(in_a, left, oid) && free(in_b, left, oid));
        assert forall|x: Seq<u8>| #[trigger] free(in_b, left, x) && x != oid implies precedes(in_b, oid, x) by {
            assert(free(in_a, left, x));
        }
    }
    if comes_next(b, left, oid) {
        assert(free(in_a, left, oid) && free(in_b, left, oid));
        assert forall|x: Seq<u8>| #[trigger] free(in_a, left, x) && x != oid implies precedes(in_a, oid, x) by {
            assert(free(in_b, left, x));
        }
    }
}

proof fn lemma_reached_within<O: Odb>(
    odb: &O,
    commits: Map<Seq<u8>, CommitView>,
    tips: Seq<Seq<u8>>,
    closed: Set<Seq<u8>>,
    oid: Seq<u8>,
    n: nat,
)
    requires
        stores(odb, commits),
        forall|i: int|
            0 <= i < tips.len() && commits.dom().contains(#[trigger] tips[i]) ==> closed.contains(tips[i]),
        forall|x: Seq<u8>, p: Seq<u8>|
            closed.contains(x) && commits.dom().contains(x) && #[trigger] commits[x].parents.contains(p)
                && commits.dom().contains(p) ==> closed.contains(p),
        reached(odb, tips, oid, n),
        commits.dom().contains(oid),
    ensures
        closed.contains(oid),
    decreases n,
{
    if n > 0 && !reached(odb, tips, oid, (n - 1) as nat) {
        let child = choose|child: Seq<u8>| #[trigger]
            parents_of(odb, child).contains(oid) && reached(odb, tips, child, (n - 1) as nat);
        assert(commit_in(odb, child) is Some);
        assert(commits.dom().contains(child));
        lemma_stored(odb, child, commits[child]);
        lemma_reached_within(odb, commits, tips, closed, child, (n - 1) as nat);
        assert(commits[child].parents.contains(oid));
    } else if n > 0 {
        lemma_reached_within(odb, commits, tips, closed, oid, (n - 1) as nat);
    } else {
        let i = choose|i: int| 0 <= i < tips.len() && tips[i] == oid;
        assert(commits.dom().contains(tips[i]));
    }
}

/// The commits of a walk are its start points and all ancestors that the store holds, and no others.
pub proof fn walk_is_the_start_points_and_their_ancestors<O: Odb>(
    odb: &O,
    commits: Map<Seq<u8>, CommitView>,
    tips: Seq<Seq<u8>>,
    closed: Set<Seq<u8>>,
)
    requires
        stores(odb, commits),
    ensures
        forall|i: int|
            0 <= i < tips.len() && commits.dom().contains(#[trigger] tips[i]) ==> reachable(
                odb,
                tips,
                tips[i],
            ),
        forall|x: Seq<u8>, p: Seq<u8>|
            reachable(odb, tips, x) && #[trigger] commits[x].parents.contains(p) && commits.dom().contains(p)
                ==> reachable(odb, tips, p),
        ((forall|i: int|
            0 <= i < tips.len() && commits.dom().contains(#[trigger] tips[i]) ==> closed.contains(tips[i]))
            && (forall|x: Seq<u8>, p: Seq<u8>|
            closed.contains(x) && commits.dom().contains(x) && #[trigger] commits[x].parents.contains(p)
                && commits.dom().contains(p) ==> closed.contains(p))) ==> forall|x: Seq<u8>| #[trigger]
            reachable(odb, tips, x) ==> closed.contains(x),
{
    assert forall|i: int| 0 <= i < tips.len() && commits.dom().contains(#[trigger] tips[i]) implies reachable(
        odb,
        tips,
        tips[i],
    ) by {
        lemma_stored(odb, tips[i], commits[tips[i]]);
        assert(reached(odb, tips, tips[i], 0));
    }
    assert forall|x: Seq<u8>, p: Seq<u8>|
        reachable(odb, tips, x) && #[trigger] commits[x].parents.contains(p) && commits.dom().contains(
            p,
        ) implies reachable(odb, tips, p) by {
        assert(commits.dom().contains(x));
        lemma_stored(odb, x, commits[x]);
        lemma_stored(odb, p, commits[p]);
        let n = choose|n: nat| reached(odb, tips, x, n);
        assert(parents_of(odb, x).contains(p));
        assert(reached(odb, tips, p, n + 1));
    }
    if (forall|i: int|
        0 <= i < tips.len() && commits.dom().contains(#[trigger] tips[i]) ==> closed.contains(tips[i])) && (
    forall|x: Seq<u8>, p: Seq<u8>|
        closed.contains(x) && commits.dom().contains(x) && #[trigger] commits[x].parents.contains(p)
            && commits.dom().contains(p) ==> closed.contains(p)) {
        assert forall|x: Seq<u8>| #[trigger] reachable(odb, tips, x) implies closed.contains(x) by {
            assert(commits.dom().contains(x));
            let n = choose|n: nat| reached(odb, tips, x, n);
            lemma_reached_within(odb, commits, tips, closed, x, n);
        }
    }
}

/// A start point that is a tag leads to what the tag is on; a commit leads to itself.
pub proof fn tags_lead_to_their_objects<O: Odb>(odb: &O, oid: Seq<u8>, t: TagView, c: CommitView, n: nat)
    ensures
        is_tag(t) && odb.lookup(oid) == Some((Kind::Tag, tag_text(t))) ==> peeled(odb, oid, n + 1) == peeled(
            odb,
            t.object,
            n,
        ),
        stored(odb, oid, c) ==> peeled(odb, oid, n + 1) == Ok::<_, Error>(oid),
{
    if is_tag(t) {
        tags_are_read_as_written(t);
    }
    if stored(odb, oid, c) {
        lemma_stored(odb, oid, c);
    }
}

} // verus!
