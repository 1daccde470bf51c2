//! The commits of a history in the order in which they come.

use vstd::prelude::*;

use crate::bytes::lex_less;
use crate::err::{Error, Result};
use crate::sort::{lemma_total, lemma_transitive};
use crate::Odb;

use super::laws::{is_walk, lemma_highest, next_commit_is_determined, without};
use super::{comes_next, earlier, may_come, parents_of, peeled, searched, Search};

verus! {

/// The commit that comes next, where one does.
pub open spec fn next_of<O: Odb>(odb: &O, left: Set<Seq<u8>>) -> Option<Seq<u8>> {
    if exists|oid: Seq<u8>| comes_next(odb, left, oid) {
        Some(choose|oid: Seq<u8>| comes_next(odb, left, oid))
    } else {
        None
    }
}

/// The commits that come, `limit` of them at most.
pub open spec fn commits_from<O: Odb>(odb: &O, left: Set<Seq<u8>>, limit: nat) -> Seq<Seq<u8>>
    decreases limit,
{
    if limit == 0 {
        Seq::empty()
    } else {
        match next_of(odb, left) {
            None => Seq::empty(),
            Some(oid) => seq![oid] + commits_from(odb, left.remove(oid), (limit - 1) as nat),
        }
    }
}

pub proof fn lemma_next_of<O: Odb>(odb: &O, left: Set<Seq<u8>>, oid: Seq<u8>)
    requires
        comes_next(odb, left, oid),
    ensures
        next_of(odb, left) == Some(oid),
{
    next_commit_is_determined(odb, left, next_of(odb, left)->0, oid);
}

pub proof fn lemma_no_next<O: Odb>(odb: &O, left: Set<Seq<u8>>)
    requires
        forall|oid: Seq<u8>| !may_come(odb, left, oid),
    ensures
        next_of(odb, left) is None,
{
    if next_of(odb, left) is Some {
        let oid = next_of(odb, left)->0;
        assert(may_come(odb, left, oid));
    }
}

/// All commits that come, from a finite set of them.
pub open spec fn all_commits<O: Odb>(odb: &O, left: Set<Seq<u8>>) -> Seq<Seq<u8>> {
    commits_from(odb, left, left.len())
}

/// No more commits come than there are.
pub proof fn lemma_limit<O: Odb>(odb: &O, left: Set<Seq<u8>>, n: nat)
    requires
        left.finite(),
        left.len() <= n,
    ensures
        commits_from(odb, left, n) == all_commits(odb, left),
    decreases n,
{
    match next_of(odb, left) {
        None => {},
        Some(oid) => {
            assert(comes_next(odb, left, oid));
            assert(left.contains(oid));
            lemma_limit(odb, left.remove(oid), (n - 1) as nat);
        },
    }
}

/// The search for commits ends with the error.
pub open spec fn fails_with<O: Odb>(odb: &O, tips: Seq<Seq<u8>>, e: Error) -> bool {
    exists|n: nat| #[trigger] searched(odb, tips, n) == Err::<Search, Error>(e)
}

/// The error that the search for commits ends with.
pub open spec fn search_error<O: Odb>(odb: &O, tips: Seq<Seq<u8>>) -> Error {
    choose|e: Error| fails_with(odb, tips, e)
}

proof fn lemma_search_stays<O: Odb>(odb: &O, tips: Seq<Seq<u8>>, n: nat, m: nat)
    requires
        n <= m,
        searched(odb, tips, n) is Err,
    ensures
        searched(odb, tips, m) == searched(odb, tips, n),
    decreases m,
{
    if n < m {
        lemma_search_stays(odb, tips, n, (m - 1) as nat);
    }
}

pub proof fn lemma_search_error<O: Odb>(odb: &O, tips: Seq<Seq<u8>>, e: Error)
    requires
        fails_with(odb, tips, e),
    ensures
        search_error(odb, tips) == e,
{
    let f = search_error(odb, tips);
    let n = choose|n: nat| #[trigger] searched(odb, tips, n) == Err::<Search, Error>(e);
    let m = choose|m: nat| #[trigger] searched(odb, tips, m) == Err::<Search, Error>(f);
    if n <= m {
        lemma_search_stays(odb, tips, n, m);
    } else {
        lemma_search_stays(odb, tips, m, n);
    }
}

/// The commits that start points lead to; the first that leads to none is an error.
pub open spec fn tips_of<O: Odb>(odb: &O, oids: Seq<Seq<u8>>) -> Result<Seq<Seq<u8>>>
    decreases oids.len(),
{
    if oids.len() == 0 {
        Ok(Seq::empty())
    } else {
        match tips_of(odb, oids.drop_last()) {
            Err(e) => Err(e),
            Ok(tips) => match peeled(odb, oids.last(), 16) {
                Ok(tip) => Ok(tips.push(tip)),
                Err(e) => Err(e),
            },
        }
    }
}

/// An error at one start point is the error of all.
pub proof fn lemma_tips_of<O: Odb>(odb: &O, oids: Seq<Seq<u8>>, n: int)
    requires
        0 <= n <= oids.len(),
        tips_of(odb, oids.take(n)) is Err,
    ensures
        tips_of(odb, oids) == tips_of(odb, oids.take(n)),
    decreases oids.len() - n,
{
    if n < oids.len() {
        assert(oids.take(n + 1).drop_last() =~= oids.take(n));
        lemma_tips_of(odb, oids, n + 1);
    } else {
        assert(oids.take(n) =~= oids);
    }
}

proof fn lemma_without_shift(all: Set<Seq<u8>>, oid: Seq<u8>, rest: Seq<Seq<u8>>, i: int)
    requires
        0 <= i <= rest.len(),
    ensures
        without(all, seq![oid] + rest, i + 1) == without(all.remove(oid), rest, i),
    decreases i,
{
    let s = seq![oid] + rest;
    if i > 0 {
        lemma_without_shift(all, oid, rest, i - 1);
        assert(s[i] == rest[i - 1]);
    } else {
        assert(without(all, s, 0) == all);
        assert(s[0] == oid);
    }
}

/// What is listed is how the walk goes: each commit in the list comes next when those before it
/// came.
pub proof fn listed_commits_are_a_walk<O: Odb>(odb: &O, all: Set<Seq<u8>>, limit: nat)
    ensures
        is_walk(odb, all, commits_from(odb, all, limit)),
        commits_from(odb, all, limit).len() <= limit,
    decreases limit,
{
    let s = commits_from(odb, all, limit);
    if limit > 0 && next_of(odb, all) is Some {
        let oid = next_of(odb, all)->0;
        let rest = commits_from(odb, all.remove(oid), (limit - 1) as nat);
        listed_commits_are_a_walk(odb, all.remove(oid), (limit - 1) as nat);
        assert(comes_next(odb, all, oid));
        assert forall|i: int| 0 <= i < s.len() implies comes_next(
            odb,
            without(all, s, i),
            #[trigger] s[i],
        ) by {
            if i == 0 {
                assert(without(all, s, 0) == all);
            } else {
                lemma_without_shift(all, oid, rest, i - 1);
                assert(rest[i - 1] == s[i]);
            }
        }
    }
}

/// The latest commit of a finite set.
proof fn lemma_latest<O: Odb>(odb: &O, within: Set<Seq<u8>>) -> (oid: Seq<u8>)
    requires
        within.finite(),
        within.len() > 0,
    ensures
        within.contains(oid),
        forall|x: Seq<u8>| #[trigger] within.contains(x) && x != oid ==> earlier(odb, x, oid),
    decreases within.len(),
{
    let a = within.choose();
    let rest = within.remove(a);
    if rest.len() == 0 {
        assert forall|x: Seq<u8>| #[trigger] within.contains(x) && x != a implies earlier(odb, x, a) by {
            assert(rest.contains(x));
        }
        a
    } else {
        let b = lemma_latest(odb, rest);
        lemma_total(a, b);
        let best = if earlier(odb, a, b) {
            b
        } else {
            a
        };
        assert forall|x: Seq<u8>| #[trigger] within.contains(x) && x != best implies earlier(
            odb,
            x,
            best,
        ) by {
            if x != a {
                assert(rest.contains(x));
                if x != b && best == a && lex_less(x, b) && lex_less(b, a) {
                    lemma_transitive(x, b, a);
                }
            }
        }
        best
    }
}

/// As long as a commit may come, one comes.
proof fn lemma_some_next<O: Odb>(odb: &O, left: Set<Seq<u8>>, oid: Seq<u8>)
    requires
        left.finite(),
        may_come(odb, left, oid),
    ensures
        next_of(odb, left) is Some,
{
    let within = left.filter(|x: Seq<u8>| may_come(odb, left, x));
    assert(within.contains(oid));
    assert(within.finite());
    assert(within.len() > 0) by {
        vstd::set_lib::lemma_set_empty_equivalency_len(within);
    }
    let latest = lemma_latest(odb, within);
    assert(comes_next(odb, left, latest)) by {
        assert forall|other: Seq<u8>| #[trigger]
            may_come(odb, left, other) && other != latest implies earlier(odb, other, latest) by {
            assert(within.contains(other));
        }
    }
}

/// Every commit is listed, where no commit is its own ancestor: there is a rank that is lower for
/// parents than for their children. So the list is as long as the history.
pub proof fn every_commit_is_listed<O: Odb>(
    odb: &O,
    all: Set<Seq<u8>>,
    rank: spec_fn(Seq<u8>) -> nat,
)
    requires
        all.finite(),
        forall|x: Seq<u8>, p: Seq<u8>|
            all.contains(x) && #[trigger] parents_of(odb, x).contains(p) ==> rank(p) < rank(x),
    ensures
        all_commits(odb, all).len() == all.len(),
        forall|oid: Seq<u8>| all.contains(oid) <==> #[trigger] all_commits(odb, all).contains(oid),
    decreases all.len(),
{
    let s = all_commits(odb, all);
    if all.len() > 0 {
        let top = lemma_highest(rank, all);
        assert(may_come(odb, all, top)) by {
            assert forall|child: Seq<u8>| #[trigger] all.contains(child) implies !parents_of(
                odb,
                child,
            ).contains(top) by {
                if parents_of(odb, child).contains(top) {
                    assert(rank(top) < rank(child));
                }
            }
        }
        lemma_some_next(odb, all, top);
        let oid = next_of(odb, all)->0;
        let left = all.remove(oid);
        assert(comes_next(odb, all, oid));
        assert(all.contains(oid));
        every_commit_is_listed(odb, left, rank);
        let rest = all_commits(odb, left);
        assert(s == seq![oid] + rest);
        assert forall|x: Seq<u8>| all.contains(x) <==> #[trigger] s.contains(x) by {
            if all.contains(x) {
                if x == oid {
                    assert(s[0] == x);
                } else {
                    assert(left.contains(x));
                    assert(rest.contains(x));
                    let i = choose|i: int| 0 <= i < rest.len() && rest[i] == x;
                    assert(s[i + 1] == x);
                }
            }
            if s.contains(x) {
                let i = choose|i: int| 0 <= i < s.len() && s[i] == x;
                if i > 0 {
                    assert(rest[i - 1] == x);
                    assert(rest.contains(x));
                }
            }
        }
    } else {
        assert forall|x: Seq<u8>| all.contains(x) <==> #[trigger] s.contains(x) by {
            vstd::set_lib::lemma_set_empty_equivalency_len(all);
        }
    }
}

} // verus!
