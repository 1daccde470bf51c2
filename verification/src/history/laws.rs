//! What holds of a walk as a whole.

use vstd::prelude::*;

use crate::sort::lemma_total;
use crate::Odb;

use super::{comes_next, earlier, may_come, parents_of};

verus! {

/// The commits of `all` without the first `n` of `s`.
pub open spec fn without(all: Set<Seq<u8>>, s: Seq<Seq<u8>>, n: int) -> Set<Seq<u8>>
    decreases n,
{
    if n <= 0 {
        all
    } else {
        without(all, s, n - 1).remove(s[n - 1])
    }
}

/// `s` is how a walk through the commits of `all` starts.
pub open spec fn is_walk<O: Odb>(odb: &O, all: Set<Seq<u8>>, s: Seq<Seq<u8>>) -> bool {
    forall|i: int| 0 <= i < s.len() ==> comes_next(odb, without(all, s, i), #[trigger] s[i])
}

proof fn lemma_without(all: Set<Seq<u8>>, s: Seq<Seq<u8>>, n: int, x: Seq<u8>)
    requires
        0 <= n <= s.len(),
    ensures
        without(all, s, n).contains(x) == (all.contains(x) && !s.take(n).contains(x)),
    decreases n,
{
    if n > 0 {
        lemma_without(all, s, n - 1, x);
        let (a, b) = (s.take(n - 1), s.take(n));
        assert(b =~= a.push(s[n - 1]));
        if a.contains(x) {
            let i = choose|i: int| 0 <= i < a.len() && a[i] == x;
            assert(b[i] == x);
        }
        assert(b[n - 1] == s[n - 1]);
        if b.contains(x) {
            let i = choose|i: int| 0 <= i < b.len() && b[i] == x;
            if i < n - 1 {
                assert(a[i] == x);
            }
        }
    } else {
        assert(s.take(0) =~= Seq::<Seq<u8>>::empty());
    }
}

/// At every point at most one commit comes next, so start points and their order do not matter.
pub proof fn next_commit_is_determined<O: Odb>(odb: &O, left: Set<Seq<u8>>, a: Seq<u8>, b: Seq<u8>)
    requires
        comes_next(odb, left, a),
        comes_next(odb, left, b),
    ensures
        a == b,
{
    if a != b {
        assert(may_come(odb, left, a) && may_come(odb, left, b));
        assert(earlier(odb, a, b) && earlier(odb, b, a));
        lemma_total(a, b);
    }
}

/// Only commits of the history come, and each of them once.
pub proof fn each_commit_comes_once<O: Odb>(odb: &O, all: Set<Seq<u8>>, s: Seq<Seq<u8>>)
    requires
        is_walk(odb, all, s),
    ensures
        s.no_duplicates(),
        forall|i: int| 0 <= i < s.len() ==> all.contains(#[trigger] s[i]),
{
    assert forall|i: int, j: int| 0 <= i < j < s.len() implies s[i] != s[j] by {
        assert(comes_next(odb, without(all, s, j), s[j]));
        lemma_without(all, s, j, s[j]);
        assert(s.take(j)[i] == s[i]);
    }
    assert forall|i: int| 0 <= i < s.len() implies all.contains(#[trigger] s[i]) by {
        lemma_without(all, s, i, s[i]);
    }
}

/// A commit comes after all of its children.
pub proof fn children_come_first<O: Odb>(
    odb: &O,
    all: Set<Seq<u8>>,
    s: Seq<Seq<u8>>,
    i: int,
    child: Seq<u8>,
)
    requires
        is_walk(odb, all, s),
        0 <= i < s.len(),
        all.contains(child),
        parents_of(odb, child).contains(s[i]),
    ensures
        s.take(i).contains(child),
{
    assert(comes_next(odb, without(all, s, i), s[i]));
    lemma_without(all, s, i, child);
}

/// A commit of a finite set with the highest rank in it.
pub(super) proof fn lemma_highest(
    rank: spec_fn(Seq<u8>) -> nat,
    within: Set<Seq<u8>>,
) -> (oid: Seq<u8>)
    requires
        within.finite(),
        within.len() > 0,
    ensures
        within.contains(oid),
        forall|x: Seq<u8>| #[trigger] within.contains(x) ==> rank(x) <= rank(oid),
    decreases within.len(),
{
    let a = within.choose();
    let rest = within.remove(a);
    if rest.len() == 0 {
        assert forall|x: Seq<u8>| #[trigger] within.contains(x) implies rank(x) <= rank(a) by {
            if x != a {
                assert(rest.contains(x));
            }
        }
        a
    } else {
        let b = lemma_highest(rank, rest);
        let best = if rank(a) <= rank(b) {
            b
        } else {
            a
        };
        assert forall|x: Seq<u8>| #[trigger] within.contains(x) implies rank(x) <= rank(best) by {
            if x != a {
                assert(rest.contains(x));
            }
        }
        best
    }
}

/// A walk ends only when every commit came, where no commit is its own ancestor: there is a rank
/// that is lower for parents than for their children.
pub proof fn every_commit_comes<O: Odb>(
    odb: &O,
    all: Set<Seq<u8>>,
    s: Seq<Seq<u8>>,
    rank: spec_fn(Seq<u8>) -> nat,
    oid: Seq<u8>,
)
    requires
        all.finite(),
        is_walk(odb, all, s),
        forall|x: Seq<u8>| !may_come(odb, without(all, s, s.len() as int), x),
        forall|x: Seq<u8>, p: Seq<u8>|
            all.contains(x) && #[trigger] parents_of(odb, x).contains(p) ==> rank(p) < rank(x),
        all.contains(oid),
    ensures
        s.contains(oid),
{
    let left = without(all, s, s.len() as int);
    lemma_without_finite(all, s, s.len() as int);
    lemma_without(all, s, s.len() as int, oid);
    assert(s.take(s.len() as int) =~= s);
    if left.contains(oid) {
        assert(left.len() > 0) by {
            vstd::set_lib::lemma_set_empty_equivalency_len(left);
        }
        let top = lemma_highest(rank, left);
        assert forall|child: Seq<u8>| #[trigger] left.contains(child) implies !parents_of(
            odb,
            child,
        ).contains(top) by {
            lemma_without(all, s, s.len() as int, child);
            if parents_of(odb, child).contains(top) {
                assert(rank(top) < rank(child));
            }
        }
        assert(may_come(odb, left, top));
    }
}

proof fn lemma_without_finite(all: Set<Seq<u8>>, s: Seq<Seq<u8>>, n: int)
    requires
        all.finite(),
    ensures
        without(all, s, n).finite(),
    decreases n,
{
    if n > 0 {
        lemma_without_finite(all, s, n - 1);
    }
}

} // verus!
