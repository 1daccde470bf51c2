//! Walking through the history of commits.
//!
//! The order is that of `git log --date-order`: a parent comes after all of its children, and of
//! the commits that may come next the one with the latest committer time does. The first step
//! finds every reachable commit and counts the children of each; from then on a commit may come
//! once all its children did. A parent that is not in the store (a shallow history, a prerequisite
//! of a bundle) ends the history there.

pub mod laws;
pub mod order;

use vstd::prelude::*;

use crate::bytes::lex_less;
use crate::err::{agrees, Error, Result};
use crate::object::{
    commit_view, oid_views, parse_commit, parse_tag, tag_view, Commit, CommitView, Kind,
};
use crate::oid::Oid;
use crate::sort::{lemma_total, lemma_transitive};
use crate::Odb;

verus! {

// --- the history in a store ------------------------------------------------------------------------

/// The commit with the given id, where there is one.
pub open spec fn commit_in<O: Odb>(odb: &O, oid: Seq<u8>) -> Option<Result<CommitView>> {
    match odb.lookup(oid) {
        Some((Kind::Commit, body)) => Some(commit_view(body)),
        _ => None,
    }
}

pub open spec fn parents_of<O: Odb>(odb: &O, oid: Seq<u8>) -> Seq<Seq<u8>> {
    match commit_in(odb, oid) {
        Some(Ok(c)) => c.parents,
        _ => Seq::empty(),
    }
}

pub open spec fn time_of<O: Odb>(odb: &O, oid: Seq<u8>) -> int {
    match commit_in(odb, oid) {
        Some(Ok(c)) => c.committer.time,
        _ => 0,
    }
}

/// The id is that of a start point or of an ancestor at most `n` generations up.
pub open spec fn reached<O: Odb>(odb: &O, tips: Seq<Seq<u8>>, oid: Seq<u8>, n: nat) -> bool
    decreases n,
{
    if n == 0 {
        tips.contains(oid)
    } else {
        reached(odb, tips, oid, (n - 1) as nat) || exists|child: Seq<u8>| #[trigger]
            parents_of(odb, child).contains(oid) && reached(odb, tips, child, (n - 1) as nat)
    }
}

/// The id is that of a start point or of an ancestor.
pub open spec fn in_reach<O: Odb>(odb: &O, tips: Seq<Seq<u8>>, oid: Seq<u8>) -> bool {
    exists|n: nat| reached(odb, tips, oid, n)
}

/// The id is that of a commit that can be reached from the start points.
pub open spec fn reachable<O: Odb>(odb: &O, tips: Seq<Seq<u8>>, oid: Seq<u8>) -> bool {
    commit_in(odb, oid) is Some && in_reach(odb, tips, oid)
}

/// A start point is in reach.
proof fn lemma_tip_in_reach<O: Odb>(odb: &O, tips: Seq<Seq<u8>>, oid: Seq<u8>)
    requires
        tips.contains(oid),
    ensures
        in_reach(odb, tips, oid),
{
    assert(reached(odb, tips, oid, 0));
}

/// A parent of what is in reach is in reach.
proof fn lemma_parent_in_reach<O: Odb>(odb: &O, tips: Seq<Seq<u8>>, child: Seq<u8>, oid: Seq<u8>)
    requires
        in_reach(odb, tips, child),
        parents_of(odb, child).contains(oid),
    ensures
        in_reach(odb, tips, oid),
{
    let n = choose|n: nat| reached(odb, tips, child, n);
    assert(reached(odb, tips, oid, n + 1));
}

/// All commits that can be reached.
pub open spec fn reachable_set<O: Odb>(odb: &O, tips: Seq<Seq<u8>>) -> Set<Seq<u8>> {
    Set::new(|oid: Seq<u8>| reachable(odb, tips, oid))
}

/// Every commit that can be reached is well formed.
pub open spec fn unbroken<O: Odb>(odb: &O, tips: Seq<Seq<u8>>) -> bool {
    forall|oid: Seq<u8>| #[trigger] reachable(odb, tips, oid) ==> commit_in(odb, oid)->0 is Ok
}

/// `oid` is left and none of its children is.
pub open spec fn may_come<O: Odb>(odb: &O, left: Set<Seq<u8>>, oid: Seq<u8>) -> bool {
    &&& left.contains(oid)
    &&& forall|child: Seq<u8>| #[trigger]
        left.contains(child) ==> !parents_of(odb, child).contains(oid)
}

/// `a` is older than `b`, or as old and less.
pub open spec fn earlier<O: Odb>(odb: &O, a: Seq<u8>, b: Seq<u8>) -> bool {
    time_of(odb, a) < time_of(odb, b) || (time_of(odb, a) == time_of(odb, b) && lex_less(a, b))
}

/// `oid` is the latest of those that may come.
pub open spec fn comes_next<O: Odb>(odb: &O, left: Set<Seq<u8>>, oid: Seq<u8>) -> bool {
    &&& may_come(odb, left, oid)
    &&& forall|other: Seq<u8>| #[trigger]
        may_come(odb, left, other) && other != oid ==> earlier(odb, other, oid)
}

/// The commit that a start point leads to, through at most `n` objects.
pub open spec fn peeled<O: Odb>(odb: &O, oid: Seq<u8>, n: nat) -> Result<Seq<u8>>
    decreases n,
{
    if n == 0 {
        Err(Error::Corrupt("tag nesting too deep"))
    } else {
        match odb.lookup(oid) {
            None => Err(Error::MissingBase),
            Some((Kind::Commit, body)) => match commit_view(body) {
                Ok(_) => Ok(oid),
                Err(e) => Err(e),
            },
            Some((Kind::Tag, body)) => match tag_view(body) {
                Ok(tag) => peeled(odb, tag.object, (n - 1) as nat),
                Err(e) => Err(e),
            },
            Some(_) => Err(Error::Corrupt("start point is not a commit")),
        }
    }
}

/// The commit that a start point leads to, and its body.
pub fn peel<O: Odb>(odb: &O, oid: Oid) -> (r: Result<(Oid, Vec<u8>)>)
    ensures
        match peeled(odb, oid@, 16) {
            Ok(commit) => r matches Ok((tip, body)) && tip@ == commit && odb.lookup(commit) == Some(
                (Kind::Commit, body@),
            ) && commit_view(body@) is Ok,
            Err(e) => r matches Err(f) && f == e,
        },
{
    let mut cur = oid;
    let mut n: u32 = 16;
    while n > 0
        invariant
            n <= 16,
            peeled(odb, oid@, 16) == peeled(odb, cur@, n as nat),
        decreases n,
    {
        let Some((kind, body)) = odb.read(&cur) else {
            return Err(Error::MissingBase);
        };
        match kind {
            Kind::Commit => {
                parse_commit(body.as_slice())?;
                return Ok((cur, body));
            },
            Kind::Tag => {
                cur = parse_tag(body.as_slice())?.object;
            },
            _ => {
                return Err(Error::Corrupt("start point is not a commit"));
            },
        }
        n -= 1;
    }
    Err(Error::Corrupt("tag nesting too deep"))
}

// --- finding the commits ------------------------------------------------------------------------------

/// How far the search has come: what is still to be looked at, the next last, and what was found.
pub struct Search {
    pub stack: Seq<Seq<u8>>,
    pub found: Seq<Seq<u8>>,
}

/// `s` without what was in it before, in the order of the first occurrences.
pub open spec fn unique_of(s: Seq<Seq<u8>>) -> Seq<Seq<u8>>
    decreases s.len(),
{
    if s.len() == 0 {
        s
    } else {
        let rest = unique_of(s.drop_last());
        if rest.contains(s.last()) {
            rest
        } else {
            rest.push(s.last())
        }
    }
}

/// One step of the search.
pub open spec fn search_step<O: Odb>(odb: &O, s: Search) -> Result<Search> {
    let oid = s.stack.last();
    let rest = s.stack.drop_last();
    if s.found.contains(oid) {
        Ok(Search { stack: rest, ..s })
    } else {
        match commit_in(odb, oid) {
            None => Ok(Search { stack: rest, ..s }),
            Some(Err(e)) => Err(e),
            Some(Ok(c)) => Ok(Search { stack: rest + unique_of(c.parents), found: s.found.push(oid) }),
        }
    }
}

/// The search after `n` steps; an error, or an empty stack, ends it.
pub open spec fn searched<O: Odb>(odb: &O, tips: Seq<Seq<u8>>, n: nat) -> Result<Search>
    decreases n,
{
    if n == 0 {
        Ok(Search { stack: tips, found: Seq::empty() })
    } else {
        match searched(odb, tips, (n - 1) as nat) {
            Err(e) => Err(e),
            Ok(s) => if s.stack.len() == 0 {
                Ok(s)
            } else {
                search_step(odb, s)
            },
        }
    }
}

pub proof fn lemma_unique_of(s: Seq<Seq<u8>>)
    ensures
        forall|x: Seq<u8>| #[trigger] unique_of(s).contains(x) == s.contains(x),
        unique_of(s).no_duplicates(),
    decreases s.len(),
{
    if s.len() > 0 {
        let t = s.drop_last();
        let u = unique_of(t);
        lemma_unique_of(t);
        assert forall|x: Seq<u8>| #[trigger] unique_of(s).contains(x) == s.contains(x) by {
            assert(t.contains(x) ==> s.contains(x)) by {
                if t.contains(x) {
                    let i = choose|i: int| 0 <= i < t.len() && t[i] == x;
                    assert(s[i] == x);
                }
            }
            if s.contains(x) {
                let i = choose|i: int| 0 <= i < s.len() && s[i] == x;
                if i < t.len() {
                    assert(t[i] == x);
                }
            }
            assert(s.contains(s.last())) by {
                assert(s[s.len() - 1] == s.last());
            }
            if !u.contains(s.last()) {
                let w = u.push(s.last());
                if u.contains(x) {
                    let i = choose|i: int| 0 <= i < u.len() && u[i] == x;
                    assert(w[i] == x);
                }
                assert(w[w.len() - 1] == s.last());
                if w.contains(x) {
                    let i = choose|i: int| 0 <= i < w.len() && w[i] == x;
                    if i < u.len() {
                        assert(u[i] == x);
                    }
                }
            }
        }
    }
}

/// Drops what was there before and keeps the order.
fn unique(oids: &[Oid]) -> (r: Vec<Oid>)
    ensures
        oid_views(r@) == unique_of(oid_views(oids@)),
{
    let ghost all = oid_views(oids@);
    let mut out: Vec<Oid> = Vec::new();
    let mut i: usize = 0;
    assert(all.take(0) =~= Seq::<Seq<u8>>::empty());
    assert(oid_views(out@) =~= Seq::<Seq<u8>>::empty());
    while i < oids.len()
        invariant
            i <= oids@.len(),
            all == oid_views(oids@),
            oid_views(out@) == unique_of(all.take(i as int)),
        decreases oids.len() - i,
    {
        let oid = oids[i];
        let ghost before = out@;
        assert(all.take(i + 1).drop_last() =~= all.take(i as int));
        assert(all.take(i + 1).last() == oid@);
        if !holds(out.as_slice(), &oid) {
            out.push(oid);
            assert(oid_views(out@) =~= oid_views(before).push(oid@));
        }
        i += 1;
    }
    assert(all.take(i as int) =~= all);
    out
}

/// Whether `oid` is in the list.
pub(crate) fn holds(oids: &[Oid], oid: &Oid) -> (r: bool)
    ensures
        r == oid_views(oids@).contains(oid@),
{
    let ghost all = oid_views(oids@);
    let mut i: usize = 0;
    while i < oids.len()
        invariant
            i <= oids@.len(),
            all == oid_views(oids@),
            forall|k: int| 0 <= k < i ==> #[trigger] all[k] != oid@,
        decreases oids.len() - i,
    {
        if oids[i] == *oid {
            assert(all[i as int] == oid@);
            return true;
        }
        i += 1;
    }
    false
}

// --- the commits that were found -------------------------------------------------------------------------

/// A commit that was found.
struct Node {
    oid: Oid,
    time: i64,
    /// Without repetitions.
    parents: Vec<Oid>,
    /// How many of its children are left.
    pending: usize,
    /// Whether it came already.
    done: bool,
}

impl Node {
    spec fn ids(self) -> Seq<Seq<u8>> {
        oid_views(self.parents@)
    }
}

/// The node says what the store says.
spec fn node_ok<O: Odb>(odb: &O, n: Node) -> bool {
    commit_in(odb, n.oid@) matches Some(Ok(c)) && n.time == c.committer.time && n.ids() == unique_of(
        c.parents,
    )
}

spec fn nodes_ok<O: Odb>(odb: &O, nodes: Seq<Node>) -> bool {
    forall|i: int| 0 <= i < nodes.len() ==> node_ok(odb, #[trigger] nodes[i])
}

spec fn ascend(nodes: Seq<Node>) -> bool {
    forall|i: int, j: int|
        0 <= i < j < nodes.len() ==> lex_less((#[trigger] nodes[i]).oid@, (#[trigger] nodes[j]).oid@)
}

spec fn has_id(nodes: Seq<Node>, oid: Seq<u8>) -> bool {
    exists|i: int| 0 <= i < nodes.len() && (#[trigger] nodes[i]).oid@ == oid
}

/// The nodes differ at most in their counts.
spec fn same_commits(a: Seq<Node>, b: Seq<Node>) -> bool {
    &&& a.len() == b.len()
    &&& forall|i: int|
        0 <= i < a.len() ==> (#[trigger] a[i]).oid == b[i].oid && a[i].time == b[i].time && a[i].parents
            == b[i].parents && a[i].done == b[i].done
}

/// How many of the first `n` nodes are left and have `oid` as a parent.
spec fn children(nodes: Seq<Node>, oid: Seq<u8>, n: nat) -> nat
    decreases n,
{
    if n == 0 {
        0
    } else {
        let node = nodes[n - 1];
        children(nodes, oid, (n - 1) as nat) + if !node.done && node.ids().contains(oid) {
            1nat
        } else {
            0nat
        }
    }
}

proof fn lemma_children_bound(nodes: Seq<Node>, oid: Seq<u8>, n: nat)
    ensures
        children(nodes, oid, n) <= n,
    decreases n,
{
    if n > 0 {
        lemma_children_bound(nodes, oid, (n - 1) as nat);
    }
}

proof fn lemma_children_same(a: Seq<Node>, b: Seq<Node>, oid: Seq<u8>, n: nat)
    requires
        same_commits(a, b),
        n <= a.len(),
    ensures
        children(a, oid, n) == children(b, oid, n),
    decreases n,
{
    if n > 0 {
        assert(a[n - 1].done == b[n - 1].done);
        lemma_children_same(a, b, oid, (n - 1) as nat);
    }
}

/// The count is zero when no node that is left has the parent.
proof fn lemma_children_zero(nodes: Seq<Node>, oid: Seq<u8>, n: nat)
    requires
        n <= nodes.len(),
    ensures
        children(nodes, oid, n) == 0 <==> (forall|k: int|
            0 <= k < n && !(#[trigger] nodes[k]).done ==> !nodes[k].ids().contains(oid)),
    decreases n,
{
    if n > 0 {
        lemma_children_zero(nodes, oid, (n - 1) as nat);
        let last = nodes[n - 1];
        if children(nodes, oid, n) == 0 {
            assert forall|k: int| 0 <= k < n && !(#[trigger] nodes[k]).done implies !nodes[k].ids().contains(
                oid,
            ) by {
                if k < n - 1 {
                }
            }
        } else if children(nodes, oid, (n - 1) as nat) == 0 {
            assert(!nodes[n - 1].done && nodes[n - 1].ids().contains(oid));
        }
    }
}

/// The count when node `j` is done.
proof fn lemma_children_done(a: Seq<Node>, b: Seq<Node>, j: int, oid: Seq<u8>, n: nat)
    requires
        0 <= j < a.len() == b.len(),
        n <= a.len(),
        !a[j].done,
        b[j].done,
        forall|i: int| 0 <= i < a.len() && i != j ==> (#[trigger] a[i]).done == b[i].done,
        forall|i: int| 0 <= i < a.len() ==> (#[trigger] a[i]).parents == b[i].parents,
    ensures
        children(a, oid, n) == children(b, oid, n) + (if j < n && a[j].ids().contains(oid) {
            1nat
        } else {
            0nat
        }),
    decreases n,
{
    if n > 0 {
        lemma_children_done(a, b, j, oid, (n - 1) as nat);
        assert(a[n - 1].parents == b[n - 1].parents);
        if j != n - 1 {
            assert(a[n - 1].done == b[n - 1].done);
        }
    }
}

/// Where a node with the id is, or where it would be.
fn find_node(nodes: &Vec<Node>, oid: &Oid) -> (r: (usize, bool))
    requires
        ascend(nodes@),
    ensures
        r.0 <= nodes@.len(),
        r.1 ==> r.0 < nodes@.len() && nodes@[r.0 as int].oid@ == oid@,
        !r.1 ==> {
            &&& !has_id(nodes@, oid@)
            &&& forall|i: int| 0 <= i < r.0 ==> lex_less((#[trigger] nodes@[i]).oid@, oid@)
            &&& forall|i: int| r.0 <= i < nodes@.len() ==> lex_less(oid@, (#[trigger] nodes@[i]).oid@)
        },
{
    let mut low: usize = 0;
    let mut high: usize = nodes.len();
    while low < high
        invariant
            low <= high <= nodes@.len(),
            ascend(nodes@),
            forall|i: int| 0 <= i < low ==> lex_less((#[trigger] nodes@[i]).oid@, oid@),
            forall|i: int| high <= i < nodes@.len() ==> !lex_less((#[trigger] nodes@[i]).oid@, oid@),
        decreases high - low,
    {
        let middle = low + (high - low) / 2;
        let ghost m = nodes@[middle as int].oid@;
        if nodes[middle].oid.less(oid) {
            proof {
                assert forall|i: int| 0 <= i <= middle implies lex_less(
                    (#[trigger] nodes@[i]).oid@,
                    oid@,
                ) by {
                    if i < middle {
                        lemma_transitive(nodes@[i].oid@, m, oid@);
                    }
                }
            }
            low = middle + 1;
        } else {
            proof {
                assert forall|i: int| middle <= i < nodes@.len() implies !lex_less(
                    (#[trigger] nodes@[i]).oid@,
                    oid@,
                ) by {
                    if i > middle && lex_less(nodes@[i].oid@, oid@) {
                        lemma_transitive(m, nodes@[i].oid@, oid@);
                    }
                }
            }
            high = middle;
        }
    }
    let found = low < nodes.len() && nodes[low].oid == *oid;
    proof {
        if !found {
            assert forall|i: int| low <= i < nodes@.len() implies lex_less(
                oid@,
                (#[trigger] nodes@[i]).oid@,
            ) by {
                lemma_total(nodes@[i].oid@, oid@);
                if i > low {
                    assert(lex_less(nodes@[low as int].oid@, nodes@[i].oid@));
                }
            }
            lemma_total(oid@, oid@);
        }
    }
    (low, found)
}

/// What the search has to keep: nothing reachable is lost.
spec fn search_keeps<O: Odb>(odb: &O, tips: Seq<Seq<u8>>, stack: Seq<Seq<u8>>, nodes: Seq<Node>) -> bool {
    &&& ascend(nodes)
    &&& nodes_ok(odb, nodes)
    &&& forall|i: int| 0 <= i < nodes.len() ==> (#[trigger] nodes[i]).pending == 0 && !nodes[i].done
    &&& forall|i: int| 0 <= i < stack.len() ==> in_reach(odb, tips, #[trigger] stack[i])
    &&& forall|i: int| 0 <= i < nodes.len() ==> in_reach(odb, tips, (#[trigger] nodes[i]).oid@)
    &&& forall|oid: Seq<u8>| #[trigger]
        tips.contains(oid) ==> has_id(nodes, oid) || stack.contains(oid) || commit_in(odb, oid) is None
    &&& forall|i: int, oid: Seq<u8>|
        0 <= i < nodes.len() && #[trigger] parents_of(odb, (#[trigger] nodes[i]).oid@).contains(oid)
            ==> has_id(nodes, oid) || stack.contains(oid) || commit_in(odb, oid) is None
}

/// When nothing is left to look at, everything reachable was found.
proof fn lemma_search_complete<O: Odb>(odb: &O, tips: Seq<Seq<u8>>, nodes: Seq<Node>, oid: Seq<u8>, n: nat)
    requires
        search_keeps(odb, tips, Seq::empty(), nodes),
        reached(odb, tips, oid, n),
        commit_in(odb, oid) is Some,
    ensures
        has_id(nodes, oid),
    decreases n,
{
    if n == 0 {
        assert(tips.contains(oid));
    } else if reached(odb, tips, oid, (n - 1) as nat) {
        lemma_search_complete(odb, tips, nodes, oid, (n - 1) as nat);
    } else {
        let child = choose|child: Seq<u8>| #[trigger]
            parents_of(odb, child).contains(oid) && reached(odb, tips, child, (n - 1) as nat);
        assert(commit_in(odb, child) is Some);
        lemma_search_complete(odb, tips, nodes, child, (n - 1) as nat);
        let i = choose|i: int| 0 <= i < nodes.len() && (#[trigger] nodes[i]).oid@ == child;
        assert(parents_of(odb, nodes[i].oid@).contains(oid));
    }
}

/// The search goes on after a commit was found.
proof fn lemma_search_found<O: Odb>(
    odb: &O,
    tips: Seq<Seq<u8>>,
    stack: Seq<Seq<u8>>,
    nodes: Seq<Node>,
    at: int,
    node: Node,
)
    requires
        stack.len() > 0,
        search_keeps(odb, tips, stack, nodes),
        node.oid@ == stack.last(),
        node_ok(odb, node),
        node.pending == 0 && !node.done,
        0 <= at <= nodes.len(),
        forall|i: int| 0 <= i < at ==> lex_less((#[trigger] nodes[i]).oid@, node.oid@),
        forall|i: int| at <= i < nodes.len() ==> lex_less(node.oid@, (#[trigger] nodes[i]).oid@),
    ensures
        search_keeps(odb, tips, stack.drop_last() + node.ids(), nodes.insert(at, node)),
{
    let rest = stack.drop_last();
    let next = rest + node.ids();
    let all = nodes.insert(at, node);
    let c = commit_in(odb, node.oid@)->0->Ok_0;
    lemma_unique_of(c.parents);
    assert(all[at] == node);
    assert forall|i: int, j: int| 0 <= i < j < all.len() implies lex_less(
        (#[trigger] all[i]).oid@,
        (#[trigger] all[j]).oid@,
    ) by {
        if i < at && j < at {
            assert(all[i] == nodes[i] && all[j] == nodes[j]);
        } else if i < at && j == at {
            assert(all[i] == nodes[i]);
        } else if i < at {
            assert(all[i] == nodes[i] && all[j] == nodes[j - 1]);
        } else if i == at {
            assert(all[j] == nodes[j - 1]);
        } else {
            assert(all[i] == nodes[i - 1] && all[j] == nodes[j - 1]);
        }
    }
    assert forall|i: int| 0 <= i < all.len() implies node_ok(odb, #[trigger] all[i]) && all[i].pending == 0
        && !all[i].done && in_reach(odb, tips, all[i].oid@) by {
        if i < at {
            assert(all[i] == nodes[i]);
        } else if i == at {
            assert(stack[stack.len() - 1] == node.oid@);
        } else {
            assert(all[i] == nodes[i - 1]);
        }
    }
    assert forall|i: int| 0 <= i < next.len() implies in_reach(odb, tips, #[trigger] next[i]) by {
        if i < rest.len() {
            assert(next[i] == stack[i]);
        } else {
            let p = node.ids()[i - rest.len()];
            assert(next[i] == p);
            assert(node.ids().contains(p));
            assert(c.parents.contains(p));
            assert(stack[stack.len() - 1] == node.oid@);
            lemma_parent_in_reach(odb, tips, node.oid@, p);
        }
    }
    assert forall|oid: Seq<u8>| has_id(nodes, oid) || stack.contains(oid) || commit_in(odb, oid) is None
        || node.ids().contains(oid) implies #[trigger] has_id(all, oid) || next.contains(oid) || commit_in(
        odb,
        oid,
    ) is None by {
        if has_id(nodes, oid) {
            let i = choose|i: int| 0 <= i < nodes.len() && (#[trigger] nodes[i]).oid@ == oid;
            let k = if i < at {
                i
            } else {
                i + 1
            };
            assert(all[k] == nodes[i]);
        } else if stack.contains(oid) {
            let i = choose|i: int| 0 <= i < stack.len() && stack[i] == oid;
            if i < rest.len() {
                assert(next[i] == oid);
            } else {
                assert(all[at].oid@ == oid);
            }
        } else if node.ids().contains(oid) {
            let i = choose|i: int| 0 <= i < node.ids().len() && node.ids()[i] == oid;
            assert(next[rest.len() + i] == oid);
        }
    }
    assert forall|oid: Seq<u8>| #[trigger] tips.contains(oid) implies has_id(all, oid) || next.contains(oid)
        || commit_in(odb, oid) is None by {}
    assert forall|i: int, oid: Seq<u8>|
        0 <= i < all.len() && #[trigger] parents_of(odb, (#[trigger] all[i]).oid@).contains(oid) implies has_id(
        all,
        oid,
    ) || next.contains(oid) || commit_in(odb, oid) is None by {
        if i < at {
            assert(all[i] == nodes[i]);
            assert(parents_of(odb, nodes[i].oid@).contains(oid));
        } else if i == at {
            assert(node.ids().contains(oid));
        } else {
            assert(all[i] == nodes[i - 1]);
            assert(parents_of(odb, nodes[i - 1].oid@).contains(oid));
        }
    }
}

/// The search goes on without an id that is no commit or was found before.
proof fn lemma_search_dropped<O: Odb>(odb: &O, tips: Seq<Seq<u8>>, stack: Seq<Seq<u8>>, nodes: Seq<Node>)
    requires
        stack.len() > 0,
        search_keeps(odb, tips, stack, nodes),
        has_id(nodes, stack.last()) || commit_in(odb, stack.last()) is None,
    ensures
        search_keeps(odb, tips, stack.drop_last(), nodes),
{
    let rest = stack.drop_last();
    assert forall|i: int| 0 <= i < rest.len() implies in_reach(odb, tips, #[trigger] rest[i]) by {
        assert(rest[i] == stack[i]);
    }
    assert forall|oid: Seq<u8>| #[trigger] stack.contains(oid) implies rest.contains(oid) || has_id(nodes, oid)
        || commit_in(odb, oid) is None by {
        let i = choose|i: int| 0 <= i < stack.len() && stack[i] == oid;
        if i < rest.len() {
            assert(rest[i] == oid);
        }
    }
    assert forall|oid: Seq<u8>| #[trigger] tips.contains(oid) implies has_id(nodes, oid) || rest.contains(oid)
        || commit_in(odb, oid) is None by {}
    assert forall|i: int, oid: Seq<u8>|
        0 <= i < nodes.len() && #[trigger] parents_of(odb, (#[trigger] nodes[i]).oid@).contains(oid) implies has_id(
        nodes,
        oid,
    ) || rest.contains(oid) || commit_in(odb, oid) is None by {}
}

/// Finds all commits that can be reached.
fn search<O: Odb>(odb: &O, tips: &Vec<Oid>) -> (r: Result<Vec<Node>>)
    ensures
        match r {
            Ok(nodes) => unbroken(odb, oid_views(tips@)) && search_keeps(
                odb,
                oid_views(tips@),
                Seq::empty(),
                nodes@,
            ),
            Err(e) => !unbroken(odb, oid_views(tips@)) && exists|n: nat| #[trigger]
                searched(odb, oid_views(tips@), n) == Err::<Search, Error>(e),
        },
{
    let ghost starts = oid_views(tips@);
    let mut nodes: Vec<Node> = Vec::new();
    let mut stack: Vec<Oid> = Vec::new();
    stack.extend_from_slice(tips.as_slice());
    assert(stack@ =~= tips@);
    let ghost mut found: Seq<Seq<u8>> = Seq::empty();
    let ghost mut steps: nat = 0;
    proof {
        assert forall|i: int| 0 <= i < starts.len() implies in_reach(odb, starts, #[trigger] starts[i]) by {
            lemma_tip_in_reach(odb, starts, starts[i]);
        }
    }
    loop
        invariant
            starts == oid_views(tips@),
            search_keeps(odb, starts, oid_views(stack@), nodes@),
            forall|oid: Seq<u8>| #[trigger] found.contains(oid) == has_id(nodes@, oid),
            searched(odb, starts, steps) == Ok::<_, Error>(
                (Search { stack: oid_views(stack@), found }),
            ),
        decreases usize::MAX - nodes.len(), stack.len(),
    {
        let ghost now = oid_views(stack@);
        let Some(oid) = stack.pop() else {
            proof {
                assert(now =~= Seq::<Seq<u8>>::empty());
                assert forall|x: Seq<u8>| #[trigger] reachable(odb, starts, x) implies commit_in(
                    odb,
                    x,
                )->0 is Ok by {
                    let n = choose|n: nat| reached(odb, starts, x, n);
                    lemma_search_complete(odb, starts, nodes@, x, n);
                    let i = choose|i: int| 0 <= i < nodes@.len() && (#[trigger] nodes@[i]).oid@ == x;
                    assert(node_ok(odb, nodes@[i]));
                }
            }
            return Ok(nodes);
        };
        proof {
            assert(now.last() == oid@);
            assert(oid_views(stack@) =~= now.drop_last());
            assert(searched(odb, starts, steps + 1) == search_step(odb, Search { stack: now, found }));
        }
        let (at, known) = find_node(&nodes, &oid);
        if known {
            proof {
                assert(nodes@[at as int].oid@ == oid@);
                assert(has_id(nodes@, oid@));
                assert(found.contains(oid@));
                lemma_search_dropped(odb, starts, now, nodes@);
                steps = steps + 1;
            }
            continue;
        }
        assert(!found.contains(oid@));
        let body: Vec<u8> = match odb.read(&oid) {
            Some((Kind::Commit, body)) => body,
            _ => {
                proof {
                    lemma_search_dropped(odb, starts, now, nodes@);
                    steps = steps + 1;
                }
                continue;
            },
        };
        let commit = match parse_commit(body.as_slice()) {
            Ok(commit) => commit,
            Err(e) => {
                proof {
                    assert(searched(odb, starts, steps + 1) == Err::<Search, Error>(e));
                    assert(now[now.len() - 1] == oid@);
                    assert(reachable(odb, starts, oid@));
                }
                return Err(e);
            },
        };
        let parents = unique(commit.parents.as_slice());
        let node = Node { oid, time: commit.committer.time, parents, pending: 0, done: false };
        let ghost before = stack@;
        stack.extend_from_slice(node.parents.as_slice());
        proof {
            assert(stack@ =~= before + node.parents@);
            assert(oid_views(stack@) =~= now.drop_last() + node.ids());
            lemma_search_found(odb, starts, now, nodes@, at as int, node);
            let all = nodes@.insert(at as int, node);
            assert forall|x: Seq<u8>| #[trigger] found.push(oid@).contains(x) == has_id(all, x) by {
                lemma_has_id_insert(nodes@, at as int, node, x);
                lemma_push_contains(found, oid@, x);
            }
            found = found.push(oid@);
            steps = steps + 1;
        }
        nodes.insert(at, node);
    }
}

proof fn lemma_push_contains(s: Seq<Seq<u8>>, y: Seq<u8>, x: Seq<u8>)
    ensures
        s.push(y).contains(x) == (s.contains(x) || x == y),
{
    let t = s.push(y);
    if s.contains(x) {
        let i = choose|i: int| 0 <= i < s.len() && s[i] == x;
        assert(t[i] == x);
    }
    assert(t[t.len() - 1] == y);
    if t.contains(x) {
        let i = choose|i: int| 0 <= i < t.len() && t[i] == x;
        if i < s.len() {
            assert(s[i] == x);
        }
    }
}

proof fn lemma_has_id_insert(nodes: Seq<Node>, at: int, node: Node, x: Seq<u8>)
    requires
        0 <= at <= nodes.len(),
    ensures
        has_id(nodes.insert(at, node), x) == (has_id(nodes, x) || x == node.oid@),
{
    let all = nodes.insert(at, node);
    if has_id(nodes, x) {
        let i = choose|i: int| 0 <= i < nodes.len() && (#[trigger] nodes[i]).oid@ == x;
        let k = if i < at {
            i
        } else {
            i + 1
        };
        assert(all[k] == nodes[i]);
    }
    assert(all[at] == node);
    if has_id(all, x) {
        let k = choose|k: int| 0 <= k < all.len() && (#[trigger] all[k]).oid@ == x;
        if k < at {
            assert(all[k] == nodes[k]);
        } else if k > at {
            assert(all[k] == nodes[k - 1]);
        }
    }
}

// --- counting children -----------------------------------------------------------------------------------

/// Sets the count of one node.
fn set_pending(nodes: &mut Vec<Node>, i: usize, count: usize)
    requires
        i < old(nodes)@.len(),
    ensures
        same_commits(old(nodes)@, final(nodes)@),
        forall|k: int|
            0 <= k < final(nodes)@.len() ==> (#[trigger] final(nodes)@[k]).pending == (if k == i {
                count
            } else {
                old(nodes)@[k].pending
            }),
{
    nodes[i].pending = count;
}

proof fn lemma_same_ascend(a: Seq<Node>, b: Seq<Node>)
    requires
        same_commits(a, b),
    ensures
        ascend(a) ==> ascend(b),
        forall|oid: Seq<u8>| #[trigger] has_id(a, oid) == has_id(b, oid),
{
    if ascend(a) {
        assert forall|i: int, j: int| 0 <= i < j < b.len() implies lex_less(
            (#[trigger] b[i]).oid@,
            (#[trigger] b[j]).oid@,
        ) by {
            assert(a[i].oid == b[i].oid && a[j].oid == b[j].oid);
        }
    }
    assert forall|oid: Seq<u8>| #[trigger] has_id(a, oid) == has_id(b, oid) by {
        if has_id(a, oid) {
            let i = choose|i: int| 0 <= i < a.len() && (#[trigger] a[i]).oid@ == oid;
            assert(b[i].oid@ == oid);
        }
        if has_id(b, oid) {
            let i = choose|i: int| 0 <= i < b.len() && (#[trigger] b[i]).oid@ == oid;
            assert(a[i].oid@ == oid);
        }
    }
}

proof fn lemma_same_trans(a: Seq<Node>, b: Seq<Node>, c: Seq<Node>)
    requires
        same_commits(a, b),
        same_commits(b, c),
    ensures
        same_commits(a, c),
{
    assert forall|i: int| 0 <= i < a.len() implies (#[trigger] a[i]).oid == c[i].oid && a[i].time
        == c[i].time && a[i].parents == c[i].parents && a[i].done == c[i].done by {
        assert(a[i].oid == b[i].oid && b[i].oid == c[i].oid);
    }
}

/// An id belongs to one node.
proof fn lemma_one_node(nodes: Seq<Node>, i: int, j: int)
    requires
        ascend(nodes),
        0 <= i < nodes.len(),
        0 <= j < nodes.len(),
        nodes[i].oid@ == nodes[j].oid@,
    ensures
        i == j,
{
    lemma_total(nodes[i].oid@, nodes[i].oid@);
}

/// One if `x` is among the parents from `t` on.
spec fn among(s: Seq<Seq<u8>>, t: int, x: Seq<u8>) -> int {
    if s.skip(t).contains(x) {
        1
    } else {
        0
    }
}

proof fn lemma_among(s: Seq<Seq<u8>>, t: int, x: Seq<u8>)
    requires
        0 <= t < s.len(),
        s.no_duplicates(),
    ensures
        among(s, t, x) == (if x == s[t] {
            1int
        } else {
            among(s, t + 1, x)
        }),
        x == s[t] ==> among(s, t + 1, x) == 0,
        among(s, 0, x) == (if s.contains(x) {
            1int
        } else {
            0
        }),
        among(s, s.len() as int, x) == 0,
{
    let a = s.skip(t);
    let b = s.skip(t + 1);
    assert(a[0] == s[t]);
    if b.contains(x) {
        let i = choose|i: int| 0 <= i < b.len() && b[i] == x;
        assert(a[i + 1] == x);
        assert(s[t + 1 + i] == x);
    }
    if a.contains(x) {
        let i = choose|i: int| 0 <= i < a.len() && a[i] == x;
        if i > 0 {
            assert(b[i - 1] == x);
        }
    }
    assert(s.skip(0) =~= s);
}

/// Counts the children of every node.
fn count_children(nodes: &mut Vec<Node>)
    requires
        ascend(old(nodes)@),
        forall|i: int|
            0 <= i < old(nodes)@.len() ==> (#[trigger] old(nodes)@[i]).pending == 0 && !old(nodes)@[i].done
                && old(nodes)@[i].ids().no_duplicates(),
    ensures
        same_commits(old(nodes)@, final(nodes)@),
        forall|i: int|
            0 <= i < final(nodes)@.len() ==> (#[trigger] final(nodes)@[i]).pending == children(
                final(nodes)@,
                final(nodes)@[i].oid@,
                final(nodes)@.len(),
            ),
{
    let ghost first = nodes@;
    let mut k: usize = 0;
    while k < nodes.len()
        invariant
            k <= nodes@.len(),
            first == old(nodes)@,
            ascend(nodes@),
            same_commits(first, nodes@),
            forall|i: int|
                0 <= i < first.len() ==> !(#[trigger] first[i]).done && first[i].ids().no_duplicates(),
            forall|i: int|
                0 <= i < nodes@.len() ==> (#[trigger] nodes@[i]).pending == children(
                    first,
                    nodes@[i].oid@,
                    k as nat,
                ),
        decreases nodes.len() - k,
    {
        let ghost ids = first[k as int].ids();
        let mut t: usize = 0;
        assert(nodes@[k as int].parents == first[k as int].parents);
        proof {
            assert forall|i: int| 0 <= i < nodes@.len() implies (#[trigger] nodes@[i]).pending == children(
                first,
                nodes@[i].oid@,
                (k + 1) as nat,
            ) - among(ids, 0, nodes@[i].oid@) by {
                assert(ids.skip(0) =~= ids);
                assert(!first[k as int].done);
            }
        }
        while t < nodes[k].parents.len()
            invariant
                t <= ids.len(),
                k < nodes@.len(),
                ids == first[k as int].ids(),
                ids.no_duplicates(),
                ascend(nodes@),
                same_commits(first, nodes@),
                nodes@[k as int].parents == first[k as int].parents,
                forall|i: int|
                    0 <= i < nodes@.len() ==> (#[trigger] nodes@[i]).pending == children(
                        first,
                        nodes@[i].oid@,
                        (k + 1) as nat,
                    ) - among(ids, t as int, nodes@[i].oid@),
            decreases ids.len() - t,
        {
            let parent = nodes[k].parents[t];
            assert(ids[t as int] == parent@);
            let (at, known) = find_node(nodes, &parent);
            let ghost before = nodes@;
            proof {
                assert forall|i: int| 0 <= i < before.len() implies #[trigger] among(
                    ids,
                    t as int,
                    before[i].oid@,
                ) == (if known && i == at {
                    1int
                } else {
                    among(ids, t + 1, before[i].oid@)
                }) by {
                    lemma_among(ids, t as int, before[i].oid@);
                    if before[i].oid@ == parent@ {
                        assert(has_id(before, parent@));
                        lemma_one_node(before, i, at as int);
                    }
                }
            }
            if known {
                proof {
                    lemma_children_bound(first, parent@, (k + 1) as nat);
                    lemma_among(ids, t as int, parent@);
                    assert(among(ids, t as int, before[at as int].oid@) == 1);
                }
                let count = nodes[at].pending;
                assert(count == children(first, before[at as int].oid@, (k + 1) as nat) - among(
                    ids,
                    t as int,
                    before[at as int].oid@,
                ));
                assert(before[at as int].oid@ == parent@);
                assert(count <= k);
                assert(k < nodes.len());
                set_pending(nodes, at, count + 1);
                proof {
                    lemma_same_ascend(before, nodes@);
                    lemma_same_trans(first, before, nodes@);
                }
            }
            proof {
                assert forall|i: int| 0 <= i < nodes@.len() implies (#[trigger] nodes@[i]).pending
                    == children(first, nodes@[i].oid@, (k + 1) as nat) - among(
                    ids,
                    t + 1,
                    nodes@[i].oid@,
                ) by {
                    assert(before[i].oid == nodes@[i].oid);
                    assert(among(ids, t as int, before[i].oid@) == (if known && i == at {
                        1int
                    } else {
                        among(ids, t + 1, before[i].oid@)
                    }));
                    if known && i == at {
                        lemma_among(ids, t as int, parent@);
                    }
                }
            }
            t += 1;
        }
        proof {
            assert forall|i: int| 0 <= i < nodes@.len() implies (#[trigger] nodes@[i]).pending == children(
                first,
                nodes@[i].oid@,
                (k + 1) as nat,
            ) by {
                assert(ids.skip(t as int) =~= Seq::<Seq<u8>>::empty());
            }
        }
        k += 1;
    }
    proof {
        assert forall|i: int| 0 <= i < nodes@.len() implies (#[trigger] nodes@[i]).pending == children(
            nodes@,
            nodes@[i].oid@,
            nodes@.len(),
        ) by {
            lemma_children_same(first, nodes@, nodes@[i].oid@, nodes@.len());
        }
    }
}

// --- the walk ------------------------------------------------------------------------------------------

/// A commit that comes up. It owns the body, which [`WalkedCommit::commit`] parses.
pub struct WalkedCommit {
    pub oid: Oid,
    pub raw: Vec<u8>,
}

impl WalkedCommit {
    pub fn commit(&self) -> (r: Result<Commit<'_>>)
        ensures
            agrees(r, commit_view(self.raw@)),
    {
        parse_commit(self.raw.as_slice())
    }
}

/// A walk through the history, from the latest commit on.
pub struct Walk<'a, O: Odb> {
    odb: &'a O,
    tips: Vec<Oid>,
    prepared: bool,
    nodes: Vec<Node>,
    /// The nodes that may come next.
    ready: Vec<usize>,
}

/// The state of a walk.
pub struct WalkView {
    pub tips: Seq<Seq<u8>>,
    /// Whether the commits were looked for.
    pub started: bool,
    /// The commits that are to come, once they were looked for.
    pub left: Set<Seq<u8>>,
}

spec fn left_of(nodes: Seq<Node>) -> Set<Seq<u8>> {
    Set::new(
        |oid: Seq<u8>|
            exists|i: int| 0 <= i < nodes.len() && (#[trigger] nodes[i]).oid@ == oid && !nodes[i].done,
    )
}

proof fn lemma_left_finite(nodes: Seq<Node>)
    ensures
        left_of(nodes).finite(),
{
    let ids = Seq::new(nodes.len(), |i: int| nodes[i].oid@);
    vstd::seq_lib::seq_to_set_is_finite(ids);
    assert(left_of(nodes).subset_of(ids.to_set())) by {
        assert forall|oid: Seq<u8>| #[trigger] left_of(nodes).contains(oid) implies ids.to_set().contains(
            oid,
        ) by {
            let i = choose|i: int| 0 <= i < nodes.len() && (#[trigger] nodes[i]).oid@ == oid && !nodes[i].done;
            assert(ids[i] == oid);
        }
    }
    vstd::set_lib::lemma_set_subset_finite(ids.to_set(), left_of(nodes));
}

/// Node `i` is in the list.
spec fn listed(ready: Seq<usize>, i: int) -> bool {
    exists|k: int| 0 <= k < ready.len() && #[trigger] ready[k] == i
}

/// The counts and the candidates are right.
spec fn walk_ok<O: Odb>(odb: &O, nodes: Seq<Node>, ready: Seq<usize>) -> bool {
    &&& ascend(nodes)
    &&& nodes_ok(odb, nodes)
    &&& forall|i: int|
        0 <= i < nodes.len() ==> (#[trigger] nodes[i]).pending == children(
            nodes,
            nodes[i].oid@,
            nodes.len(),
        )
    &&& forall|i: int| 0 <= i < nodes.len() && (#[trigger] nodes[i]).done ==> nodes[i].pending == 0
    &&& ready.no_duplicates()
    &&& forall|k: int|
        0 <= k < ready.len() ==> (#[trigger] ready[k]) < nodes.len() && !nodes[ready[k] as int].done
            && nodes[ready[k] as int].pending == 0
    &&& forall|i: int|
        0 <= i < nodes.len() && !(#[trigger] nodes[i]).done && nodes[i].pending == 0 ==> listed(
            ready,
            i,
        )
}

/// A commit may come exactly when it is left and its count is zero.
proof fn lemma_may_come<O: Odb>(odb: &O, nodes: Seq<Node>, ready: Seq<usize>, i: int)
    requires
        walk_ok(odb, nodes, ready),
        0 <= i < nodes.len(),
    ensures
        may_come(odb, left_of(nodes), nodes[i].oid@) == (!nodes[i].done && nodes[i].pending == 0),
        left_of(nodes).contains(nodes[i].oid@) == !nodes[i].done,
{
    let left = left_of(nodes);
    let oid = nodes[i].oid@;
    if left.contains(oid) {
        let j = choose|j: int| 0 <= j < nodes.len() && (#[trigger] nodes[j]).oid@ == oid && !nodes[j].done;
        lemma_one_node(nodes, i, j);
    }
    lemma_children_zero(nodes, oid, nodes.len());
    if !nodes[i].done && nodes[i].pending == 0 {
        assert forall|child: Seq<u8>| #[trigger] left.contains(child) implies !parents_of(
            odb,
            child,
        ).contains(oid) by {
            let k = choose|k: int|
                0 <= k < nodes.len() && (#[trigger] nodes[k]).oid@ == child && !nodes[k].done;
            assert(node_ok(odb, nodes[k]));
            lemma_unique_of(commit_in(odb, child)->0->Ok_0.parents);
            assert(!nodes[k].ids().contains(oid));
        }
    }
    if may_come(odb, left, oid) {
        assert forall|k: int| 0 <= k < nodes.len() && !(#[trigger] nodes[k]).done implies !nodes[k].ids().contains(
            oid,
        ) by {
            let child = nodes[k].oid@;
            assert(left.contains(child));
            assert(node_ok(odb, nodes[k]));
            lemma_unique_of(commit_in(odb, child)->0->Ok_0.parents);
        }
    }
}

/// Only commits with a node may come.
proof fn lemma_may_come_node<O: Odb>(odb: &O, nodes: Seq<Node>, oid: Seq<u8>) -> (i: int)
    requires
        may_come(odb, left_of(nodes), oid),
    ensures
        0 <= i < nodes.len(),
        nodes[i].oid@ == oid,
{
    choose|i: int| 0 <= i < nodes.len() && (#[trigger] nodes[i]).oid@ == oid && !nodes[i].done
}

/// Node `a` comes before node `b`.
spec fn is_later(a: Node, b: Node) -> bool {
    a.time > b.time || (a.time == b.time && lex_less(b.oid@, a.oid@))
}

/// Without candidates no commit may come.
proof fn lemma_none_may_come<O: Odb>(odb: &O, nodes: Seq<Node>, ready: Seq<usize>)
    requires
        walk_ok(odb, nodes, ready),
        ready.len() == 0,
    ensures
        forall|oid: Seq<u8>| !may_come(odb, left_of(nodes), oid),
{
    assert forall|oid: Seq<u8>| !may_come(odb, left_of(nodes), oid) by {
        if may_come(odb, left_of(nodes), oid) {
            let i = lemma_may_come_node(odb, nodes, oid);
            lemma_may_come(odb, nodes, ready, i);
            assert(listed(ready, i));
        }
    }
}

/// The latest of the candidates is the commit that comes next.
proof fn lemma_latest_comes_next<O: Odb>(odb: &O, nodes: Seq<Node>, ready: Seq<usize>, j: int)
    requires
        walk_ok(odb, nodes, ready),
        listed(ready, j),
        forall|k: int|
            0 <= k < ready.len() && (#[trigger] ready[k]) != j ==> is_later(nodes[j], nodes[ready[k] as int]),
    ensures
        0 <= j < nodes.len(),
        !nodes[j].done,
        nodes[j].pending == 0,
        node_ok(odb, nodes[j]),
        comes_next(odb, left_of(nodes), nodes[j].oid@),
{
    let k = choose|k: int| 0 <= k < ready.len() && #[trigger] ready[k] == j;
    assert(!nodes[ready[k] as int].done);
    lemma_may_come(odb, nodes, ready, j);
    assert(node_ok(odb, nodes[j]));
    let left = left_of(nodes);
    let oid = nodes[j].oid@;
    assert forall|other: Seq<u8>| #[trigger] may_come(odb, left, other) && other != oid implies earlier(
        odb,
        other,
        oid,
    ) by {
        let i = lemma_may_come_node(odb, nodes, other);
        lemma_may_come(odb, nodes, ready, i);
        assert(listed(ready, i));
        let m = choose|m: int| 0 <= m < ready.len() && #[trigger] ready[m] == i;
        assert(node_ok(odb, nodes[i]));
        assert(ready[m] != j);
    }
}

/// Whether node `a` comes before node `b`.
fn later(a: &Node, b: &Node) -> (r: bool)
    ensures
        r == is_later(*a, *b),
{
    if a.time != b.time {
        a.time > b.time
    } else {
        b.oid.less(&a.oid)
    }
}

/// Takes the node that comes next from the candidates.
fn take_latest(nodes: &Vec<Node>, ready: &mut Vec<usize>) -> (r: Option<usize>)
    requires
        ascend(nodes@),
        old(ready)@.no_duplicates(),
        forall|k: int| 0 <= k < old(ready)@.len() ==> (#[trigger] old(ready)@[k]) < nodes@.len(),
    ensures
        match r {
            None => old(ready)@.len() == 0 && final(ready)@ == old(ready)@,
            Some(j) => {
                &&& j < nodes@.len()
                &&& listed(old(ready)@, j as int)
                &&& final(ready)@.no_duplicates()
                &&& forall|x: int| #[trigger]
                    listed(final(ready)@, x) == (listed(old(ready)@, x) && x != j)
                &&& forall|k: int|
                    0 <= k < old(ready)@.len() && (#[trigger] old(ready)@[k]) != j ==> is_later(
                        nodes@[j as int],
                        nodes@[old(ready)@[k] as int],
                    )
            },
        },
{
    if ready.len() == 0 {
        return None;
    }
    let mut best: usize = 0;
    let mut k: usize = 1;
    while k < ready.len()
        invariant
            1 <= k <= ready@.len(),
            best < k,
            ready@ == old(ready)@,
            ready@.no_duplicates(),
            ascend(nodes@),
            forall|k: int| 0 <= k < ready@.len() ==> (#[trigger] ready@[k]) < nodes@.len(),
            forall|i: int|
                0 <= i < k && i != best ==> {
                    let n = nodes@[#[trigger] ready@[i] as int];
                    let m = nodes@[ready@[best as int] as int];
                    m.time > n.time || (m.time == n.time && lex_less(n.oid@, m.oid@))
                },
        decreases ready.len() - k,
    {
        let ghost b = nodes@[ready@[best as int] as int];
        let ghost c = nodes@[ready@[k as int] as int];
        if later(&nodes[ready[k]], &nodes[ready[best]]) {
            proof {
                assert forall|i: int| 0 <= i < k + 1 && i != k implies {
                    let n = nodes@[#[trigger] ready@[i] as int];
                    c.time > n.time || (c.time == n.time && lex_less(n.oid@, c.oid@))
                } by {
                    let n = nodes@[ready@[i] as int];
                    if i != best && n.time == c.time {
                        lemma_transitive(n.oid@, b.oid@, c.oid@);
                    }
                }
            }
            best = k;
        } else {
            proof {
                if b.time == c.time {
                    lemma_total(b.oid@, c.oid@);
                    if b.oid@ == c.oid@ {
                        lemma_one_node(nodes@, ready@[best as int] as int, ready@[k as int] as int);
                    }
                }
            }
        }
        k += 1;
    }
    let ghost all = ready@;
    let j = ready.remove(best);
    proof {
        assert forall|x: int| #[trigger] listed(ready@, x) == (listed(all, x) && x != j) by {
            if listed(ready@, x) {
                let i = choose|i: int| 0 <= i < ready@.len() && #[trigger] ready@[i] == x;
                let o = if i < best {
                    i
                } else {
                    i + 1
                };
                assert(all[o] == x);
            }
            if listed(all, x) && x != j {
                let o = choose|o: int| 0 <= o < all.len() && #[trigger] all[o] == x;
                let i = if o < best {
                    o
                } else {
                    o - 1
                };
                assert(ready@[i] == x);
            }
        }
        assert(all[best as int] == j);
    }
    Some(j)
}

/// Makes node `j` done: its parents have one child less to wait for.
fn emit<O: Odb>(odb: &O, nodes: &mut Vec<Node>, ready: &mut Vec<usize>, j: usize)
    requires
        j < old(nodes)@.len(),
        !old(nodes)@[j as int].done,
        old(nodes)@[j as int].pending == 0,
        !listed(old(ready)@, j as int),
        exists|all: Seq<usize>|
            walk_ok(odb, old(nodes)@, all) && (forall|x: int| #[trigger]
                listed(old(ready)@, x) == (listed(all, x) && x != j)),
        old(ready)@.no_duplicates(),
    ensures
        walk_ok(odb, final(nodes)@, final(ready)@),
        left_of(final(nodes)@) == left_of(old(nodes)@).remove(old(nodes)@[j as int].oid@),
{
    let ghost first = nodes@;
    let ghost all = choose|all: Seq<usize>|
        walk_ok(odb, first, all) && (forall|x: int| #[trigger]
            listed(ready@, x) == (listed(all, x) && x != j));
    let ghost ids = first[j as int].ids();
    proof {
        assert(node_ok(odb, first[j as int]));
        lemma_unique_of(commit_in(odb, first[j as int].oid@)->0->Ok_0.parents);
        lemma_children_zero(first, first[j as int].oid@, first.len());
    }
    nodes[j].done = true;
    let ghost marked = nodes@;
    proof {
        assert forall|i: int| 0 <= i < marked.len() implies (#[trigger] marked[i]).oid == first[i].oid
            && marked[i].parents == first[i].parents && marked[i].pending == first[i].pending
            && marked[i].time == first[i].time && marked[i].done == (first[i].done || i == j) by {}
        assert(ascend(marked)) by {
            assert forall|a: int, b: int| 0 <= a < b < marked.len() implies lex_less(
                (#[trigger] marked[a]).oid@,
                (#[trigger] marked[b]).oid@,
            ) by {
                assert(first[a].oid == marked[a].oid && first[b].oid == marked[b].oid);
            }
        }
        assert forall|i: int| 0 <= i < marked.len() implies (#[trigger] marked[i]).pending == children(
            marked,
            marked[i].oid@,
            marked.len(),
        ) + among(ids, 0, marked[i].oid@) by {
            let oid = marked[i].oid@;
            assert(first[i].pending == children(first, oid, first.len()));
            lemma_children_done(first, marked, j as int, oid, first.len());
            assert(ids.skip(0) =~= ids);
        }
        assert forall|k: int| 0 <= k < ready@.len() implies (#[trigger] ready@[k]) < marked.len()
            && !marked[ready@[k] as int].done && marked[ready@[k] as int].pending == 0 by {
            assert(listed(ready@, ready@[k] as int));
            let o = choose|o: int| 0 <= o < all.len() && #[trigger] all[o] == ready@[k];
            assert(all[o] < first.len());
            assert(first[all[o] as int].pending == 0);
        }
        assert forall|i: int| 0 <= i < marked.len() && !(#[trigger] marked[i]).done && marked[i].pending
            == 0 implies listed(ready@, i) by {
            assert(!first[i].done && first[i].pending == 0);
            assert(listed(all, i));
        }
        assert forall|i: int| 0 <= i < marked.len() && (#[trigger] marked[i]).done implies marked[i].pending
            == 0 by {
            assert(first[i].done || i == j);
        }
    }
    let mut t: usize = 0;
    while t < nodes[j].parents.len()
        invariant
            t <= ids.len(),
            j < nodes@.len(),
            ids == first[j as int].ids(),
            ids.no_duplicates(),
            nodes@[j as int].parents == first[j as int].parents,
            same_commits(marked, nodes@),
            ascend(nodes@),
            forall|i: int|
                0 <= i < nodes@.len() ==> (#[trigger] nodes@[i]).pending == children(
                    marked,
                    nodes@[i].oid@,
                    marked.len(),
                ) + among(ids, t as int, nodes@[i].oid@),
            forall|i: int| 0 <= i < nodes@.len() && (#[trigger] nodes@[i]).done ==> nodes@[i].pending == 0,
            ready@.no_duplicates(),
            forall|k: int|
                0 <= k < ready@.len() ==> (#[trigger] ready@[k]) < nodes@.len() && !nodes@[ready@[k] as int].done
                    && nodes@[ready@[k] as int].pending == 0,
            forall|i: int|
                0 <= i < nodes@.len() && !(#[trigger] nodes@[i]).done && nodes@[i].pending == 0
                    ==> listed(ready@, i),
        decreases ids.len() - t,
    {
        let parent = nodes[j].parents[t];
        assert(ids[t as int] == parent@);
        let (at, known) = find_node(nodes, &parent);
        let ghost before = nodes@;
        let ghost ready0 = ready@;
        proof {
            assert forall|i: int| 0 <= i < before.len() implies #[trigger] among(
                ids,
                t as int,
                before[i].oid@,
            ) == (if known && i == at {
                1int
            } else {
                among(ids, t + 1, before[i].oid@)
            }) by {
                lemma_among(ids, t as int, before[i].oid@);
                if before[i].oid@ == parent@ {
                    assert(has_id(before, parent@));
                    lemma_one_node(before, i, at as int);
                }
            }
            lemma_among(ids, t as int, parent@);
        }
        if known {
            let count = nodes[at].pending;
            assert(before[at as int].oid@ == parent@);
            assert(count == children(marked, before[at as int].oid@, marked.len()) + among(
                ids,
                t as int,
                before[at as int].oid@,
            ));
            set_pending(nodes, at, count - 1);
            proof {
                lemma_same_ascend(before, nodes@);
                lemma_same_trans(marked, before, nodes@);
                assert(!before[at as int].done);
                assert forall|k: int| 0 <= k < ready0.len() implies (#[trigger] ready0[k]) != at by {
                    assert(before[ready0[k] as int].pending == 0);
                }
            }
            if count == 1 {
                ready.push(at);
            }
        }
        proof {
            assert forall|i: int| 0 <= i < nodes@.len() implies (#[trigger] nodes@[i]).pending == children(
                marked,
                nodes@[i].oid@,
                marked.len(),
            ) + among(ids, t + 1, nodes@[i].oid@) by {
                assert(before[i].oid == nodes@[i].oid);
                assert(among(ids, t as int, before[i].oid@) == (if known && i == at {
                    1int
                } else {
                    among(ids, t + 1, before[i].oid@)
                }));
            }
            assert forall|i: int| 0 <= i < nodes@.len() && (#[trigger] nodes@[i]).done implies nodes@[i].pending
                == 0 by {
                assert(before[i].done == nodes@[i].done);
            }
            assert forall|k: int| 0 <= k < ready@.len() implies (#[trigger] ready@[k]) < nodes@.len()
                && !nodes@[ready@[k] as int].done && nodes@[ready@[k] as int].pending == 0 by {
                if k < ready0.len() {
                    assert(ready@[k] == ready0[k]);
                    assert(before[ready0[k] as int].done == nodes@[ready0[k] as int].done);
                }
            }
            assert forall|i: int| 0 <= i < nodes@.len() && !(#[trigger] nodes@[i]).done && nodes@[i].pending
                == 0 implies listed(ready@, i) by {
                assert(before[i].done == nodes@[i].done);
                if known && i == at {
                    assert(ready@[ready@.len() - 1] == at);
                } else {
                    assert(listed(ready0, i));
                    let k = choose|k: int| 0 <= k < ready0.len() && #[trigger] ready0[k] == i;
                    assert(ready@[k] == ready0[k]);
                }
            }
        }
        t += 1;
    }
    proof {
        assert forall|i: int| 0 <= i < nodes@.len() implies (#[trigger] nodes@[i]).pending == children(
            nodes@,
            nodes@[i].oid@,
            nodes@.len(),
        ) by {
            assert(ids.skip(t as int) =~= Seq::<Seq<u8>>::empty());
            lemma_children_same(marked, nodes@, nodes@[i].oid@, nodes@.len());
        }
        assert forall|i: int| 0 <= i < nodes@.len() implies node_ok(odb, #[trigger] nodes@[i]) by {
            assert(marked[i].oid == nodes@[i].oid && marked[i].parents == nodes@[i].parents);
            assert(node_ok(odb, first[i]));
        }
        let gone = first[j as int].oid@;
        assert forall|oid: Seq<u8>| #[trigger] left_of(nodes@).contains(oid) == left_of(first).remove(
            gone,
        ).contains(oid) by {
            if left_of(nodes@).contains(oid) {
                let i = choose|i: int|
                    0 <= i < nodes@.len() && (#[trigger] nodes@[i]).oid@ == oid && !nodes@[i].done;
                assert(marked[i].done == nodes@[i].done);
                assert(first[i].oid@ == oid && !first[i].done);
                if oid == gone {
                    lemma_one_node(first, i, j as int);
                }
            }
            if left_of(first).remove(gone).contains(oid) {
                let i = choose|i: int|
                    0 <= i < first.len() && (#[trigger] first[i]).oid@ == oid && !first[i].done;
                assert(i != j);
                assert(marked[i].done == nodes@[i].done);
                assert(nodes@[i].oid@ == oid && !nodes@[i].done);
            }
        }
        assert(left_of(nodes@) =~= left_of(first).remove(gone));
    }
}

impl<'a, O: Odb> Walk<'a, O> {
    /// The store that is walked through.
    pub closed spec fn odb(&self) -> &O {
        self.odb
    }

    pub closed spec fn view(&self) -> WalkView {
        WalkView {
            tips: oid_views(self.tips@),
            started: self.prepared,
            left: left_of(self.nodes@),
        }
    }

    pub closed spec fn wf(&self) -> bool {
        walk_ok(self.odb, self.nodes@, self.ready@)
    }

    /// The commits that are to come.
    pub open spec fn to_come(&self) -> Set<Seq<u8>> {
        if self@.started {
            self@.left
        } else {
            reachable_set(self.odb(), self@.tips)
        }
    }

    /// A walk without start points.
    pub fn new(odb: &'a O) -> (r: Self)
        ensures
            r.wf(),
            r.odb() == odb,
            r@.tips == Seq::<Seq<u8>>::empty(),
            !r@.started,
    {
        let r = Walk {
            odb,
            tips: Vec::new(),
            prepared: false,
            nodes: Vec::new(),
            ready: Vec::new(),
        };
        assert(r@.tips =~= Seq::<Seq<u8>>::empty());
        r
    }

    /// Adds a start point. A tag stands for the commit that it leads to. All start points come
    /// before the first commit is taken.
    pub fn push(&mut self, oid: Oid) -> (r: Result<()>)
        requires
            old(self).wf(),
            !old(self)@.started,
        ensures
            final(self).wf(),
            final(self).odb() == old(self).odb(),
            !final(self)@.started,
            match peeled(old(self).odb(), oid@, 16) {
                Ok(commit) => r is Ok && final(self)@.tips == old(self)@.tips.push(commit),
                Err(e) => r == Err::<(), _>(e) && final(self)@.tips == old(self)@.tips,
            },
    {
        let (tip, _) = peel(self.odb, oid)?;
        let ghost before = self.tips@;
        self.tips.push(tip);
        assert(oid_views(self.tips@) =~= oid_views(before).push(tip@));
        Ok(())
    }

    /// Finds all commits and those that may come first.
    fn prepare(&mut self) -> (r: Result<()>)
        requires
            old(self).wf(),
        ensures
            final(self).wf(),
            final(self).odb() == old(self).odb(),
            final(self)@.tips == old(self)@.tips,
            final(self)@.started,
            match r {
                Ok(()) => unbroken(old(self).odb(), old(self)@.tips) && final(self)@.left
                    == reachable_set(old(self).odb(), old(self)@.tips),
                Err(e) => !unbroken(old(self).odb(), old(self)@.tips) && final(self)@.left == Set::<
                    Seq<u8>,
                >::empty() && exists|n: nat| #[trigger]
                    searched(old(self).odb(), old(self)@.tips, n) == Err::<Search, Error>(e),
            },
    {
        self.prepared = true;
        self.ready = Vec::new();
        self.nodes = Vec::new();
        assert(left_of(self.nodes@) =~= Set::<Seq<u8>>::empty());
        let ghost tips = oid_views(self.tips@);
        let mut nodes = search(self.odb, &self.tips)?;
        let ghost first = nodes@;
        proof {
            assert forall|i: int| 0 <= i < first.len() implies (#[trigger] first[i]).ids().no_duplicates() by {
                assert(node_ok(self.odb, first[i]));
                lemma_unique_of(commit_in(self.odb, first[i].oid@)->0->Ok_0.parents);
            }
        }
        count_children(&mut nodes);
        proof {
            lemma_same_ascend(first, nodes@);
            assert forall|i: int| 0 <= i < nodes@.len() implies node_ok(self.odb, #[trigger] nodes@[i])
                && !nodes@[i].done by {
                assert(first[i].oid == nodes@[i].oid && first[i].parents == nodes@[i].parents);
                assert(node_ok(self.odb, first[i]));
            }
        }
        let mut ready: Vec<usize> = Vec::new();
        let mut i: usize = 0;
        while i < nodes.len()
            invariant
                i <= nodes@.len(),
                ready@.no_duplicates(),
                forall|k: int|
                    0 <= k < ready@.len() ==> (#[trigger] ready@[k]) < i && nodes@[ready@[k] as int].pending
                        == 0,
                forall|k: int|
                    0 <= k < i && (#[trigger] nodes@[k]).pending == 0 ==> listed(ready@, k),
            decreases nodes.len() - i,
        {
            let ghost before = ready@;
            if nodes[i].pending == 0 {
                ready.push(i);
            }
            proof {
                assert forall|k: int| 0 <= k < i + 1 && (#[trigger] nodes@[k]).pending == 0 implies listed(
                    ready@,
                    k,
                ) by {
                    if k < i {
                        let o = choose|o: int| 0 <= o < before.len() && #[trigger] before[o] == k;
                        assert(ready@[o] == before[o]);
                    } else {
                        assert(ready@[ready@.len() - 1] == i);
                    }
                }
            }
            i += 1;
        }
        self.nodes = nodes;
        self.ready = ready;
        proof {
            assert forall|oid: Seq<u8>| #[trigger] left_of(self.nodes@).contains(oid) == reachable_set(
                self.odb,
                tips,
            ).contains(oid) by {
                if left_of(self.nodes@).contains(oid) {
                    let k = choose|k: int|
                        0 <= k < self.nodes@.len() && (#[trigger] self.nodes@[k]).oid@ == oid
                            && !self.nodes@[k].done;
                    assert(first[k].oid@ == oid);
                    assert(node_ok(self.odb, first[k]));
                }
                if reachable(self.odb, tips, oid) {
                    let n = choose|n: nat| reached(self.odb, tips, oid, n);
                    lemma_search_complete(self.odb, tips, first, oid, n);
                    let k = choose|k: int| 0 <= k < first.len() && (#[trigger] first[k]).oid@ == oid;
                    assert(self.nodes@[k].oid@ == oid && !self.nodes@[k].done);
                }
            }
            assert(left_of(self.nodes@) =~= reachable_set(self.odb, tips));
        }
        Ok(())
    }

    /// The next commit: of those whose children all came, the latest. `None` when there is none.
    /// The first call finds all commits, and fails where one of them is broken; there is nothing
    /// more after that.
    #[verifier::spinoff_prover]
    pub fn next(&mut self) -> (r: Option<Result<WalkedCommit>>)
        requires
            old(self).wf(),
        ensures
            final(self).wf(),
            final(self).odb() == old(self).odb(),
            final(self)@.tips == old(self)@.tips,
            final(self)@.started,
            final(self)@.left.finite(),
            (r matches Some(Err(e))) <==> !old(self)@.started && !unbroken(
                old(self).odb(),
                old(self)@.tips,
            ),
            match r {
                Some(Ok(c)) => {
                    &&& comes_next(old(self).odb(), old(self).to_come(), c.oid@)
                    &&& old(self).odb().lookup(c.oid@) == Some((Kind::Commit, c.raw@))
                    &&& final(self)@.left == old(self).to_come().remove(c.oid@)
                },
                Some(Err(e)) => {
                    &&& final(self)@.left == Set::<Seq<u8>>::empty()
                    &&& exists|n: nat| #[trigger]
                        searched(old(self).odb(), old(self)@.tips, n) == Err::<Search, Error>(e)
                },
                None => {
                    &&& final(self)@.left == old(self).to_come()
                    &&& forall|oid: Seq<u8>| !may_come(old(self).odb(), old(self).to_come(), oid)
                },
            },
    {
        if !self.prepared {
            if let Err(e) = self.prepare() {
                return Some(Err(e));
            }
        }
        proof {
            lemma_left_finite(self.nodes@);
        }
        let ghost nodes0 = self.nodes@;
        let ghost ready0 = self.ready@;
        let ghost left = left_of(nodes0);
        assert(left == old(self).to_come());
        let Some(j) = take_latest(&self.nodes, &mut self.ready) else {
            proof {
                lemma_none_may_come(self.odb, nodes0, ready0);
            }
            return None;
        };
        let oid = self.nodes[j].oid;
        proof {
            lemma_latest_comes_next(self.odb, nodes0, ready0, j as int);
        }
        emit(self.odb, &mut self.nodes, &mut self.ready, j);
        match self.odb.read(&oid) {
            Some((Kind::Commit, raw)) => Some(Ok(WalkedCommit { oid, raw })),
            // Only commits that were read have a node.
            _ => Some(Err(Error::MissingBase)),
        }
    }
}

} // verus!
