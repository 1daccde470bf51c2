//! The files of a tree and the entries that lead to them.

use vstd::prelude::*;

use crate::bytes::lit;
use crate::checkout::{file_in, joined, listed, tree_listing, EntryKind, VisitView, MAX_TREE_DEPTH};
use crate::object::{first_entry, lemma_first_entry_len, EntryView, Kind};
use crate::Odb;

verus! {

// --- following entries --------------------------------------------------------------------------------

/// The entry with the given number in a tree.
pub open spec fn nth_entry(body: Seq<u8>, i: nat) -> Option<EntryView>
    decreases i,
{
    match first_entry(body) {
        Ok((entry, rest)) => if i == 0 {
            Some(entry)
        } else {
            nth_entry(rest, (i - 1) as nat)
        },
        Err(_) => None,
    }
}

/// A directory, by its mode.
pub open spec fn directory(e: EntryView) -> bool {
    e.mode == lit("40000") || e.mode == lit("040000")
}

/// The names of the entries that a chain of numbers leads through from a tree on, and the last of
/// the entries. All but the last are directories.
pub open spec fn followed<O: Odb>(odb: &O, body: Seq<u8>, chain: Seq<nat>) -> Option<
    (Seq<Seq<u8>>, EntryView),
>
    decreases chain.len(),
{
    if chain.len() == 0 {
        None
    } else {
        match nth_entry(body, chain[0]) {
            None => None,
            Some(e) => if chain.len() == 1 {
                Some((seq![e.name], e))
            } else if !directory(e) {
                None
            } else {
                match odb.lookup(e.oid) {
                    Some((Kind::Tree, child)) => match followed(odb, child, chain.skip(1)) {
                        Some((names, last)) => Some((seq![e.name] + names, last)),
                        None => None,
                    },
                    _ => None,
                }
            },
        }
    }
}

/// Names with slashes between them.
pub open spec fn slashed(names: Seq<Seq<u8>>) -> Seq<u8>
    decreases names.len(),
{
    if names.len() == 0 {
        Seq::empty()
    } else if names.len() == 1 {
        names[0]
    } else {
        names[0] + seq![47u8] + slashed(names.skip(1))
    }
}

/// The kind and the contents that an entry of a file has.
pub open spec fn shows<O: Odb>(odb: &O, e: EntryView, kind: EntryKind, content: Seq<u8>) -> bool {
    match kind {
        EntryKind::Gitlink => e.mode == lit("160000") && content == e.oid,
        EntryKind::File => (e.mode == lit("100644") || e.mode == lit("100664")) && odb.lookup(e.oid) == Some(
            (Kind::Blob, content),
        ),
        EntryKind::Executable => e.mode == lit("100755") && odb.lookup(e.oid) == Some((Kind::Blob, content)),
        EntryKind::Symlink => e.mode == lit("120000") && odb.lookup(e.oid) == Some((Kind::Blob, content)),
    }
}

/// The order in which a tree lists its entries, directories with what is in them.
pub open spec fn chain_less(a: Seq<nat>, b: Seq<nat>) -> bool
    decreases a.len(),
{
    if b.len() == 0 {
        false
    } else if a.len() == 0 {
        true
    } else if a[0] == b[0] {
        chain_less(a.skip(1), b.skip(1))
    } else {
        a[0] < b[0]
    }
}

/// What an entry stands for can be read, where `depth` trees are open.
pub open spec fn readable<O: Odb>(odb: &O, e: EntryView, depth: nat) -> bool {
    if directory(e) {
        &&& depth < MAX_TREE_DEPTH
        &&& odb.lookup(e.oid) matches Some((Kind::Tree, child)) && entries_end(child)
    } else {
        exists|kind: EntryKind, content: Seq<u8>| shows(odb, e, kind, content)
    }
}

/// All entries can be read, and so can everything that they lead to.
pub open spec fn whole<O: Odb>(odb: &O, body: Seq<u8>, depth: nat) -> bool {
    &&& entries_end(body)
    &&& forall|chain: Seq<nat>| #[trigger]
        followed(odb, body, chain) is Some ==> readable(
            odb,
            followed(odb, body, chain)->Some_0.1,
            (depth + chain.len() - 1) as nat,
        )
}

/// A body is made of whole entries.
pub open spec fn entries_end(body: Seq<u8>) -> bool
    decreases body.len(),
{
    if body.len() == 0 {
        true
    } else {
        proof {
            lemma_first_entry_len(body);
        }
        match first_entry(body) {
            Ok((entry, rest)) => entries_end(rest),
            Err(_) => false,
        }
    }
}

// --- the proof ------------------------------------------------------------------------------------------

/// The path of names below a directory.
spec fn under(prefix: Seq<u8>, names: Seq<Seq<u8>>) -> Seq<u8>
    decreases names.len(),
{
    if names.len() <= 1 {
        joined(prefix, names[0])
    } else {
        under(joined(prefix, names[0]), names.skip(1))
    }
}

proof fn lemma_under(prefix: Seq<u8>, names: Seq<Seq<u8>>)
    requires
        names.len() > 0,
        prefix.len() > 0 || names[0].len() > 0,
    ensures
        under(prefix, names) == if prefix.len() > 0 {
            prefix + seq![47u8] + slashed(names)
        } else {
            slashed(names)
        },
    decreases names.len(),
{
    assert(prefix.push(47) =~= prefix + seq![47u8]);
    if names.len() > 1 {
        lemma_under(joined(prefix, names[0]), names.skip(1));
        let rest = slashed(names.skip(1));
        let sep = seq![47u8];
        assert(prefix + sep + names[0] + sep + rest =~= prefix + sep + (names[0] + sep + rest));
    }
}

/// A chain with its first number one higher.
spec fn later(chain: Seq<nat>) -> Seq<nat> {
    chain.update(0, chain[0] + 1)
}

/// A chain one directory further up.
spec fn inside(chain: Seq<nat>) -> Seq<nat> {
    seq![0nat] + chain
}

/// The chains lead to the calls, in order.
spec fn leads<O: Odb>(
    odb: &O,
    prefix: Seq<u8>,
    body: Seq<u8>,
    chains: Seq<Seq<nat>>,
    visits: Seq<VisitView>,
) -> bool {
    &&& chains.len() == visits.len()
    &&& forall|i: int|
        0 <= i < chains.len() ==> leads_to(odb, prefix, body, #[trigger] chains[i], visits[i])
    &&& forall|i: int, j: int|
        0 <= i < j < chains.len() ==> chain_less(#[trigger] chains[i], #[trigger] chains[j])
}

spec fn leads_to<O: Odb>(
    odb: &O,
    prefix: Seq<u8>,
    body: Seq<u8>,
    chain: Seq<nat>,
    v: VisitView,
) -> bool {
    followed(odb, body, chain) matches Some((names, e)) && names.len() == chain.len() && !directory(e)
        && shows(odb, e, v.kind, v.content) && v.path == under(prefix, names)
}

/// Every chain to a file is listed.
spec fn complete<O: Odb>(odb: &O, body: Seq<u8>, chains: Seq<Seq<nat>>) -> bool {
    forall|chain: Seq<nat>| #[trigger]
        followed(odb, body, chain) matches Some((names, e)) && !directory(e) ==> chains.contains(chain)
}

proof fn lemma_later<O: Odb>(odb: &O, body: Seq<u8>, chain: Seq<nat>)
    requires
        first_entry(body) is Ok,
        chain.len() > 0,
    ensures
        followed(odb, body, later(chain)) == followed(odb, first_entry(body)->Ok_0.1, chain),
{
    assert(later(chain).skip(1) =~= chain.skip(1));
}

proof fn lemma_inside<O: Odb>(odb: &O, body: Seq<u8>, child: Seq<u8>, chain: Seq<nat>)
    requires
        first_entry(body) matches Ok((entry, rest)) && directory(entry) && odb.lookup(entry.oid) == Some(
            (Kind::Tree, child),
        ),
        chain.len() > 0,
    ensures
        ({
            let entry = first_entry(body)->Ok_0.0;
            followed(odb, body, inside(chain)) == match followed(odb, child, chain) {
                Some((names, last)) => Some((seq![entry.name] + names, last)),
                None => None,
            }
        }),
{
    assert(inside(chain).skip(1) =~= chain);
}

/// The chains for the first entry and those for the others.
proof fn lemma_leads_on<O: Odb>(
    odb: &O,
    prefix: Seq<u8>,
    body: Seq<u8>,
    first: Seq<Seq<nat>>,
    visits: Seq<VisitView>,
    others: Seq<Seq<nat>>,
    more: Seq<VisitView>,
)
    requires
        first_entry(body) matches Ok((entry, rest)) && leads(odb, prefix, rest, others, more),
        leads(odb, prefix, body, first, visits),
        forall|i: int| 0 <= i < first.len() ==> (#[trigger] first[i]).len() > 0 && first[i][0] == 0,
    ensures
        leads(
            odb,
            prefix,
            body,
            first + others.map_values(|c: Seq<nat>| later(c)),
            visits + more,
        ),
{
    let rest = first_entry(body)->Ok_0.1;
    let shifted = others.map_values(|c: Seq<nat>| later(c));
    let all = first + shifted;
    assert forall|i: int| 0 <= i < all.len() implies leads_to(
        odb,
        prefix,
        body,
        #[trigger] all[i],
        (visits + more)[i],
    ) by {
        if i < first.len() {
            assert(all[i] == first[i]);
        } else {
            let k = i - first.len();
            assert(leads_to(odb, prefix, rest, others[k], more[k]));
            lemma_later(odb, body, others[k]);
            assert(all[i] == later(others[k]));
        }
    }
    assert forall|i: int, j: int| 0 <= i < j < all.len() implies chain_less(
        #[trigger] all[i],
        #[trigger] all[j],
    ) by {
        if j < first.len() {
            assert(all[i] == first[i] && all[j] == first[j]);
        } else {
            let b = others[j - first.len()];
            assert(leads_to(odb, prefix, rest, b, more[j - first.len()]));
            assert(all[j] == later(b));
            if i < first.len() {
                assert(all[i] == first[i]);
            } else {
                let a = others[i - first.len()];
                assert(leads_to(odb, prefix, rest, a, more[i - first.len()]));
                assert(all[i] == later(a));
                assert(chain_less(a, b));
                assert(later(a).skip(1) =~= a.skip(1));
                assert(later(b).skip(1) =~= b.skip(1));
            }
        }
    }
}

/// A chain of a tree starts at its first entry or at a later one.
proof fn lemma_start<O: Odb>(odb: &O, body: Seq<u8>, chain: Seq<nat>) -> (c: Seq<nat>)
    requires
        followed(odb, body, chain) is Some,
        chain[0] > 0,
    ensures
        chain == later(c),
        c.len() == chain.len(),
        c.len() > 0,
        first_entry(body) matches Ok((entry, rest)) && followed(odb, rest, c) == followed(odb, body, chain),
{
    let c = chain.update(0, (chain[0] - 1) as nat);
    assert(later(c) =~= chain);
    lemma_later(odb, body, c);
    c
}

/// A part of a list has a place in the list.
proof fn lemma_contains_either(a: Seq<Seq<nat>>, b: Seq<Seq<nat>>, x: Seq<nat>)
    requires
        a.contains(x) || b.contains(x),
    ensures
        (a + b).contains(x),
{
    if a.contains(x) {
        let i = choose|i: int| 0 <= i < a.len() && a[i] == x;
        assert((a + b)[i] == x);
    } else {
        let i = choose|i: int| 0 <= i < b.len() && b[i] == x;
        assert((a + b)[a.len() + i] == x);
    }
}

#[verifier::spinoff_prover]
proof fn lemma_listed<O: Odb>(odb: &O, prefix: Seq<u8>, body: Seq<u8>, depth: nat) -> (chains: Seq<
    Seq<nat>,
>)
    ensures
        leads(odb, prefix, body, chains, listed(odb, prefix, body, depth).0),
        listed(odb, prefix, body, depth).1 is None ==> complete(odb, body, chains),
    decreases MAX_TREE_DEPTH - depth, body.len(),
{
    lemma_first_entry_len(body);
    let none = Seq::<Seq<nat>>::empty();
    let all = listed(odb, prefix, body, depth);
    if body.len() == 0 {
        none
    } else {
        match first_entry(body) {
            Err(_) => none,
            Ok((entry, rest)) => if directory(entry) {
                match odb.lookup(entry.oid) {
                    Some((Kind::Tree, child)) => if depth < MAX_TREE_DEPTH {
                        let below = joined(prefix, entry.name);
                        let part = listed(odb, below, child, depth + 1);
                        let next = listed(odb, prefix, rest, depth);
                        let deeper = lemma_listed(odb, below, child, depth + 1);
                        let others = lemma_listed(odb, prefix, rest, depth);
                        let first = deeper.map_values(|c: Seq<nat>| inside(c));
                        lemma_leads_inside(odb, prefix, body, child, deeper, part.0);
                        assert forall|i: int| 0 <= i < first.len() implies (#[trigger] first[i]).len() > 0
                            && first[i][0] == 0 by {
                            assert(first[i] == inside(deeper[i]));
                        }
                        if part.1 is Some {
                            first
                        } else {
                            let shifted = others.map_values(|c: Seq<nat>| later(c));
                            lemma_leads_on(odb, prefix, body, first, part.0, others, next.0);
                            if next.1 is None {
                                assert forall|chain: Seq<nat>| #[trigger]
                                    followed(odb, body, chain) matches Some((names, e)) && !directory(
                                        e,
                                    ) implies (first + shifted).contains(chain) by {
                                    if chain[0] > 0 {
                                        let c = lemma_start(odb, body, chain);
                                        assert(others.contains(c));
                                        let i = choose|i: int| 0 <= i < others.len() && others[i] == c;
                                        assert(shifted[i] == chain);
                                    } else {
                                        let c = chain.skip(1);
                                        assert(inside(c) =~= chain);
                                        assert(c.len() > 0);
                                        lemma_inside(odb, body, child, c);
                                        assert(deeper.contains(c));
                                        let i = choose|i: int| 0 <= i < deeper.len() && deeper[i] == c;
                                        assert(first[i] == chain);
                                    }
                                    lemma_contains_either(first, shifted, chain);
                                }
                            }
                            first + shifted
                        }
                    } else {
                        none
                    },
                    _ => none,
                }
            } else {
                match file_in(odb, prefix, entry) {
                    Err(_) => none,
                    Ok(v) => {
                        let others = lemma_listed(odb, prefix, rest, depth);
                        let next = listed(odb, prefix, rest, depth);
                        let first = seq![seq![0nat]];
                        let shifted = others.map_values(|c: Seq<nat>| later(c));
                        assert(followed(odb, body, seq![0nat]) == Some((seq![entry.name], entry)));
                        assert(shows(odb, entry, v.kind, v.content)) by {
                            lemma_kind(odb, prefix, entry);
                        }
                        assert(leads_to(odb, prefix, body, first[0], v));
                        assert(leads(odb, prefix, body, first, seq![v]));
                        lemma_leads_on(odb, prefix, body, first, seq![v], others, next.0);
                        if next.1 is None {
                            assert forall|chain: Seq<nat>| #[trigger]
                                followed(odb, body, chain) matches Some((names, e)) && !directory(
                                    e,
                                ) implies (first + shifted).contains(chain) by {
                                if chain[0] > 0 {
                                    let c = lemma_start(odb, body, chain);
                                    assert(others.contains(c));
                                    let i = choose|i: int| 0 <= i < others.len() && others[i] == c;
                                    assert(shifted[i] == chain);
                                } else {
                                    assert(chain =~= first[0]);
                                }
                                lemma_contains_either(first, shifted, chain);
                            }
                        }
                        first + shifted
                    },
                }
            },
        }
    }
}

/// The call for a file has the kind and the contents of its entry.
proof fn lemma_kind<O: Odb>(odb: &O, prefix: Seq<u8>, e: EntryView)
    ensures
        file_in(odb, prefix, e) matches Ok(v) ==> shows(odb, e, v.kind, v.content) && v.path == joined(
            prefix,
            e.name,
        ),
        (exists|kind: EntryKind, content: Seq<u8>| shows(odb, e, kind, content)) ==> file_in(
            odb,
            prefix,
            e,
        ) is Ok,
{
    reveal_strlit("160000");
    reveal_strlit("100644");
    reveal_strlit("100664");
    reveal_strlit("100755");
    reveal_strlit("120000");
}

proof fn lemma_leads_inside<O: Odb>(
    odb: &O,
    prefix: Seq<u8>,
    body: Seq<u8>,
    child: Seq<u8>,
    chains: Seq<Seq<nat>>,
    visits: Seq<VisitView>,
)
    requires
        first_entry(body) matches Ok((entry, rest)) && directory(entry) && odb.lookup(entry.oid) == Some(
            (Kind::Tree, child),
        ) && leads(odb, joined(prefix, entry.name), child, chains, visits),
    ensures
        leads(odb, prefix, body, chains.map_values(|c: Seq<nat>| inside(c)), visits),
{
    let entry = first_entry(body)->Ok_0.0;
    let all = chains.map_values(|c: Seq<nat>| inside(c));
    assert forall|i: int| 0 <= i < all.len() implies leads_to(odb, prefix, body, #[trigger] all[i], visits[i]) by {
        let c = chains[i];
        assert(leads_to(odb, joined(prefix, entry.name), child, c, visits[i]));
        lemma_inside(odb, body, child, c);
        let (names, e) = followed(odb, child, c)->0;
        assert((seq![entry.name] + names).skip(1) =~= names);
    }
    assert forall|i: int, j: int| 0 <= i < j < all.len() implies chain_less(
        #[trigger] all[i],
        #[trigger] all[j],
    ) by {
        assert(chain_less(chains[i], chains[j]));
        assert(inside(chains[i]).skip(1) =~= chains[i]);
        assert(inside(chains[j]).skip(1) =~= chains[j]);
    }
}

proof fn lemma_whole<O: Odb>(odb: &O, prefix: Seq<u8>, body: Seq<u8>, depth: nat)
    requires
        whole(odb, body, depth),
    ensures
        listed(odb, prefix, body, depth).1 is None,
    decreases MAX_TREE_DEPTH - depth, body.len(),
{
    lemma_first_entry_len(body);
    if body.len() > 0 {
        let (entry, rest) = first_entry(body)->Ok_0;
        assert(followed(odb, body, seq![0nat]) == Some((seq![entry.name], entry)));
        assert(whole(odb, rest, depth)) by {
            assert forall|chain: Seq<nat>| #[trigger] followed(odb, rest, chain) is Some implies readable(
                odb,
                followed(odb, rest, chain)->Some_0.1,
                (depth + chain.len() - 1) as nat,
            ) by {
                lemma_later(odb, body, chain);
                assert(followed(odb, body, later(chain)) is Some);
            }
        }
        lemma_whole(odb, prefix, rest, depth);
        if directory(entry) {
            let (kind, child) = odb.lookup(entry.oid)->0;
            assert(whole(odb, child, depth + 1)) by {
                assert forall|chain: Seq<nat>| #[trigger] followed(odb, child, chain) is Some implies readable(
                    odb,
                    followed(odb, child, chain)->Some_0.1,
                    (depth + 1 + chain.len() - 1) as nat,
                ) by {
                    lemma_inside(odb, body, child, chain);
                    assert(followed(odb, body, inside(chain)) is Some);
                }
            }
            lemma_whole(odb, joined(prefix, entry.name), child, depth + 1);
        } else {
            lemma_kind(odb, prefix, entry);
        }
    }
}

/// The files that are listed for a tree are those that chains of entries lead to from the root, in
/// the order of the trees and each once. The path of a file is the names of the entries with slashes
/// between them, where the first is not empty; its kind and its contents are those of the last. No
/// file is left out where the listing comes to its end, and it does where everything that the
/// entries lead to can be read.
pub proof fn paths_lead_from_the_root<O: Odb>(odb: &O, tree: Seq<u8>, body: Seq<u8>) -> (chains: Seq<
    Seq<nat>,
>)
    requires
        odb.lookup(tree) == Some((Kind::Tree, body)),
    ensures
        chains.len() == tree_listing(odb, tree).0.len(),
        forall|i: int|
            0 <= i < chains.len() ==> {
                let v = tree_listing(odb, tree).0[i];
                &&& followed(odb, body, #[trigger] chains[i]) matches Some((names, e)) && !directory(e)
                    && shows(odb, e, v.kind, v.content) && (names[0].len() > 0 ==> v.path == slashed(names))
            },
        forall|i: int, j: int|
            0 <= i < j < chains.len() ==> chain_less(#[trigger] chains[i], #[trigger] chains[j]),
        tree_listing(odb, tree).1 is None ==> forall|chain: Seq<nat>| #[trigger]
            followed(odb, body, chain) matches Some((names, e)) && !directory(e) ==> chains.contains(chain),
        whole(odb, body, 1) ==> tree_listing(odb, tree).1 is None,
{
    let none = Seq::<u8>::empty();
    let chains = lemma_listed(odb, none, body, 1);
    let visits = tree_listing(odb, tree).0;
    if whole(odb, body, 1) {
        lemma_whole(odb, none, body, 1);
    }
    assert forall|i: int| 0 <= i < chains.len() implies {
        let v = visits[i];
        &&& followed(odb, body, #[trigger] chains[i]) matches Some((names, e)) && !directory(e) && shows(
            odb,
            e,
            v.kind,
            v.content,
        ) && (names[0].len() > 0 ==> v.path == slashed(names))
    } by {
        assert(leads_to(odb, none, body, chains[i], visits[i]));
        let (names, e) = followed(odb, body, chains[i])->0;
        if names[0].len() > 0 {
            lemma_under(none, names);
        }
    }
    chains
}

} // verus!
