//! Trees from the side of the one who writes them.

use vstd::prelude::*;

use crate::build::{built_tree, entries_error, entry_error, entry_key, tree_bytes};
use crate::bytes::{lemma_cut, lex_less, lit};
use crate::err::Error;
use crate::object::{first_entry, lemma_first_entry_len, tree_view, EntryView};
use crate::sort::{lemma_sorted, sorted, HasKey};

verus! {

/// Entries as they are written: the mode, a space, the name, a zero byte and the id.
pub open spec fn tree_text(list: Seq<EntryView>) -> Seq<u8>
    decreases list.len(),
{
    if list.len() == 0 {
        Seq::empty()
    } else {
        tree_text(list.drop_last()) + list.last().mode + seq![32u8] + list.last().name + seq![0u8]
            + list.last().oid
    }
}

pub open spec fn can_be_entry(e: EntryView) -> bool {
    !e.mode.contains(32) && !e.name.contains(0) && e.oid.len() == 20
}

spec fn entry_text(e: EntryView) -> Seq<u8> {
    e.mode + seq![32u8] + e.name + seq![0u8] + e.oid
}

proof fn lemma_front(list: Seq<EntryView>)
    requires
        list.len() > 0,
    ensures
        tree_text(list) == entry_text(list[0]) + tree_text(list.skip(1)),
    decreases list.len(),
{
    let e = entry_text(list.last());
    if list.len() == 1 {
        assert(list.drop_last() =~= Seq::<EntryView>::empty());
        assert(list.skip(1) =~= Seq::<EntryView>::empty());
        assert(tree_text(list.drop_last()) =~= Seq::<u8>::empty());
        assert(tree_text(list.skip(1)) =~= Seq::<u8>::empty());
        assert(tree_text(list) =~= e);
        assert(e + tree_text(list.skip(1)) =~= e);
    } else {
        let front = list.drop_last();
        let rest = list.skip(1);
        lemma_front(front);
        assert(front.skip(1) =~= rest.drop_last());
        assert(tree_text(list) =~= tree_text(front) + e);
        assert(tree_text(rest) =~= tree_text(rest.drop_last()) + e);
        assert(front[0] == list[0]);
        assert(tree_text(list) =~= entry_text(list[0]) + tree_text(rest));
    }
}

proof fn lemma_first(e: EntryView, rest: Seq<u8>)
    requires
        can_be_entry(e),
    ensures
        first_entry(entry_text(e) + rest) == Ok::<_, Error>((e, rest)),
{
    let tail = e.oid + rest;
    let after = e.name.push(0) + tail;
    let all = entry_text(e) + rest;
    assert(all =~= e.mode.push(32) + after);
    lemma_cut(e.mode, 32, after);
    lemma_cut(e.name, 0, tail);
    assert(tail.take(20) =~= e.oid);
    assert(tail.skip(20) =~= rest);
}

/// A tree is read as it is written, every entry of it and in their order.
pub proof fn trees_are_read_as_written(list: Seq<EntryView>)
    requires
        forall|i: int| 0 <= i < list.len() ==> can_be_entry(#[trigger] list[i]),
    ensures
        tree_view(tree_text(list)) == Ok::<_, Error>(list),
    decreases list.len(),
{
    if list.len() > 0 {
        let rest = list.skip(1);
        assert forall|i: int| 0 <= i < rest.len() implies can_be_entry(#[trigger] rest[i]) by {
            assert(rest[i] == list[i + 1]);
        }
        trees_are_read_as_written(rest);
        lemma_front(list);
        assert(can_be_entry(list[0]));
        lemma_first(list[0], tree_text(rest));
        lemma_first_entry_len(tree_text(list));
        assert(tree_text(list).len() > 0);
        assert(seq![list[0]] + rest =~= list);
    } else {
        assert(list =~= Seq::<EntryView>::empty());
    }
}

// --- the order ----------------------------------------------------------------------------------------

/// A name as it takes part in the order: that of a directory goes on with a slash, any other ends
/// before every byte.
pub open spec fn ordered_name(e: EntryView) -> Seq<u8> {
    if e.mode == lit("40000") || e.mode == lit("040000") {
        e.name + seq![47u8]
    } else {
        e.name + seq![0u8]
    }
}

/// At the first byte in which they differ, the first one is less.
pub open spec fn stands_before(a: Seq<u8>, b: Seq<u8>) -> bool {
    exists|k: int|
        0 <= k <= a.len() && k < b.len() && #[trigger] a.take(k) == b.take(k) && (k == a.len() || a[k]
            < b[k])
}

proof fn lemma_less(a: Seq<u8>, b: Seq<u8>)
    ensures
        stands_before(a, b) ==> lex_less(a, b),
    decreases a.len(),
{
    if stands_before(a, b) {
        let k = choose|k: int|
            0 <= k <= a.len() && k < b.len() && #[trigger] a.take(k) == b.take(k) && (k == a.len()
                || a[k] < b[k]);
        if k > 0 {
            assert(a.take(k)[0] == b.take(k)[0]);
            let (x, y) = (a.skip(1), b.skip(1));
            assert(x.take(k - 1) =~= a.take(k).skip(1));
            assert(y.take(k - 1) =~= b.take(k).skip(1));
            assert(x.take(k - 1) == y.take(k - 1));
            assert(stands_before(x, y));
            lemma_less(x, y);
        }
    }
}

proof fn lemma_same_text(s: Seq<EntryView>)
    ensures
        tree_bytes(s) == tree_text(s),
    decreases s.len(),
{
    if s.len() > 0 {
        lemma_front(s);
        lemma_same_text(s.skip(1));
        let e = s[0];
        assert(e.mode.push(32) + (e.name.push(0) + e.oid) =~= entry_text(e));
    }
}

/// The name can be that of an entry of a tree.
pub open spec fn sound_name(name: Seq<u8>) -> bool {
    &&& name.len() > 0
    &&& name != seq![46u8]
    &&& name != seq![46u8, 46u8]
    &&& forall|i: int| 0 <= i < name.len() ==> #[trigger] name[i] != 0 && name[i] != 47
}

/// The mode is written in octal digits.
pub open spec fn sound_mode(mode: Seq<u8>) -> bool {
    mode.len() > 0 && forall|i: int| 0 <= i < mode.len() ==> 48 <= #[trigger] mode[i] <= 55
}

proof fn lemma_sound(e: EntryView)
    ensures
        entry_error(e) is None <==> sound_name(e.name) && sound_mode(e.mode),
{
    reveal_strlit(".");
    reveal_strlit("..");
    crate::bytes::lemma_lit(".");
    crate::bytes::lemma_lit("..");
    assert(lit(".") =~= seq![46u8]);
    assert(lit("..") =~= seq![46u8, 46u8]);
    let name = e.name;
    if sound_name(name) {
        assert(!name.contains(47));
        assert(!name.contains(0));
    }
    if !name.contains(47) && !name.contains(0) {
        assert forall|i: int| 0 <= i < name.len() implies #[trigger] name[i] != 0 && name[i] != 47 by {
            assert(name.contains(name[i]));
        }
    }
}

proof fn lemma_all_sound(s: Seq<EntryView>)
    ensures
        entries_error(s) is None <==> forall|i: int|
            0 <= i < s.len() ==> sound_name((#[trigger] s[i]).name) && sound_mode(s[i].mode),
    decreases s.len(),
{
    if s.len() > 0 {
        let rest = s.skip(1);
        lemma_sound(s[0]);
        lemma_all_sound(rest);
        if entries_error(s) is None {
            assert forall|i: int| 0 <= i < s.len() implies sound_name((#[trigger] s[i]).name) && sound_mode(
                s[i].mode,
            ) by {
                if i > 0 {
                    assert(rest[i - 1] == s[i]);
                }
            }
        } else if forall|i: int|
            0 <= i < s.len() ==> sound_name((#[trigger] s[i]).name) && sound_mode(s[i].mode) {
            assert(sound_name(s[0].name));
            assert forall|i: int| 0 <= i < rest.len() implies sound_name((#[trigger] rest[i]).name)
                && sound_mode(rest[i].mode) by {
                assert(rest[i] == s[i + 1]);
            }
        }
    }
}

/// A tree is built of any entries with sound names and modes, and of no others. It holds each of them
/// as often as it was given, with no name before one that stands before it, a directory taken as if
/// its name ended with a slash.
pub proof fn built_trees_are_in_order(entries: Seq<EntryView>) -> (list: Seq<EntryView>)
    ensures
        built_tree(entries) is Ok <==> forall|i: int|
            0 <= i < entries.len() ==> sound_name((#[trigger] entries[i]).name) && sound_mode(
                entries[i].mode,
            ),
        built_tree(entries) matches Ok(body) ==> body == tree_text(list),
        list.to_multiset() == entries.to_multiset(),
        forall|i: int, j: int|
            0 <= i < j < list.len() ==> !stands_before(
                ordered_name(#[trigger] list[j]),
                ordered_name(#[trigger] list[i]),
            ),
{
    let list = sorted(entries);
    lemma_all_sound(entries);
    lemma_sorted(entries);
    lemma_same_text(list);
    assert forall|i: int, j: int| 0 <= i < j < list.len() implies !stands_before(
        ordered_name(#[trigger] list[j]),
        ordered_name(#[trigger] list[i]),
    ) by {
        let (a, b) = (list[j], list[i]);
        assert(ordered_name(a) =~= entry_key(a));
        assert(ordered_name(b) =~= entry_key(b));
        assert(a.key() == entry_key(a) && b.key() == entry_key(b));
        lemma_less(a.key(), b.key());
    }
    list
}

} // verus!
