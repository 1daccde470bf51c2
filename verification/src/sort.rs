//! A stable sort by keys that are byte strings.

use vstd::prelude::*;

use crate::bytes::lex_less;

verus! {

/// A value with a key.
pub trait HasKey {
    spec fn key(&self) -> Seq<u8>;
}

/// A value whose key can be compared.
pub trait Keyed: HasKey + Copy {
    /// Whether this key is less than the other one.
    fn goes_before(&self, other: &Self) -> (r: bool)
        ensures
            r == lex_less(self.key(), other.key()),
    ;
}

/// `s` with `x` put before the first value whose key is greater.
pub open spec fn inserted<T: HasKey>(x: T, s: Seq<T>) -> Seq<T>
    decreases s.len(),
{
    if s.len() == 0 {
        seq![x]
    } else if lex_less(x.key(), s[0].key()) {
        seq![x] + s
    } else {
        seq![s[0]] + inserted(x, s.skip(1))
    }
}

/// The values in the order of their keys; those with equal keys stay in their order.
pub open spec fn sorted<T: HasKey>(s: Seq<T>) -> Seq<T>
    decreases s.len(),
{
    if s.len() == 0 {
        Seq::empty()
    } else {
        inserted(s.last(), sorted(s.drop_last()))
    }
}

/// No key is less than one before it.
pub open spec fn in_order<T: HasKey>(s: Seq<T>) -> bool {
    forall|i: int, j: int|
        0 <= i < j < s.len() ==> !lex_less(#[trigger] s[j].key(), #[trigger] s[i].key())
}

// --- the order of byte strings -----------------------------------------------------------

/// Of two different byte strings one is less.
pub proof fn lemma_total(a: Seq<u8>, b: Seq<u8>)
    ensures
        lex_less(a, b) || lex_less(b, a) || a == b,
        !(lex_less(a, b) && lex_less(b, a)),
        !lex_less(a, a),
    decreases a.len(),
{
    if a.len() > 0 {
        if b.len() > 0 {
            lemma_total(a.skip(1), b.skip(1));
            if a[0] == b[0] && a.skip(1) == b.skip(1) {
                assert(a =~= seq![a[0]] + a.skip(1));
                assert(b =~= seq![b[0]] + b.skip(1));
            }
        } else {
            lemma_total(a.skip(1), a.skip(1));
        }
    } else if b.len() == 0 {
        assert(a =~= b);
    }
}

pub proof fn lemma_transitive(a: Seq<u8>, b: Seq<u8>, c: Seq<u8>)
    requires
        lex_less(a, b),
        lex_less(b, c),
    ensures
        lex_less(a, c),
    decreases a.len(),
{
    if a.len() > 0 && a[0] == b[0] && b[0] == c[0] {
        lemma_transitive(a.skip(1), b.skip(1), c.skip(1));
    }
}

// --- sorting by merging --------------------------------------------------------------------

spec fn merged<T: HasKey>(a: Seq<T>, b: Seq<T>) -> Seq<T>
    decreases a.len() + b.len(),
{
    if a.len() == 0 {
        b
    } else if b.len() == 0 {
        a
    } else if lex_less(b[0].key(), a[0].key()) {
        seq![b[0]] + merged(a, b.skip(1))
    } else {
        seq![a[0]] + merged(a.skip(1), b)
    }
}

proof fn lemma_inserted_merged<T: HasKey>(x: T, a: Seq<T>, b: Seq<T>)
    ensures
        inserted(x, merged(a, b)) == merged(a, inserted(x, b)),
    decreases a.len() + b.len(),
{
    if a.len() == 0 {
    } else if b.len() == 0 {
        assert(seq![x].skip(1) =~= b);
        assert(merged(a, b) == a);
        if !lex_less(x.key(), a[0].key()) {
            lemma_inserted_merged(x, a.skip(1), b);
            assert(merged(a.skip(1), b) == a.skip(1));
        }
    } else if lex_less(b[0].key(), a[0].key()) {
        let m = merged(a, b.skip(1));
        assert((seq![b[0]] + m).skip(1) =~= m);
        if lex_less(x.key(), b[0].key()) {
            lemma_transitive(x.key(), b[0].key(), a[0].key());
            assert((seq![x] + b).skip(1) =~= b);
        } else {
            lemma_inserted_merged(x, a, b.skip(1));
            let t = inserted(x, b.skip(1));
            assert((seq![b[0]] + t).skip(1) =~= t);
        }
    } else {
        let m = merged(a.skip(1), b);
        assert((seq![a[0]] + m).skip(1) =~= m);
        lemma_total(a[0].key(), b[0].key());
        if lex_less(x.key(), a[0].key()) {
            if a[0].key() != b[0].key() {
                lemma_transitive(x.key(), a[0].key(), b[0].key());
            }
            assert((seq![x] + b).skip(1) =~= b);
        } else {
            lemma_inserted_merged(x, a.skip(1), b);
        }
    }
}

proof fn lemma_sorted_concat<T: HasKey>(a: Seq<T>, b: Seq<T>)
    ensures
        sorted(a + b) == merged(sorted(a), sorted(b)),
    decreases b.len(),
{
    if b.len() == 0 {
        assert(a + b =~= a);
    } else {
        assert((a + b).drop_last() =~= a + b.drop_last());
        lemma_sorted_concat(a, b.drop_last());
        lemma_inserted_merged(b.last(), sorted(a), sorted(b.drop_last()));
    }
}

fn merge<T: Keyed>(a: &Vec<T>, b: &Vec<T>) -> (r: Vec<T>)
    ensures
        r@ == merged(a@, b@),
{
    let mut out: Vec<T> = Vec::new();
    let mut i: usize = 0;
    let mut j: usize = 0;
    assert(a@.skip(0) =~= a@);
    assert(b@.skip(0) =~= b@);
    while i < a.len() && j < b.len()
        invariant
            i <= a.len(),
            j <= b.len(),
            merged(a@, b@) == out@ + merged(a@.skip(i as int), b@.skip(j as int)),
        decreases a.len() - i + b.len() - j,
    {
        let ghost before = out@;
        let x = a[i];
        let y = b[j];
        assert(a@.skip(i as int).skip(1) =~= a@.skip(i + 1));
        assert(b@.skip(j as int).skip(1) =~= b@.skip(j + 1));
        if y.goes_before(&x) {
            out.push(y);
            j += 1;
        } else {
            out.push(x);
            i += 1;
        }
        assert(merged(a@, b@) =~= out@ + merged(a@.skip(i as int), b@.skip(j as int)));
    }
    let ghost rest = merged(a@.skip(i as int), b@.skip(j as int));
    let ghost before = out@;
    let ghost (i0, j0) = (i as int, j as int);
    while i < a.len()
        invariant
            0 <= i0 <= i <= a.len(),
            out@ == before + a@.subrange(i0, i as int),
        decreases a.len() - i,
    {
        out.push(a[i]);
        i += 1;
        assert(out@ =~= before + a@.subrange(i0, i as int));
    }
    let ghost middle = out@;
    while j < b.len()
        invariant
            0 <= j0 <= j <= b.len(),
            out@ == middle + b@.subrange(j0, j as int),
        decreases b.len() - j,
    {
        out.push(b[j]);
        j += 1;
        assert(out@ =~= middle + b@.subrange(j0, j as int));
    }
    assert(out@ =~= before + rest);
    out
}

/// The values in the order of their keys; those with equal keys stay in their order.
pub fn sort<T: Keyed>(s: &[T]) -> (r: Vec<T>)
    ensures
        r@ == sorted(s@),
    decreases s@.len(),
{
    if s.len() <= 1 {
        let mut out: Vec<T> = Vec::new();
        if s.len() == 1 {
            out.push(s[0]);
            proof {
                assert(s@.drop_last() =~= Seq::<T>::empty());
                assert(sorted(s@.drop_last()) =~= Seq::<T>::empty());
                assert(out@ =~= sorted(s@));
            }
        }
        return out;
    }
    let middle = s.len() / 2;
    let left = &s[0..middle];
    let right = &s[middle..s.len()];
    assert(left@ + right@ =~= s@);
    let a = sort(left);
    let b = sort(right);
    proof {
        lemma_sorted_concat(left@, right@);
    }
    merge(&a, &b)
}

// --- what sorting does ---------------------------------------------------------------------

proof fn lemma_inserted<T: HasKey>(x: T, s: Seq<T>)
    ensures
        inserted(x, s).to_multiset() == s.to_multiset().insert(x),
        inserted(x, s).len() == s.len() + 1,
        in_order(s) ==> in_order(inserted(x, s)),
    decreases s.len(),
{
    broadcast use vstd::seq_lib::group_to_multiset_ensures;

    let r = inserted(x, s);
    if s.len() == 0 {
        assert(s =~= Seq::<T>::empty());
        assert(r =~= s.push(x));
    } else if lex_less(x.key(), s[0].key()) {
        assert(r =~= s.insert(0, x));
        if in_order(s) {
            assert forall|i: int, j: int| 0 <= i < j < r.len() implies !lex_less(
                #[trigger] r[j].key(),
                #[trigger] r[i].key(),
            ) by {
                if i == 0 {
                    lemma_total(x.key(), r[j].key());
                    if lex_less(r[j].key(), x.key()) {
                        lemma_transitive(r[j].key(), x.key(), s[0].key());
                        lemma_total(s[0].key(), s[0].key());
                        assert(r[j] == s[j - 1]);
                        if j > 1 {
                            assert(!lex_less(s[j - 1].key(), s[0].key()));
                        }
                    }
                } else {
                    assert(r[j] == s[j - 1] && r[i] == s[i - 1]);
                }
            }
        }
    } else {
        let t = s.skip(1);
        lemma_inserted(x, t);
        let u = inserted(x, t);
        assert(r =~= u.insert(0, s[0]));
        assert(s =~= t.insert(0, s[0]));
        if in_order(s) {
            assert(in_order(t)) by {
                assert forall|i: int, j: int| 0 <= i < j < t.len() implies !lex_less(
                    #[trigger] t[j].key(),
                    #[trigger] t[i].key(),
                ) by {
                    assert(t[j] == s[j + 1] && t[i] == s[i + 1]);
                }
            }
            assert forall|i: int, j: int| 0 <= i < j < r.len() implies !lex_less(
                #[trigger] r[j].key(),
                #[trigger] r[i].key(),
            ) by {
                if i == 0 {
                    let y = u[j - 1];
                    assert(u.to_multiset().contains(y));
                    assert(y == x || t.to_multiset().contains(y));
                    if y != x {
                        assert(t.contains(y));
                        let k = choose|k: int| 0 <= k < t.len() && t[k] == y;
                        assert(s[k + 1] == y);
                        assert(!lex_less(s[k + 1].key(), s[0].key()));
                    }
                } else {
                    assert(r[j] == u[j - 1] && r[i] == u[i - 1]);
                }
            }
        }
    }
}

/// Sorting keeps all values and puts them in the order of their keys.
pub proof fn lemma_sorted<T: HasKey>(s: Seq<T>)
    ensures
        sorted(s).to_multiset() == s.to_multiset(),
        sorted(s).len() == s.len(),
        in_order(sorted(s)),
    decreases s.len(),
{
    broadcast use vstd::seq_lib::group_to_multiset_ensures;

    if s.len() > 0 {
        lemma_sorted(s.drop_last());
        lemma_inserted(s.last(), sorted(s.drop_last()));
        assert(s =~= s.drop_last().push(s.last()));
    } else {
        assert(s =~= Seq::<T>::empty());
    }
}

/// The values before and after sorting are the same.
pub proof fn lemma_sorted_contains<T: HasKey>(s: Seq<T>, x: T)
    ensures
        sorted(s).contains(x) == s.contains(x),
{
    broadcast use vstd::seq_lib::group_to_multiset_ensures;

    lemma_sorted(s);
    assert(sorted(s).contains(x) == sorted(s).to_multiset().contains(x));
    assert(s.contains(x) == s.to_multiset().contains(x));
}

proof fn lemma_inserted_map<A: HasKey, B: HasKey>(x: A, s: Seq<A>, f: spec_fn(A) -> B)
    requires
        forall|a: A| (#[trigger] f(a)).key() == a.key(),
    ensures
        inserted(f(x), s.map_values(f)) == inserted(x, s).map_values(f),
    decreases s.len(),
{
    let t = s.map_values(f);
    if s.len() == 0 {
        assert(seq![f(x)] =~= seq![x].map_values(f));
    } else if lex_less(x.key(), s[0].key()) {
        assert(seq![f(x)] + t =~= (seq![x] + s).map_values(f));
    } else {
        assert(t.skip(1) =~= s.skip(1).map_values(f));
        lemma_inserted_map(x, s.skip(1), f);
        let u = inserted(x, s.skip(1));
        assert(seq![f(s[0])] + u.map_values(f) =~= (seq![s[0]] + u).map_values(f));
    }
}

/// What a value looks like does not matter to sorting, only its key does.
pub proof fn lemma_sorted_map<A: HasKey, B: HasKey>(s: Seq<A>, f: spec_fn(A) -> B)
    requires
        forall|a: A| (#[trigger] f(a)).key() == a.key(),
    ensures
        sorted(s.map_values(f)) == sorted(s).map_values(f),
    decreases s.len(),
{
    if s.len() > 0 {
        assert(s.map_values(f).drop_last() =~= s.drop_last().map_values(f));
        lemma_sorted_map(s.drop_last(), f);
        lemma_inserted_map(s.last(), sorted(s.drop_last()), f);
    } else {
        assert(sorted(s.map_values(f)) =~= sorted(s).map_values(f));
    }
}

} // verus!
