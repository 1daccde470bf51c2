//! Byte strings: searching, splitting, and the text forms of numbers.

use vstd::prelude::*;

verus! {

/// `String::push` appends one character.
pub assume_specification[ String::push ](s: &mut String, ch: char)
    ensures
        final(s)@ == old(s)@.push(ch),
;

/// The bytes of a text literal.
pub open spec fn lit(s: &str) -> Seq<u8> {
    vstd::utf8::encode_utf8(s@)
}

/// The bytes of a text literal.
pub fn text(s: &'static str) -> (r: &'static [u8])
    ensures
        r@ == lit(s),
{
    s.as_bytes()
}

/// An ASCII literal has one byte per character.
pub proof fn lemma_lit(s: &str)
    requires
        vstd::utf8::is_ascii_chars(s@),
    ensures
        lit(s).len() == s@.len(),
        forall|i: int| 0 <= i < s@.len() ==> (#[trigger] lit(s)[i]) == s@[i] as u8,
{
    vstd::utf8::is_ascii_chars_encode_utf8(s@);
}

// --- comparing ---------------------------------------------------------------

/// Whether two byte strings are the same.
pub fn same(a: &[u8], b: &[u8]) -> (r: bool)
    ensures
        r == (a@ == b@),
{
    if a.len() != b.len() {
        return false;
    }
    let mut i: usize = 0;
    while i < a.len()
        invariant
            i <= a.len(),
            a.len() == b.len(),
            forall|j: int| 0 <= j < i ==> a@[j] == b@[j],
        decreases a.len() - i,
    {
        if a[i] != b[i] {
            return false;
        }
        i += 1;
    }
    assert(a@ =~= b@);
    true
}

/// The order of byte strings: by the first byte that differs, then by length.
pub open spec fn lex_less(a: Seq<u8>, b: Seq<u8>) -> bool
    decreases a.len(),
{
    if b.len() == 0 {
        false
    } else if a.len() == 0 {
        true
    } else if a[0] == b[0] {
        lex_less(a.skip(1), b.skip(1))
    } else {
        a[0] < b[0]
    }
}

/// `p` stands at the start of `s`.
pub open spec fn has_prefix(s: Seq<u8>, p: Seq<u8>) -> bool {
    p.len() <= s.len() && s.take(p.len() as int) == p
}

pub fn starts_with(s: &[u8], p: &[u8]) -> (r: bool)
    ensures
        r == has_prefix(s@, p@),
{
    if p.len() > s.len() {
        return false;
    }
    let head = &s[0..p.len()];
    assert(head@ == s@.take(p@.len() as int));
    same(head, p)
}

/// What follows the prefix `p`, where `s` starts with it.
pub open spec fn after_prefix(s: Seq<u8>, p: Seq<u8>) -> Option<Seq<u8>> {
    if has_prefix(s, p) {
        Some(s.skip(p.len() as int))
    } else {
        None
    }
}

/// The view of an optional byte string.
pub open spec fn opt_view(o: Option<&[u8]>) -> Option<Seq<u8>> {
    match o {
        Some(v) => Some(v@),
        None => None,
    }
}

pub fn strip_prefix<'a>(s: &'a [u8], p: &[u8]) -> (r: Option<&'a [u8]>)
    ensures
        opt_view(r) == after_prefix(s@, p@),
{
    if starts_with(s, p) {
        let rest = &s[p.len()..s.len()];
        assert(rest@ == s@.skip(p@.len() as int));
        Some(rest)
    } else {
        None
    }
}

/// The bytes from `i` on.
pub fn from_index(s: &[u8], i: usize) -> (r: &[u8])
    requires
        i <= s@.len(),
    ensures
        r@ == s@.skip(i as int),
{
    let r = &s[i..s.len()];
    assert(r@ =~= s@.skip(i as int));
    r
}

/// The bytes before `i`.
pub fn up_to(s: &[u8], i: usize) -> (r: &[u8])
    requires
        i <= s@.len(),
    ensures
        r@ == s@.take(i as int),
{
    let r = &s[0..i];
    assert(r@ =~= s@.take(i as int));
    r
}

/// An owned copy.
pub fn owned(s: &[u8]) -> (r: Vec<u8>)
    ensures
        r@ == s@,
{
    let mut v: Vec<u8> = Vec::new();
    v.extend_from_slice(s);
    assert(v@ =~= s@);
    v
}

// --- searching ---------------------------------------------------------------

/// The position of the first `b` in `s`.
pub open spec fn find(s: Seq<u8>, b: u8) -> Option<int>
    decreases s.len(),
{
    if s.len() == 0 {
        None
    } else if s[0] == b {
        Some(0)
    } else {
        match find(s.skip(1), b) {
            Some(i) => Some(i + 1),
            None => None,
        }
    }
}

/// What [`find`] says of the bytes before and at the position.
pub proof fn lemma_find(s: Seq<u8>, b: u8)
    ensures
        match find(s, b) {
            Some(i) => 0 <= i < s.len() && s[i] == b && forall|j: int| 0 <= j < i ==> s[j] != b,
            None => forall|j: int| 0 <= j < s.len() ==> s[j] != b,
        },
    decreases s.len(),
{
    if s.len() > 0 && s[0] != b {
        let t = s.skip(1);
        lemma_find(t, b);
        match find(t, b) {
            Some(i) => {
                assert(s[i + 1] == t[i]);
                assert forall|j: int| 0 <= j < i + 1 implies s[j] != b by {
                    if j > 0 {
                        assert(s[j] == t[j - 1]);
                    }
                }
            },
            None => {
                assert forall|j: int| 0 <= j < s.len() implies s[j] != b by {
                    if j > 0 {
                        assert(s[j] == t[j - 1]);
                    }
                }
            },
        }
    }
}

/// The first `b` is at `i` when no earlier byte is `b`.
pub proof fn lemma_find_at(s: Seq<u8>, b: u8, i: int)
    requires
        0 <= i < s.len(),
        s[i] == b,
        forall|j: int| 0 <= j < i ==> s[j] != b,
    ensures
        find(s, b) == Some(i),
{
    lemma_find(s, b);
}

/// There is no `b` when every byte differs from it.
pub proof fn lemma_find_none(s: Seq<u8>, b: u8)
    requires
        forall|j: int| 0 <= j < s.len() ==> s[j] != b,
    ensures
        find(s, b) is None,
{
    lemma_find(s, b);
}

pub fn position(s: &[u8], b: u8) -> (r: Option<usize>)
    ensures
        match r {
            Some(i) => find(s@, b) == Some(i as int) && i < s.len(),
            None => find(s@, b) is None,
        },
{
    let mut i: usize = 0;
    while i < s.len()
        invariant
            i <= s.len(),
            forall|j: int| 0 <= j < i ==> s@[j] != b,
        decreases s.len() - i,
    {
        if s[i] == b {
            proof {
                lemma_find_at(s@, b, i as int);
            }
            return Some(i);
        }
        i += 1;
    }
    proof {
        lemma_find_none(s@, b);
    }
    None
}

pub fn has_byte(s: &[u8], b: u8) -> (r: bool)
    ensures
        r == s@.contains(b),
{
    proof {
        lemma_find(s@, b);
    }
    match position(s, b) {
        Some(_) => true,
        None => false,
    }
}

// --- splitting ---------------------------------------------------------------

/// The fields between the separators `b`; a string without one is a single field.
pub open spec fn split(s: Seq<u8>, b: u8) -> Seq<Seq<u8>>
    decreases s.len(),
{
    proof {
        lemma_find(s, b);
    }
    match find(s, b) {
        Some(i) => seq![s.take(i)] + split(s.skip(i + 1), b),
        None => seq![s],
    }
}

/// The views of a list of byte strings.
pub open spec fn views(v: Seq<&[u8]>) -> Seq<Seq<u8>> {
    Seq::new(v.len(), |i: int| v[i]@)
}

pub fn fields<'a>(s: &'a [u8], b: u8) -> (r: Vec<&'a [u8]>)
    ensures
        views(r@) == split(s@, b),
        r@.len() >= 1,
{
    let mut out: Vec<&'a [u8]> = Vec::new();
    let mut rest: &'a [u8] = s;
    loop
        invariant
            split(s@, b) == views(out@) + split(rest@, b),
        decreases rest@.len(),
    {
        proof {
            lemma_find(rest@, b);
        }
        match position(rest, b) {
            Some(i) => {
                let head = up_to(rest, i);
                let ghost before = out@;
                out.push(head);
                proof {
                    assert(views(out@) =~= views(before).push(head@));
                    assert(split(rest@, b) == seq![head@] + split(rest@.skip(i + 1), b));
                    assert(split(s@, b) =~= views(out@) + split(rest@.skip(i + 1), b));
                }
                rest = from_index(rest, i + 1);
            },
            None => {
                let ghost before = out@;
                out.push(rest);
                assert(views(out@) =~= views(before) + seq![rest@]);
                return out;
            },
        }
    }
}

/// What stands before the first `b` and what after it.
pub open spec fn cut(s: Seq<u8>, b: u8) -> Option<(Seq<u8>, Seq<u8>)> {
    match find(s, b) {
        Some(i) => Some((s.take(i), s.skip(i + 1))),
        None => None,
    }
}

/// Where the first `b` is, given what stands before it.
pub proof fn lemma_cut(head: Seq<u8>, b: u8, tail: Seq<u8>)
    requires
        !head.contains(b),
    ensures
        cut(head.push(b) + tail, b) == Some((head, tail)),
{
    let s = head.push(b) + tail;
    assert forall|j: int| 0 <= j < head.len() implies s[j] != b by {
        assert(head[j] == s[j]);
    }
    lemma_find_at(s, b, head.len() as int);
    assert(s.take(head.len() as int) =~= head);
    assert(s.skip(head.len() as int + 1) =~= tail);
}

/// The parts of a cut are shorter than the whole.
pub proof fn lemma_cut_len(s: Seq<u8>, b: u8)
    ensures
        cut(s, b) matches Some((head, tail)) ==> head.len() + tail.len() + 1 == s.len()
            && !head.contains(b) && s == head.push(b) + tail,
{
    lemma_find(s, b);
    if let Some(i) = find(s, b) {
        assert(s =~= s.take(i).push(b) + s.skip(i + 1));
    }
}

pub fn cut_at<'a>(s: &'a [u8], b: u8) -> (r: Option<(&'a [u8], &'a [u8])>)
    ensures
        match r {
            Some((head, tail)) => cut(s@, b) == Some((head@, tail@)) && tail@.len() < s@.len(),
            None => cut(s@, b) is None,
        },
{
    match position(s, b) {
        Some(i) => Some((up_to(s, i), from_index(s, i + 1))),
        None => None,
    }
}

// --- decimal numbers -----------------------------------------------------------

/// Where `p` first stands in `s`, from position `i` on.
pub open spec fn text_at(s: Seq<u8>, p: Seq<u8>, i: int) -> Option<int>
    decreases s.len() - i,
{
    if i >= s.len() || i + p.len() > s.len() {
        None
    } else if s.subrange(i, i + p.len()) == p {
        Some(i)
    } else {
        text_at(s, p, i + 1)
    }
}

pub proof fn lemma_text_at(s: Seq<u8>, p: Seq<u8>, i: int)
    ensures
        text_at(s, p, i) matches Some(k) ==> i <= k && k + p.len() <= s.len(),
    decreases s.len() - i,
{
    if i < s.len() && i + p.len() <= s.len() {
        lemma_text_at(s, p, i + 1);
    }
}

/// Where `p` first stands in `s`.
pub fn first_text(s: &[u8], p: &[u8]) -> (r: Option<usize>)
    requires
        p@.len() > 0,
    ensures
        match r {
            Some(i) => text_at(s@, p@, 0) == Some(i as int) && i + p@.len() <= s@.len()
                <= usize::MAX,
            None => text_at(s@, p@, 0) is None,
        },
{
    let mut i: usize = 0;
    while i < s.len() && p.len() <= s.len() - i
        invariant
            i <= s@.len(),
            p@.len() > 0,
            text_at(s@, p@, 0) == text_at(s@, p@, i as int),
        decreases s.len() - i,
    {
        if same(&s[i..i + p.len()], p) {
            return Some(i);
        }
        i += 1;
    }
    None
}

/// A number in decimal digits, without leading zeros.
pub open spec fn decimal(n: nat) -> Seq<u8>
    decreases n,
{
    if n < 10 {
        seq![(48 + n) as u8]
    } else {
        decimal(n / 10).push((48 + n % 10) as u8)
    }
}

pub open spec fn is_digit(b: u8) -> bool {
    48 <= b <= 57
}

pub open spec fn all_digits(s: Seq<u8>) -> bool {
    forall|i: int| 0 <= i < s.len() ==> is_digit(#[trigger] s[i])
}

/// The number that decimal digits stand for.
pub open spec fn decimal_value(s: Seq<u8>) -> nat
    decreases s.len(),
{
    if s.len() == 0 {
        0
    } else {
        (10 * decimal_value(s.drop_last()) + (s.last() - 48)) as nat
    }
}

/// The digits of a number stand for it.
pub proof fn lemma_decimal(n: nat)
    ensures
        decimal_value(decimal(n)) == n,
        all_digits(decimal(n)),
        decimal(n).len() > 0,
    decreases n,
{
    let s = decimal(n);
    if n < 10 {
        assert(s.drop_last() =~= Seq::<u8>::empty());
        assert(decimal_value(s.drop_last()) == 0);
    } else {
        lemma_decimal(n / 10);
        assert(s.drop_last() =~= decimal(n / 10));
        assert forall|i: int| 0 <= i < s.len() implies is_digit(#[trigger] s[i]) by {
            if i < s.len() - 1 {
                assert(s[i] == decimal(n / 10)[i]);
            }
        }
    }
}

/// A longer run of digits stands for no smaller number.
pub proof fn lemma_decimal_value_mono(s: Seq<u8>, i: int)
    requires
        all_digits(s),
        0 <= i <= s.len(),
    ensures
        decimal_value(s.take(i)) <= decimal_value(s),
    decreases s.len(),
{
    if i < s.len() {
        assert(all_digits(s.drop_last()));
        lemma_decimal_value_mono(s.drop_last(), i);
        assert(s.drop_last().take(i) =~= s.take(i));
        assert(is_digit(s[s.len() - 1]));
    } else {
        assert(s.take(i) =~= s);
    }
}

pub fn push_decimal(out: &mut Vec<u8>, value: u64)
    ensures
        final(out)@ == old(out)@ + decimal(value as nat),
    decreases value,
{
    if value >= 10 {
        push_decimal(out, value / 10);
    }
    out.push(48 + (value % 10) as u8);
    assert(out@ =~= old(out)@ + decimal(value as nat));
}

} // verus!
