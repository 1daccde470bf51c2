//! Compressed streams from the side of the one who writes them.

use vstd::arithmetic::power2::{lemma2_to64, pow2};
use vstd::prelude::*;

use crate::err::Error;
use crate::zlib::adler::adler;
use crate::zlib::bits::{bit, lemma_number_byte, lemma_number_split, number, read};
use crate::zlib::deflate::{lemma_low_bits_len, low_bits};
use crate::zlib::huffman::{decode, end_code};
use crate::zlib::inflate::{
    be32, block, clen_lengths, code_lengths, dynamic, fixed_dist, fixed_lit, inflated, lemma_fixed_dist,
    lemma_fixed_lit, lengths_step, read_match, stored, typed_block, CLEN_ORDER, DIST_BASE, DIST_EXTRA,
    LEN_BASE, LEN_EXTRA,
};
use crate::zlib::roundtrip::{holds, lemma_copy_back, lemma_holds_split, lemma_read_low, outcome};

use super::codes::{fits, has_code, lemma_fits, lemma_symbol, symbol_bits};

verus! {

// --- symbols and what they spell ------------------------------------------------------------------------

/// A byte, or a copy of earlier output: the number of the length symbol with its extra bits, and the
/// distance symbol with its own.
pub enum Token {
    Literal(u8),
    Match { li: int, extra: nat, di: int, more: nat },
}

/// A number doubled `n` times.
pub open spec fn doubled(x: nat, n: nat) -> nat
    decreases n,
{
    if n == 0 {
        x
    } else {
        2 * doubled(x, (n - 1) as nat)
    }
}

/// The number of extra bits of a length symbol.
pub open spec fn len_bits(i: int) -> nat {
    if 8 <= i < 28 {
        ((i - 4) / 4) as nat
    } else {
        0
    }
}

/// The least length of a length symbol.
pub open spec fn len_base(i: int) -> nat {
    if i < 8 {
        (3 + i) as nat
    } else if i < 28 {
        3 + doubled((4 + i % 4) as nat, ((i - 4) / 4) as nat)
    } else {
        258
    }
}

/// The number of extra bits of a distance symbol.
pub open spec fn dist_bits(i: int) -> nat {
    if i >= 4 {
        ((i - 2) / 2) as nat
    } else {
        0
    }
}

/// The least distance of a distance symbol.
pub open spec fn dist_base(i: int) -> nat {
    if i < 4 {
        (1 + i) as nat
    } else {
        1 + doubled((2 + i % 2) as nat, ((i - 2) / 2) as nat)
    }
}

/// How many bytes a token stands for.
pub open spec fn token_len(t: Token) -> nat {
    match t {
        Token::Literal(_) => 1,
        Token::Match { li, extra, di, more } => len_base(li) + extra,
    }
}

/// The token stands for the text at `pos`: the byte there, or a run of bytes of which each is the one
/// at the distance before it, anywhere in the text so far.
pub open spec fn token_says(text: Seq<u8>, pos: int, t: Token) -> bool {
    &&& pos + token_len(t) <= text.len()
    &&& match t {
        Token::Literal(b) => text[pos] == b,
        Token::Match { li, extra, di, more } => {
            let dist = dist_base(di) + more;
            &&& dist <= pos
            &&& forall|k: int| pos <= k < pos + token_len(t) ==> #[trigger] text[k] == text[k - dist]
        },
    }
}

/// A token that two codes have symbols for.
pub open spec fn token_ok(lit: Seq<u8>, dist: Seq<u8>, t: Token) -> bool {
    match t {
        Token::Literal(b) => has_code(lit, b as int),
        Token::Match { li, extra, di, more } => {
            &&& 0 <= li <= 28 && has_code(lit, 257 + li) && extra < pow2(len_bits(li))
            &&& 0 <= di <= 29 && has_code(dist, di) && more < pow2(dist_bits(di))
        },
    }
}

pub open spec fn token_bits(lit: Seq<u8>, dist: Seq<u8>, t: Token) -> Seq<nat> {
    match t {
        Token::Literal(b) => symbol_bits(lit, b as int),
        Token::Match { li, extra, di, more } => symbol_bits(lit, 257 + li) + (low_bits(extra, len_bits(li)) + (
        symbol_bits(dist, di) + low_bits(more, dist_bits(di)))),
    }
}

/// The tokens one after the other, and the end of the block.
pub open spec fn tokens_bits(lit: Seq<u8>, dist: Seq<u8>, tokens: Seq<Token>) -> Seq<nat>
    decreases tokens.len(),
{
    if tokens.len() == 0 {
        symbol_bits(lit, 256)
    } else {
        token_bits(lit, dist, tokens[0]) + tokens_bits(lit, dist, tokens.skip(1))
    }
}

pub open spec fn tokens_len(tokens: Seq<Token>) -> nat
    decreases tokens.len(),
{
    if tokens.len() == 0 {
        0
    } else {
        token_len(tokens[0]) + tokens_len(tokens.skip(1))
    }
}

/// The tokens stand for the text from `pos` on, one after the other.
pub open spec fn tokens_say(lit: Seq<u8>, dist: Seq<u8>, text: Seq<u8>, pos: int, tokens: Seq<Token>) -> bool
    decreases tokens.len(),
{
    if tokens.len() == 0 {
        true
    } else {
        &&& token_ok(lit, dist, tokens[0])
        &&& token_says(text, pos, tokens[0])
        &&& tokens_say(lit, dist, text, pos + token_len(tokens[0]), tokens.skip(1))
    }
}

/// The tables of lengths and distances.
proof fn lemma_tables()
    ensures
        forall|i: int|
            0 <= i <= 28 ==> #[trigger] LEN_BASE[i] == len_base(i) && LEN_EXTRA[i] == len_bits(i),
        forall|i: int|
            0 <= i <= 29 ==> #[trigger] DIST_BASE[i] == dist_base(i) && DIST_EXTRA[i] == dist_bits(i),
{
    reveal_with_fuel(doubled, 14);
    assert forall|i: int| 0 <= i <= 28 implies #[trigger] LEN_BASE[i] == len_base(i) && LEN_EXTRA[i]
        == len_bits(i) by {
        assert(i == 0 || i == 1 || i == 2 || i == 3 || i == 4 || i == 5 || i == 6 || i == 7 || i == 8 || i == 9
            || i == 10 || i == 11 || i == 12 || i == 13 || i == 14 || i == 15 || i == 16 || i == 17 || i == 18
            || i == 19 || i == 20 || i == 21 || i == 22 || i == 23 || i == 24 || i == 25 || i == 26 || i == 27
            || i == 28);
    }
    assert forall|i: int| 0 <= i <= 29 implies #[trigger] DIST_BASE[i] == dist_base(i) && DIST_EXTRA[i]
        == dist_bits(i) by {
        assert(i == 0 || i == 1 || i == 2 || i == 3 || i == 4 || i == 5 || i == 6 || i == 7 || i == 8 || i == 9
            || i == 10 || i == 11 || i == 12 || i == 13 || i == 14 || i == 15 || i == 16 || i == 17 || i == 18
            || i == 19 || i == 20 || i == 21 || i == 22 || i == 23 || i == 24 || i == 25 || i == 26 || i == 27
            || i == 28 || i == 29);
    }
}

/// All codes of a length are within their bits.
spec fn codes_fit(lengths: Seq<u8>) -> bool {
    &&& forall|i: int| 0 <= i < lengths.len() ==> #[trigger] lengths[i] <= 15
    &&& forall|l: nat| 1 <= l <= 15 ==> #[trigger] end_code(lengths, l) <= pow2(l)
}

/// A match that was written is read.
proof fn lemma_match(data: Seq<u8>, p: int, lit: Seq<u8>, dist: Seq<u8>, t: Token)
    requires
        codes_fit(lit),
        codes_fit(dist),
        token_ok(lit, dist, t),
        t is Match,
        holds(data, p, token_bits(lit, dist, t)),
    ensures
        decode(lit, data, p) == Ok::<_, Error>((257 + t->li, p + symbol_bits(lit, 257 + t->li).len())),
        read_match(data, p + symbol_bits(lit, 257 + t->li).len(), dist, 257 + t->li) == Ok::<_, Error>(
            (token_len(t), dist_base(t->di) + t->more, p + token_bits(lit, dist, t).len()),
        ),
{
    let (li, extra, di, more) = (t->li, t->extra, t->di, t->more);
    let a = symbol_bits(lit, 257 + li);
    let b = low_bits(extra, len_bits(li));
    let c = symbol_bits(dist, di);
    let d = low_bits(more, dist_bits(di));
    lemma_tables();
    assert(LEN_BASE[li] == len_base(li));
    assert(DIST_BASE[di] == dist_base(di));
    lemma_low_bits_len(extra, len_bits(li));
    lemma_low_bits_len(more, dist_bits(di));
    lemma_holds_split(data, p, a, b + (c + d));
    lemma_holds_split(data, p + a.len(), b, c + d);
    lemma_holds_split(data, p + a.len() + b.len(), c, d);
    lemma_symbol(lit, data, p, 257 + li);
    lemma_read_low(data, p + a.len(), extra, len_bits(li));
    lemma_symbol(dist, data, p + a.len() + b.len(), di);
    lemma_read_low(data, p + a.len() + b.len() + c.len(), more, dist_bits(di));
}

/// A block of tokens adds the text that they stand for to all of the output so far.
proof fn lemma_tokens(
    data: Seq<u8>,
    p: int,
    lit: Seq<u8>,
    dist: Seq<u8>,
    text: Seq<u8>,
    pos: int,
    tokens: Seq<Token>,
)
    requires
        codes_fit(lit),
        codes_fit(dist),
        has_code(lit, 256),
        0 <= pos <= text.len(),
        tokens_say(lit, dist, text, pos, tokens),
        holds(data, p, tokens_bits(lit, dist, tokens)),
    ensures
        block(data, p, lit, dist, text.take(pos)) == Ok::<_, Error>(
            (text.take(pos + tokens_len(tokens)), p + tokens_bits(lit, dist, tokens).len()),
        ),
        pos + tokens_len(tokens) <= text.len(),
    decreases tokens.len(),
{
    if tokens.len() == 0 {
        lemma_symbol(lit, data, p, 256);
    } else {
        let t = tokens[0];
        let rest = tokens.skip(1);
        let a = token_bits(lit, dist, t);
        let b = tokens_bits(lit, dist, rest);
        let next = pos + token_len(t);
        lemma_holds_split(data, p, a, b);
        lemma_tokens(data, p + a.len(), lit, dist, text, next, rest);
        crate::zlib::huffman::lemma_decode_advances(lit, data, p, 1, 0);
        match t {
            Token::Literal(byte) => {
                lemma_symbol(lit, data, p, byte as int);
                assert(text.take(pos).push(byte) =~= text.take(next));
            },
            Token::Match { li, extra, di, more } => {
                lemma_match(data, p, lit, dist, t);
                let distance = dist_base(di) + more;
                assert(distance >= 1) by {
                    lemma_tables();
                    assert(DIST_BASE[di] == dist_base(di));
                }
                assert forall|k: int| 0 <= k < token_len(t) implies #[trigger] text[pos + k] == text[pos
                    - distance + k] by {
                    assert(text[pos + k] == text[(pos + k) - distance]);
                }
                lemma_copy_back(text, pos, distance as int, token_len(t));
                crate::zlib::inflate::lemma_read_match_advances(
                    data,
                    p + symbol_bits(lit, 257 + li).len(),
                    dist,
                    257 + li,
                );
            },
        }
    }
}

/// A copy from before the start of the output is refused.
pub proof fn copies_from_before_the_output_are_refused(
    data: Seq<u8>,
    p: int,
    lit: Seq<u8>,
    dist: Seq<u8>,
    out: Seq<u8>,
    t: Token,
)
    requires
        fits(lit),
        fits(dist),
        token_ok(lit, dist, t),
        t is Match,
        dist_base(t->di) + t->more > out.len(),
        holds(data, p, token_bits(lit, dist, t)),
    ensures
        block(data, p, lit, dist, out) is Err,
{
    lemma_fits(lit);
    lemma_fits(dist);
    lemma_match(data, p, lit, dist, t);
}

// --- the codes of a dynamic block -------------------------------------------------------------------------

/// A code length, or a run of them: the last one again, or zeros.
pub enum Item {
    Length(u8),
    Again(nat),
    Zeros(nat),
    ManyZeros(nat),
}

/// The lengths that an item stands for behind others.
pub open spec fn item_lengths(item: Item, acc: Seq<u8>) -> Seq<u8> {
    match item {
        Item::Length(l) => seq![l],
        Item::Again(n) => Seq::new(n, |i: int| acc.last()),
        Item::Zeros(n) => Seq::new(n, |i: int| 0u8),
        Item::ManyZeros(n) => Seq::new(n, |i: int| 0u8),
    }
}

pub open spec fn item_ok(clen: Seq<u8>, item: Item, acc: Seq<u8>) -> bool {
    match item {
        Item::Length(l) => l <= 15 && has_code(clen, l as int),
        Item::Again(n) => 3 <= n <= 6 && acc.len() > 0 && has_code(clen, 16),
        Item::Zeros(n) => 3 <= n <= 10 && has_code(clen, 17),
        Item::ManyZeros(n) => 11 <= n <= 138 && has_code(clen, 18),
    }
}

pub open spec fn item_bits(clen: Seq<u8>, item: Item) -> Seq<nat> {
    match item {
        Item::Length(l) => symbol_bits(clen, l as int),
        Item::Again(n) => symbol_bits(clen, 16) + low_bits((n - 3) as nat, 2),
        Item::Zeros(n) => symbol_bits(clen, 17) + low_bits((n - 3) as nat, 3),
        Item::ManyZeros(n) => symbol_bits(clen, 18) + low_bits((n - 11) as nat, 7),
    }
}

pub open spec fn items_bits(clen: Seq<u8>, items: Seq<Item>) -> Seq<nat>
    decreases items.len(),
{
    if items.len() == 0 {
        Seq::empty()
    } else {
        item_bits(clen, items[0]) + items_bits(clen, items.skip(1))
    }
}

/// The lengths that items stand for, one after the other, behind `acc`.
pub open spec fn unpacked(items: Seq<Item>, acc: Seq<u8>) -> Seq<u8>
    decreases items.len(),
{
    if items.len() == 0 {
        acc
    } else {
        unpacked(items.skip(1), acc + item_lengths(items[0], acc))
    }
}

pub open spec fn items_ok(clen: Seq<u8>, items: Seq<Item>, acc: Seq<u8>) -> bool
    decreases items.len(),
{
    items.len() == 0 || (item_ok(clen, items[0], acc) && items_ok(
        clen,
        items.skip(1),
        acc + item_lengths(items[0], acc),
    ))
}

/// The order in which the lengths of the code for code lengths are given.
pub open spec fn order() -> Seq<int> {
    seq![16int, 17, 18, 0, 8, 7, 9, 6, 10, 5, 11, 4, 12, 3, 13, 2, 14, 1, 15]
}

/// The first `n` lengths of the code for code lengths.
pub open spec fn clen_bits(clen: Seq<u8>, n: nat) -> Seq<nat>
    decreases n,
{
    if n == 0 {
        Seq::empty()
    } else {
        clen_bits(clen, (n - 1) as nat) + low_bits(clen[order()[n - 1]] as nat, 3)
    }
}

/// The codes of a dynamic block, and how they are written: the code for code lengths, how many of its
/// lengths are given, and the items that stand for the lengths of the two codes.
pub struct Codes {
    pub lit: Seq<u8>,
    pub dist: Seq<u8>,
    pub clen: Seq<u8>,
    pub given: nat,
    pub items: Seq<Item>,
}

pub open spec fn are_codes(c: Codes) -> bool {
    &&& 257 <= c.lit.len() <= 286 && 1 <= c.dist.len() <= 30
    &&& c.clen.len() == 19 && 4 <= c.given <= 19
    &&& forall|i: int| 0 <= i < 19 ==> #[trigger] c.clen[i] <= 7
    &&& forall|k: int| c.given <= k < 19 ==> c.clen[#[trigger] order()[k]] == 0
    &&& items_ok(c.clen, c.items, Seq::empty())
    &&& unpacked(c.items, Seq::empty()) == c.lit + c.dist
    &&& fits(c.lit) && fits(c.dist) && fits(c.clen)
    &&& has_code(c.lit, 256)
}

pub open spec fn codes_bits(c: Codes) -> Seq<nat> {
    low_bits((c.lit.len() - 257) as nat, 5) + (low_bits((c.dist.len() - 1) as nat, 5) + (low_bits(
        (c.given - 4) as nat,
        4,
    ) + (clen_bits(c.clen, c.given) + items_bits(c.clen, c.items))))
}

proof fn lemma_unpacked_grows(clen: Seq<u8>, items: Seq<Item>, acc: Seq<u8>)
    requires
        items_ok(clen, items, acc),
    ensures
        unpacked(items, acc).len() >= acc.len() + items.len(),
    decreases items.len(),
{
    if items.len() > 0 {
        lemma_unpacked_grows(clen, items.skip(1), acc + item_lengths(items[0], acc));
    }
}

/// The next item is read.
proof fn lemma_item(data: Seq<u8>, p: int, clen: Seq<u8>, total: int, item: Item, acc: Seq<u8>)
    requires
        codes_fit(clen),
        item_ok(clen, item, acc),
        acc.len() + item_lengths(item, acc).len() <= total,
        holds(data, p, item_bits(clen, item)),
    ensures
        lengths_step(data, p, clen, total, acc) == Ok::<_, Error>(
            (acc + item_lengths(item, acc), p + item_bits(clen, item).len()),
        ),
{
    lemma2_to64();
    match item {
        Item::Length(l) => {
            lemma_symbol(clen, data, p, l as int);
            assert(acc.push(l) =~= acc + seq![l]);
        },
        Item::Again(n) => {
            let a = symbol_bits(clen, 16);
            let b = low_bits((n - 3) as nat, 2);
            lemma_low_bits_len((n - 3) as nat, 2);
            lemma_holds_split(data, p, a, b);
            lemma_symbol(clen, data, p, 16);
            lemma_read_low(data, p + a.len(), (n - 3) as nat, 2);
            assert(acc + Seq::new(n, |i: int| acc.last()) =~= acc + item_lengths(item, acc));
        },
        Item::Zeros(n) => {
            let a = symbol_bits(clen, 17);
            let b = low_bits((n - 3) as nat, 3);
            lemma_low_bits_len((n - 3) as nat, 3);
            lemma_holds_split(data, p, a, b);
            lemma_symbol(clen, data, p, 17);
            lemma_read_low(data, p + a.len(), (n - 3) as nat, 3);
            assert(acc + Seq::new(n, |i: int| 0u8) =~= acc + item_lengths(item, acc));
        },
        Item::ManyZeros(n) => {
            let a = symbol_bits(clen, 18);
            let b = low_bits((n - 11) as nat, 7);
            lemma_low_bits_len((n - 11) as nat, 7);
            lemma_holds_split(data, p, a, b);
            lemma_symbol(clen, data, p, 18);
            lemma_read_low(data, p + a.len(), (n - 11) as nat, 7);
            assert(acc + Seq::new(n, |i: int| 0u8) =~= acc + item_lengths(item, acc));
        },
    }
}

proof fn lemma_items(data: Seq<u8>, p: int, clen: Seq<u8>, total: int, items: Seq<Item>, acc: Seq<u8>)
    requires
        codes_fit(clen),
        items_ok(clen, items, acc),
        unpacked(items, acc).len() == total,
        holds(data, p, items_bits(clen, items)),
    ensures
        code_lengths(data, p, clen, total, acc) == Ok::<_, Error>(
            (unpacked(items, acc), p + items_bits(clen, items).len()),
        ),
    decreases items.len(),
{
    if items.len() > 0 {
        let next = acc + item_lengths(items[0], acc);
        let rest = items.skip(1);
        lemma_unpacked_grows(clen, items, acc);
        lemma_unpacked_grows(clen, rest, next);
        lemma_holds_split(data, p, item_bits(clen, items[0]), items_bits(clen, rest));
        lemma_item(data, p, clen, total, items[0], acc);
        crate::zlib::huffman::lemma_decode_advances(clen, data, p, 1, 0);
        lemma_items(data, p + item_bits(clen, items[0]).len(), clen, total, rest, next);
    }
}

proof fn lemma_order()
    ensures
        order().len() == 19,
        order().no_duplicates(),
        forall|k: int| 0 <= k < 19 ==> 0 <= #[trigger] order()[k] < 19 && CLEN_ORDER[k] == order()[k],
        forall|i: int| 0 <= i < 19 ==> #[trigger] order().contains(i),
{
    let o = order();
    assert forall|k: int| 0 <= k < 19 implies 0 <= #[trigger] o[k] < 19 && CLEN_ORDER[k] == o[k] by {
        assert(k == 0 || k == 1 || k == 2 || k == 3 || k == 4 || k == 5 || k == 6 || k == 7 || k == 8 || k == 9
            || k == 10 || k == 11 || k == 12 || k == 13 || k == 14 || k == 15 || k == 16 || k == 17 || k == 18);
    }
    assert forall|i: int| 0 <= i < 19 implies #[trigger] o.contains(i) by {
        assert(o[0] == 16 && o[1] == 17 && o[2] == 18 && o[3] == 0 && o[4] == 8 && o[5] == 7 && o[6] == 9 && o[7]
            == 6 && o[8] == 10 && o[9] == 5 && o[10] == 11 && o[11] == 4 && o[12] == 12 && o[13] == 3 && o[14]
            == 13 && o[15] == 2 && o[16] == 14 && o[17] == 1 && o[18] == 15);
        assert(i == 0 || i == 1 || i == 2 || i == 3 || i == 4 || i == 5 || i == 6 || i == 7 || i == 8 || i == 9
            || i == 10 || i == 11 || i == 12 || i == 13 || i == 14 || i == 15 || i == 16 || i == 17 || i == 18);
    }
}

/// The lengths that were given are read, and the others are zero.
proof fn lemma_clen(data: Seq<u8>, p: int, clen: Seq<u8>, n: nat)
    requires
        n <= 19,
        clen.len() == 19,
        forall|i: int| 0 <= i < 19 ==> #[trigger] clen[i] <= 7,
        holds(data, p, clen_bits(clen, n)),
    ensures
        clen_bits(clen, n).len() == 3 * n,
        clen_lengths(data, p, n).len() == 19,
        forall|k: int|
            0 <= k < n ==> clen_lengths(data, p, n)[#[trigger] order()[k]] == clen[order()[k]],
        forall|k: int| n <= k < 19 ==> clen_lengths(data, p, n)[#[trigger] order()[k]] == 0,
    decreases n,
{
    lemma_order();
    if n > 0 {
        let at = order()[n - 1];
        let value = clen[at] as nat;
        let a = clen_bits(clen, (n - 1) as nat);
        let b = low_bits(value, 3);
        lemma_low_bits_len(value, 3);
        lemma_holds_split(data, p, a, b);
        lemma_clen(data, p, clen, (n - 1) as nat);
        lemma2_to64();
        lemma_read_low(data, p + a.len(), value, 3);
        assert(number(data, p + 3 * (n - 1), 3) == value);
    }
}

/// The codes of a dynamic block are read.
proof fn lemma_codes(data: Seq<u8>, p: int, c: Codes)
    requires
        are_codes(c),
        holds(data, p, codes_bits(c)),
    ensures
        dynamic(data, p) == Ok::<_, Error>((c.lit, c.dist, p + codes_bits(c).len())),
{
    lemma2_to64();
    lemma_order();
    let a = low_bits((c.lit.len() - 257) as nat, 5);
    let b = low_bits((c.dist.len() - 1) as nat, 5);
    let d = low_bits((c.given - 4) as nat, 4);
    let e = clen_bits(c.clen, c.given);
    let f = items_bits(c.clen, c.items);
    lemma_low_bits_len((c.lit.len() - 257) as nat, 5);
    lemma_low_bits_len((c.dist.len() - 1) as nat, 5);
    lemma_low_bits_len((c.given - 4) as nat, 4);
    lemma_holds_split(data, p, a, b + (d + (e + f)));
    lemma_holds_split(data, p + 5, b, d + (e + f));
    lemma_holds_split(data, p + 10, d, e + f);
    lemma_holds_split(data, p + 14, e, f);
    lemma_read_low(data, p, (c.lit.len() - 257) as nat, 5);
    lemma_read_low(data, p + 5, (c.dist.len() - 1) as nat, 5);
    lemma_read_low(data, p + 10, (c.given - 4) as nat, 4);
    lemma_clen(data, p + 14, c.clen, c.given);
    let read = clen_lengths(data, p + 14, c.given);
    assert(read =~= c.clen) by {
        assert forall|i: int| 0 <= i < 19 implies read[i] == c.clen[i] by {
            assert(order().contains(i));
            let k = choose|k: int| 0 <= k < order().len() && order()[k] == i;
            assert(read[order()[k]] == c.clen[order()[k]]);
        }
    }
    lemma_fits(c.clen);
    lemma_fits(c.lit);
    lemma_fits(c.dist);
    let total = (c.lit.len() + c.dist.len()) as int;
    lemma_items(data, p + 14 + 3 * c.given, c.clen, total, c.items, Seq::empty());
    let all = c.lit + c.dist;
    assert(all.take(c.lit.len() as int) =~= c.lit);
    assert(all.subrange(c.lit.len() as int, total) =~= c.dist);
    assert(all[256] == c.lit[256]);
}

// --- blocks -----------------------------------------------------------------------------------------------

/// A block: a number of bytes as they are, or tokens with the fixed codes or with codes of its own.
pub enum Block {
    Stored(nat),
    Fixed(Seq<Token>),
    Dynamic(Codes, Seq<Token>),
}

/// How much of the text a block stands for.
pub open spec fn block_len(b: Block) -> nat {
    match b {
        Block::Stored(n) => n,
        Block::Fixed(tokens) => tokens_len(tokens),
        Block::Dynamic(_, tokens) => tokens_len(tokens),
    }
}

/// The block stands for the text from `pos` on.
#[verifier::opaque]
pub open spec fn block_says(text: Seq<u8>, pos: int, b: Block) -> bool {
    match b {
        Block::Stored(n) => n <= 65535 && pos + n <= text.len(),
        Block::Fixed(tokens) => tokens_say(fixed_lit(), fixed_dist(), text, pos, tokens),
        Block::Dynamic(c, tokens) => are_codes(c) && tokens_say(c.lit, c.dist, text, pos, tokens),
    }
}

/// All bits of bytes.
pub open spec fn bytes_bits(bytes: Seq<u8>) -> Seq<nat>
    decreases bytes.len(),
{
    if bytes.len() == 0 {
        Seq::empty()
    } else {
        low_bits(bytes[0] as nat, 8) + bytes_bits(bytes.skip(1))
    }
}

/// The bits that fill up the byte before position `p`.
pub open spec fn padding(p: int) -> Seq<nat> {
    Seq::new((8 * ((p + 7) / 8) - p) as nat, |i: int| 0nat)
}

/// The contents of a block at position `p`, behind its head.
#[verifier::opaque]
pub open spec fn contents_bits(text: Seq<u8>, pos: int, b: Block, p: int) -> Seq<nat> {
    match b {
        Block::Stored(n) => padding(p) + (low_bits(n, 16) + (low_bits((65535 - n) as nat, 16) + bytes_bits(
            text.subrange(pos, pos + n),
        ))),
        Block::Fixed(tokens) => tokens_bits(fixed_lit(), fixed_dist(), tokens),
        Block::Dynamic(c, tokens) => codes_bits(c) + tokens_bits(c.lit, c.dist, tokens),
    }
}

/// Whether the block is the last one, and its kind.
#[verifier::opaque]
pub open spec fn head_bits(b: Block, last: bool) -> Seq<nat> {
    low_bits(
        if last {
            1
        } else {
            0
        },
        1,
    ) + low_bits(
        match b {
            Block::Stored(_) => 0,
            Block::Fixed(_) => 1,
            Block::Dynamic(_, _) => 2,
        },
        2,
    )
}

/// The blocks one after the other from position `p` on.
pub open spec fn stream_bits(text: Seq<u8>, pos: int, list: Seq<Block>, p: int) -> Seq<nat>
    decreases list.len(),
{
    if list.len() == 0 {
        Seq::empty()
    } else {
        let contents = contents_bits(text, pos, list[0], p + 3);
        head_bits(list[0], list.len() == 1) + (contents + stream_bits(
            text,
            pos + block_len(list[0]),
            list.skip(1),
            p + 3 + contents.len(),
        ))
    }
}

/// The blocks stand for the text from `pos` to its end.
pub open spec fn stream_says(text: Seq<u8>, pos: int, list: Seq<Block>) -> bool
    decreases list.len(),
{
    if list.len() == 0 {
        pos == text.len()
    } else {
        block_says(text, pos, list[0]) && stream_says(text, pos + block_len(list[0]), list.skip(1))
    }
}

proof fn lemma_bytes(data: Seq<u8>, a: int, bytes: Seq<u8>)
    requires
        0 <= a,
        holds(data, 8 * a, bytes_bits(bytes)),
    ensures
        bytes_bits(bytes).len() == 8 * bytes.len(),
        a + bytes.len() <= data.len(),
        data.subrange(a, a + bytes.len()) == bytes,
    decreases bytes.len(),
{
    if bytes.len() == 0 {
        assert(data.subrange(a, a) =~= bytes);
    } else {
        let x = bytes[0] as nat;
        let rest = bytes.skip(1);
        lemma2_to64();
        lemma_low_bits_len(x, 8);
        lemma_holds_split(data, 8 * a, low_bits(x, 8), bytes_bits(rest));
        lemma_read_low(data, 8 * a, x, 8);
        lemma_number_byte(data, a);
        assert(8 * a + 8 == 8 * (a + 1));
        lemma_bytes(data, a + 1, rest);
        assert forall|i: int| 0 <= i < bytes.len() implies data[a + i] == #[trigger] bytes[i] by {
            if i > 0 {
                assert(data.subrange(a + 1, a + 1 + rest.len())[i - 1] == rest[i - 1]);
            }
        }
        assert(data.subrange(a, a + bytes.len()) =~= bytes);
    }
}

/// A stored block is read.
proof fn lemma_stored(data: Seq<u8>, p: int, text: Seq<u8>, pos: int, n: nat)
    requires
        0 <= pos,
        0 <= p,
        block_says(text, pos, Block::Stored(n)),
        holds(data, p, contents_bits(text, pos, Block::Stored(n), p)),
    ensures
        stored(data, p, text.take(pos)) == Ok::<_, Error>(
            (text.take(pos + n), p + contents_bits(text, pos, Block::Stored(n), p).len()),
        ),
{
    reveal(contents_bits);
    reveal(block_says);
    let a = (p + 7) / 8;
    let pad = padding(p);
    let x = low_bits(n, 16);
    let y = low_bits((65535 - n) as nat, 16);
    let bytes = text.subrange(pos, pos + n);
    let z = bytes_bits(bytes);
    lemma2_to64();
    lemma_low_bits_len(n, 16);
    lemma_low_bits_len((65535 - n) as nat, 16);
    lemma_holds_split(data, p, pad, x + (y + z));
    assert(p + pad.len() == 8 * a);
    lemma_holds_split(data, 8 * a, x, y + z);
    lemma_holds_split(data, 8 * a + 16, y, z);
    lemma_read_low(data, 8 * a, n, 16);
    lemma_read_low(data, 8 * a + 16, (65535 - n) as nat, 16);
    lemma_number_split(data, 8 * a, 8, 8);
    lemma_number_split(data, 8 * a + 16, 8, 8);
    assert(a + 4 <= data.len());
    lemma_number_byte(data, a);
    assert(8 * a + 8 == 8 * (a + 1) && 8 * a + 16 == 8 * (a + 2) && 8 * a + 24 == 8 * (a + 3) && 8 * a + 32 == 8
        * (a + 4));
    lemma_number_byte(data, a + 1);
    lemma_number_byte(data, a + 2);
    lemma_number_byte(data, a + 3);
    lemma_bytes(data, a + 4, bytes);
    assert(data[a] + 256 * data[a + 1] == n);
    assert(data[a + 2] + 256 * data[a + 3] == 65535 - n);
    assert(text.take(pos) + bytes =~= text.take(pos + n));
    assert(data.subrange(a + 4, a + 4 + n) == bytes);
}

/// A block is read: it adds its part of the text to all of the output so far.
proof fn lemma_block(data: Seq<u8>, p: int, text: Seq<u8>, pos: int, b: Block)
    requires
        0 <= pos <= text.len(),
        0 <= p,
        block_says(text, pos, b),
        holds(data, p, contents_bits(text, pos, b, p)),
    ensures
        ({
            let kind: nat = match b {
                Block::Stored(_) => 0,
                Block::Fixed(_) => 1,
                Block::Dynamic(_, _) => 2,
            };
            typed_block(data, p, kind, text.take(pos)) == Ok::<_, Error>(
                (text.take(pos + block_len(b)), p + contents_bits(text, pos, b, p).len()),
            )
        }),
        pos + block_len(b) <= text.len(),
{
    reveal(contents_bits);
    reveal(block_says);
    match b {
        Block::Stored(n) => {
            lemma_stored(data, p, text, pos, n);
        },
        Block::Fixed(tokens) => {
            lemma_fixed_lit();
            lemma_fixed_dist();
            lemma_tokens(data, p, fixed_lit(), fixed_dist(), text, pos, tokens);
        },
        Block::Dynamic(c, tokens) => {
            lemma_holds_split(data, p, codes_bits(c), tokens_bits(c.lit, c.dist, tokens));
            lemma_codes(data, p, c);
            lemma_fits(c.lit);
            lemma_fits(c.dist);
            lemma_tokens(data, p + codes_bits(c).len(), c.lit, c.dist, text, pos, tokens);
        },
    }
}

/// The head of a block is read, and what follows goes on from its end.
proof fn lemma_head(
    data: Seq<u8>,
    p: int,
    out: Seq<u8>,
    b: Block,
    last: bool,
    next: Seq<u8>,
    q: int,
)
    requires
        0 <= p,
        holds(data, p, head_bits(b, last)),
        typed_block(
            data,
            p + 3,
            match b {
                Block::Stored(_) => 0,
                Block::Fixed(_) => 1,
                Block::Dynamic(_, _) => 2,
            },
            out,
        ) == Ok::<_, Error>((next, q)),
    ensures
        head_bits(b, last).len() == 3,
        outcome(data, p, out) == if last {
            Ok::<_, Error>((next, q))
        } else {
            outcome(data, q, next)
        },
{
    reveal(outcome);
    reveal(head_bits);
    let kind: nat = match b {
        Block::Stored(_) => 0,
        Block::Fixed(_) => 1,
        Block::Dynamic(_, _) => 2,
    };
    let flag: nat = if last {
        1
    } else {
        0
    };
    lemma2_to64();
    lemma_low_bits_len(flag, 1);
    lemma_low_bits_len(kind, 2);
    lemma_holds_split(data, p, low_bits(flag, 1), low_bits(kind, 2));
    lemma_read_low(data, p, flag, 1);
    lemma_read_low(data, p + 1, kind, 2);
    crate::zlib::inflate::lemma_typed_block_advances(data, p + 3, kind, out);
}

proof fn lemma_head_len(b: Block, last: bool)
    ensures
        head_bits(b, last).len() == 3,
{
    reveal(head_bits);
    lemma_low_bits_len(
        if last {
            1
        } else {
            0
        },
        1,
    );
    lemma_low_bits_len(
        match b {
            Block::Stored(_) => 0,
            Block::Fixed(_) => 1,
            Block::Dynamic(_, _) => 2,
        },
        2,
    );
}

proof fn lemma_blocks(data: Seq<u8>, p: int, text: Seq<u8>, pos: int, list: Seq<Block>)
    requires
        0 <= pos <= text.len(),
        0 <= p,
        list.len() > 0,
        stream_says(text, pos, list),
        holds(data, p, stream_bits(text, pos, list, p)),
    ensures
        outcome(data, p, text.take(pos)) == Ok::<_, Error>(
            (text, p + stream_bits(text, pos, list, p).len()),
        ),
    decreases list.len(),
{
    let b = list[0];
    let last = list.len() == 1;
    let contents = contents_bits(text, pos, b, p + 3);
    let next = pos + block_len(b);
    let rest = list.skip(1);
    let q = p + 3 + contents.len();
    let after = stream_bits(text, next, rest, q);
    lemma_head_len(b, last);
    lemma_holds_split(data, p, head_bits(b, last), contents + after);
    lemma_holds_split(data, p + 3, contents, after);
    lemma_block(data, p + 3, text, pos, b);
    lemma_head(data, p, text.take(pos), b, last, text.take(next), q);
    if last {
        assert(stream_says(text, next, rest));
        assert(next == text.len());
        assert(text.take(next) =~= text);
        assert(after.len() == 0);
    } else {
        lemma_blocks(data, q, text, next, rest);
    }
}

/// A zlib stream is decompressed to the text that its blocks stand for, however the text is split
/// into blocks and tokens and whichever codes the blocks use. A copy reaches back into all of the text
/// before it, whatever blocks that came in. `body` is the bits of the blocks, filled up to whole bytes
/// in any way.
pub proof fn streams_give_the_text_of_their_blocks(
    text: Seq<u8>,
    list: Seq<Block>,
    cmf: u8,
    flg: u8,
    body: Seq<u8>,
    tail: Seq<u8>,
)
    requires
        list.len() > 0,
        stream_says(text, 0, list),
        cmf % 16 == 8,
        (cmf * 256 + flg) % 31 == 0,
        (flg / 32) % 2 == 0,
        holds(body, 0, stream_bits(text, 0, list, 0)),
        body.len() == (stream_bits(text, 0, list, 0).len() + 7) / 8,
    ensures
        inflated(seq![cmf, flg] + body + be32(adler(text)) + tail) == Ok::<_, Error>(
            (text, body.len() as int + 6),
        ),
{
    reveal(inflated);
    let bits = stream_bits(text, 0, list, 0);
    let sum = be32(adler(text));
    let data = body + sum + tail;
    let input = seq![cmf, flg] + body + sum + tail;
    assert(input[0] == cmf && input[1] == flg);
    assert(input.skip(2) =~= data);
    assert(holds(data, 0, bits)) by {
        assert forall|i: int| 0 <= i < bits.len() implies bit(data, 0 + i) == #[trigger] bits[i] by {
            assert(bit(body, 0 + i) == bits[i]);
            assert(data[i / 8] == body[i / 8]);
        }
    }
    lemma_blocks(data, 0, text, 0, list);
    reveal(outcome);
    assert(text.take(0) =~= Seq::<u8>::empty());
    let end = 2 + body.len() as int;
    assert(input.subrange(end, end + 4) =~= sum);
}

} // verus!
