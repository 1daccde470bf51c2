//! SHA-1 (RFC 3174).
//!
//! Object ids and pack checksums are SHA-1 digests. The hash takes its input in pieces and keeps
//! no more than one block of it. Collisions are known; here a digest only names things.

use vstd::prelude::*;

use crate::bytes::views;
use crate::oid::Oid;

verus! {

// --- the digest of a message ---------------------------------------------------------

/// The five words of the hash state.
pub type State = (u32, u32, u32, u32, u32);

/// The bits of `x` moved `n` places to the left in a circle.
pub open spec fn rotated(x: u32, n: u32) -> u32 {
    (x << n) | (x >> (32 - n) as u32)
}

/// Addition modulo two to the 32.
pub open spec fn sum(a: u32, b: u32) -> u32 {
    ((a + b) % 0x1_0000_0000) as u32
}

/// The `i`-th word of a block.
pub open spec fn block_word(block: Seq<u8>, i: int) -> u32 {
    (block[4 * i] * 0x100_0000 + block[4 * i + 1] * 0x1_0000 + block[4 * i + 2] * 0x100 + block[4 * i
        + 3]) as u32
}

/// The `t`-th word of the message schedule.
pub open spec fn schedule(block: Seq<u8>, t: nat) -> u32
    decreases t,
{
    if t < 16 {
        block_word(block, t as int)
    } else {
        rotated(
            schedule(block, (t - 3) as nat) ^ schedule(block, (t - 8) as nat) ^ schedule(
                block,
                (t - 14) as nat,
            ) ^ schedule(block, (t - 16) as nat),
            1,
        )
    }
}

/// The function of round `t`.
pub open spec fn mixed(t: nat, b: u32, c: u32, d: u32) -> u32 {
    if t < 20 {
        (b & c) | (!b & d)
    } else if t < 40 {
        b ^ c ^ d
    } else if t < 60 {
        (b & c) | (b & d) | (c & d)
    } else {
        b ^ c ^ d
    }
}

/// The constant of round `t`.
pub open spec fn constant(t: nat) -> u32 {
    if t < 20 {
        0x5a82_7999
    } else if t < 40 {
        0x6ed9_eba1
    } else if t < 60 {
        0x8f1b_bcdc
    } else {
        0xca62_c1d6
    }
}

/// Round `t` with the schedule word `w`.
pub open spec fn round(s: State, t: nat, w: u32) -> State {
    let (a, b, c, d, e) = s;
    (sum(sum(sum(sum(rotated(a, 5), mixed(t, b, c, d)), e), constant(t)), w), a, rotated(b, 30), c, d)
}

/// The first `t` rounds over a block.
pub open spec fn rounds(s: State, block: Seq<u8>, t: nat) -> State
    decreases t,
{
    if t == 0 {
        s
    } else {
        round(rounds(s, block, (t - 1) as nat), (t - 1) as nat, schedule(block, (t - 1) as nat))
    }
}

/// The state after one more block.
#[verifier::opaque]
pub open spec fn compressed(s: State, block: Seq<u8>) -> State {
    let r = rounds(s, block, 80);
    (sum(s.0, r.0), sum(s.1, r.1), sum(s.2, r.2), sum(s.3, r.3), sum(s.4, r.4))
}

/// The state after the first `n` blocks of a message.
pub open spec fn after_blocks(message: Seq<u8>, n: nat) -> State
    decreases n,
{
    if n == 0 {
        (0x6745_2301, 0xefcd_ab89, 0x98ba_dcfe, 0x1032_5476, 0xc3d2_e1f0)
    } else {
        compressed(
            after_blocks(message, (n - 1) as nat),
            message.subrange(64 * (n - 1), 64 * n as int),
        )
    }
}

/// The four bytes of a word, most significant first.
pub open spec fn word_bytes(x: u32) -> Seq<u8> {
    seq![
        (x / 0x100_0000) as u8,
        (x / 0x1_0000 % 0x100) as u8,
        (x / 0x100 % 0x100) as u8,
        (x % 0x100) as u8,
    ]
}

/// The message as it is hashed: a one bit, zeros up to eight bytes before the end of a block, and
/// the length in bits modulo two to the 64.
pub open spec fn padded(message: Seq<u8>) -> Seq<u8> {
    let bits = (8 * message.len()) % 0x1_0000_0000_0000_0000;
    message + seq![0x80u8] + Seq::new(((119 - message.len() % 64) % 64) as nat, |i: int| 0u8)
        + word_bytes((bits / 0x1_0000_0000) as u32) + word_bytes((bits % 0x1_0000_0000) as u32)
}

/// The digest of a message.
#[verifier::opaque]
pub open spec fn sha1(message: Seq<u8>) -> Seq<u8> {
    let whole = padded(message);
    let (a, b, c, d, e) = after_blocks(whole, whole.len() / 64);
    word_bytes(a) + word_bytes(b) + word_bytes(c) + word_bytes(d) + word_bytes(e)
}

/// A digest has twenty bytes.
pub proof fn lemma_digest_len(message: Seq<u8>)
    ensures
        sha1(message).len() == 20,
{
    reveal(sha1);
}

/// Blocks that are complete do not depend on what follows.
proof fn lemma_blocks_prefix(a: Seq<u8>, b: Seq<u8>, n: nat)
    requires
        64 * n <= a.len(),
        64 * n <= b.len(),
        a.take(64 * n as int) == b.take(64 * n as int),
    ensures
        after_blocks(a, n) == after_blocks(b, n),
    decreases n,
{
    if n > 0 {
        let m = (n - 1) as nat;
        let (x, y) = (a.take(64 * n as int), b.take(64 * n as int));
        assert forall|i: int| 0 <= i < 64 * n implies a[i] == b[i] by {
            assert(x[i] == a[i] && y[i] == b[i]);
        }
        assert(a.take(64 * m as int) =~= b.take(64 * m as int));
        lemma_blocks_prefix(a, b, m);
        assert(a.subrange(64 * (n - 1), 64 * n as int) =~= b.subrange(64 * (n - 1), 64 * n as int));
    }
}

// --- computing it ----------------------------------------------------------------------

fn rotate(x: u32, n: u32) -> (r: u32)
    requires
        0 < n < 32,
    ensures
        r == rotated(x, n),
{
    (x << n) | (x >> (32 - n))
}

fn plus(a: u32, b: u32) -> (r: u32)
    ensures
        r == sum(a, b),
{
    ((a as u64 + b as u64) % 0x1_0000_0000) as u32
}

fn put_word(out: &mut [u8; 20], at: usize, x: u32)
    requires
        at + 4 <= 20,
    ensures
        forall|i: int|
            0 <= i < 20 ==> #[trigger] final(out)@[i] == (if at <= i < at + 4 {
                word_bytes(x)[i - at]
            } else {
                old(out)@[i]
            }),
{
    out[at] = (x / 0x100_0000) as u8;
    out[at + 1] = (x / 0x1_0000 % 0x100) as u8;
    out[at + 2] = (x / 0x100 % 0x100) as u8;
    out[at + 3] = (x % 0x100) as u8;
}

fn compress(state: State, block: &[u8; 64]) -> (r: State)
    ensures
        r == compressed(state, block@),
{
    proof {
        reveal(compressed);
    }
    let mut w: [u32; 80] = [0u32; 80];
    let mut i: usize = 0;
    while i < 16
        invariant
            i <= 16,
            forall|k: int| 0 <= k < i ==> #[trigger] w@[k] == schedule(block@, k as nat),
        decreases 16 - i,
    {
        w[i] = block[4 * i] as u32 * 0x100_0000 + block[4 * i + 1] as u32 * 0x1_0000 + block[4 * i
            + 2] as u32 * 0x100 + block[4 * i + 3] as u32;
        i += 1;
    }
    while i < 80
        invariant
            16 <= i <= 80,
            forall|k: int| 0 <= k < i ==> #[trigger] w@[k] == schedule(block@, k as nat),
        decreases 80 - i,
    {
        w[i] = rotate(w[i - 3] ^ w[i - 8] ^ w[i - 14] ^ w[i - 16], 1);
        i += 1;
    }
    let (mut a, mut b, mut c, mut d, mut e) = state;
    let mut t: usize = 0;
    while t < 80
        invariant
            t <= 80,
            forall|k: int| 0 <= k < 80 ==> #[trigger] w@[k] == schedule(block@, k as nat),
            (a, b, c, d, e) == rounds(state, block@, t as nat),
        decreases 80 - t,
    {
        let (f, k): (u32, u32) = if t < 20 {
            ((b & c) | (!b & d), 0x5a82_7999)
        } else if t < 40 {
            (b ^ c ^ d, 0x6ed9_eba1)
        } else if t < 60 {
            ((b & c) | (b & d) | (c & d), 0x8f1b_bcdc)
        } else {
            (b ^ c ^ d, 0xca62_c1d6)
        };
        let next = plus(plus(plus(plus(rotate(a, 5), f), e), k), w[t]);
        e = d;
        d = c;
        c = rotate(b, 30);
        b = a;
        a = next;
        t += 1;
    }
    (plus(state.0, a), plus(state.1, b), plus(state.2, c), plus(state.3, d), plus(state.4, e))
}

/// A SHA-1 digest of input that comes in pieces.
pub struct Sha1 {
    state: State,
    /// How many bytes came in, modulo two to the 64.
    len: u64,
    buf: [u8; 64],
    buf_len: usize,
    taken: Ghost<Seq<u8>>,
}

impl Default for Sha1 {
    fn default() -> (r: Self)
        ensures
            r.wf(),
            r.message() == Seq::<u8>::empty(),
    {
        Self::new()
    }
}

impl Sha1 {
    /// All bytes that came in so far.
    pub closed spec fn message(&self) -> Seq<u8> {
        self.taken@
    }

    pub closed spec fn wf(&self) -> bool {
        let m = self.taken@;
        &&& self.buf_len == m.len() % 64
        &&& self.len == m.len() % 0x1_0000_0000_0000_0000
        &&& self.state == after_blocks(m, m.len() / 64)
        &&& forall|i: int| 0 <= i < self.buf_len ==> #[trigger] self.buf@[i] == m[m.len() - self.buf_len + i]
    }

    pub fn new() -> (r: Self)
        ensures
            r.wf(),
            r.message() == Seq::<u8>::empty(),
    {
        Sha1 {
            state: (0x6745_2301, 0xefcd_ab89, 0x98ba_dcfe, 0x1032_5476, 0xc3d2_e1f0),
            len: 0,
            buf: [0u8; 64],
            buf_len: 0,
            taken: Ghost(Seq::empty()),
        }
    }

    fn push(&mut self, byte: u8)
        requires
            old(self).wf(),
        ensures
            final(self).wf(),
            final(self).message() == old(self).message().push(byte),
    {
        let ghost m = self.taken@;
        let ghost next = m.push(byte);
        let ghost n = m.len() / 64;
        proof {
            assert(m.take(64 * n as int) =~= next.take(64 * n as int));
            lemma_blocks_prefix(m, next, n);
        }
        self.taken = Ghost(next);
        self.len = self.len.wrapping_add(1);
        self.buf[self.buf_len] = byte;
        self.buf_len += 1;
        if self.buf_len == 64 {
            assert(self.buf@ =~= next.subrange(64 * n as int, 64 * n as int + 64));
            self.state = compress(self.state, &self.buf);
            self.buf_len = 0;
            assert(next.len() / 64 == n + 1);
        }
    }

    /// Takes in more of the message.
    pub fn update(&mut self, data: &[u8])
        requires
            old(self).wf(),
        ensures
            final(self).wf(),
            final(self).message() == old(self).message() + data@,
    {
        let mut i: usize = 0;
        assert(self.message() =~= old(self).message() + data@.take(0));
        while i < data.len()
            invariant
                i <= data.len(),
                self.wf(),
                self.message() == old(self).message() + data@.take(i as int),
            decreases data.len() - i,
        {
            self.push(data[i]);
            assert(self.message() =~= old(self).message() + data@.take(i + 1));
            i += 1;
        }
        assert(data@.take(i as int) =~= data@);
    }

    fn push_zeros(&mut self, n: usize)
        requires
            old(self).wf(),
        ensures
            final(self).wf(),
            final(self).message() == old(self).message() + Seq::new(n as nat, |i: int| 0u8),
    {
        let mut i: usize = 0;
        let ghost z = Seq::new(n as nat, |i: int| 0u8);
        assert(self.message() =~= old(self).message() + z.take(0));
        while i < n
            invariant
                i <= n,
                self.wf(),
                z == Seq::new(n as nat, |i: int| 0u8),
                self.message() == old(self).message() + z.take(i as int),
            decreases n - i,
        {
            self.push(0);
            assert(self.message() =~= old(self).message() + z.take(i + 1));
            i += 1;
        }
        assert(z.take(n as int) =~= z);
    }

    fn push_word(&mut self, x: u32)
        requires
            old(self).wf(),
        ensures
            final(self).wf(),
            final(self).message() == old(self).message() + word_bytes(x),
    {
        self.push((x / 0x100_0000) as u8);
        self.push((x / 0x1_0000 % 0x100) as u8);
        self.push((x / 0x100 % 0x100) as u8);
        self.push((x % 0x100) as u8);
        assert(self.message() =~= old(self).message() + word_bytes(x));
    }

    /// The digest of all that came in.
    pub fn finalize(self) -> (r: [u8; 20])
        requires
            self.wf(),
        ensures
            r@ == sha1(self.message()),
    {
        let mut h = self;
        let ghost m = h.message();
        let bits: u64 = h.len.wrapping_mul(8);
        let zeros: usize = (119 - h.buf_len) % 64;
        assert(bits == (8 * m.len()) % 0x1_0000_0000_0000_0000);
        h.push(0x80);
        h.push_zeros(zeros);
        h.push_word((bits / 0x1_0000_0000) as u32);
        h.push_word((bits % 0x1_0000_0000) as u32);
        proof {
            reveal(sha1);
            assert(m.push(0x80u8) =~= m + seq![0x80u8]);
            assert(h.message() == padded(m));
        }
        state_bytes(h.state)
    }
}

fn state_bytes(s: State) -> (r: [u8; 20])
    ensures
        r@ == word_bytes(s.0) + word_bytes(s.1) + word_bytes(s.2) + word_bytes(s.3) + word_bytes(s.4),
{
    let mut out: [u8; 20] = [0u8; 20];
    put_word(&mut out, 0, s.0);
    put_word(&mut out, 4, s.1);
    put_word(&mut out, 8, s.2);
    put_word(&mut out, 12, s.3);
    put_word(&mut out, 16, s.4);
    assert(out@ =~= word_bytes(s.0) + word_bytes(s.1) + word_bytes(s.2) + word_bytes(s.3) + word_bytes(
        s.4,
    ));
    out
}

/// The digest of a message that is there as a whole.
pub fn digest(data: &[u8]) -> (r: [u8; 20])
    ensures
        r@ == sha1(data@),
{
    let mut h = Sha1::new();
    h.update(data);
    assert(h.message() =~= data@);
    h.finalize()
}

/// The digest of a message in parts, as an id.
pub fn digest_oid(parts: &[&[u8]]) -> (r: Oid)
    ensures
        r@ == sha1(views(parts@).flatten()),
{
    let mut h = Sha1::new();
    let mut i: usize = 0;
    let ghost all = views(parts@);
    assert(all.take(0) =~= Seq::<Seq<u8>>::empty());
    while i < parts.len()
        invariant
            i <= parts.len(),
            all == views(parts@),
            h.wf(),
            h.message() == all.take(i as int).flatten(),
        decreases parts.len() - i,
    {
        h.update(parts[i]);
        proof {
            let next = all.take(i + 1);
            assert(next.drop_last() =~= all.take(i as int));
            assert(next.last() == parts@[i as int]@);
            next.lemma_flatten_and_flatten_alt_are_equivalent();
            all.take(i as int).lemma_flatten_and_flatten_alt_are_equivalent();
        }
        i += 1;
    }
    assert(all.take(i as int) =~= all);
    Oid::from_bytes(h.finalize())
}

} // verus!
