//! Digests: the 256-bit hash that content-addresses trie nodes.
//!
//! The digest is SHA-256 (FIPS 180-4), with the message length taken modulo
//! 2^64 bits so that it is defined for every byte sequence.

use vstd::prelude::*;

verus! {

/// A 256-bit digest, held as eight big-endian 32-bit words.
#[derive(Clone, Copy, Debug, PartialEq, Eq, Structural)]
pub struct Digest {
    pub w0: u32,
    pub w1: u32,
    pub w2: u32,
    pub w3: u32,
    pub w4: u32,
    pub w5: u32,
    pub w6: u32,
    pub w7: u32,
}

/// The sentinel that denotes "no node".
pub open spec fn null_hash() -> Digest {
    Digest { w0: 0, w1: 0, w2: 0, w3: 0, w4: 0, w5: 0, w6: 0, w7: 0 }
}

/// The round constants.
pub const K: [u32; 64] = [
    0x428a2f98, 0x71374491, 0xb5c0fbcf, 0xe9b5dba5, 0x3956c25b, 0x59f111f1, 0x923f82a4, 0xab1c5ed5,
    0xd807aa98, 0x12835b01, 0x243185be, 0x550c7dc3, 0x72be5d74, 0x80deb1fe, 0x9bdc06a7, 0xc19bf174,
    0xe49b69c1, 0xefbe4786, 0x0fc19dc6, 0x240ca1cc, 0x2de92c6f, 0x4a7484aa, 0x5cb0a9dc, 0x76f988da,
    0x983e5152, 0xa831c66d, 0xb00327c8, 0xbf597fc7, 0xc6e00bf3, 0xd5a79147, 0x06ca6351, 0x14292967,
    0x27b70a85, 0x2e1b2138, 0x4d2c6dfc, 0x53380d13, 0x650a7354, 0x766a0abb, 0x81c2c92e, 0x92722c85,
    0xa2bfe8a1, 0xa81a664b, 0xc24b8b70, 0xc76c51a3, 0xd192e819, 0xd6990624, 0xf40e3585, 0x106aa070,
    0x19a4c116, 0x1e376c08, 0x2748774c, 0x34b0bcb5, 0x391c0cb3, 0x4ed8aa4a, 0x5b9cca4f, 0x682e6ff3,
    0x748f82ee, 0x78a5636f, 0x84c87814, 0x8cc70208, 0x90befffa, 0xa4506ceb, 0xbef9a3f7, 0xc67178f2,
];

/// The initial chaining value.
pub open spec fn initial() -> Digest {
    Digest {
        w0: 0x6a09e667,
        w1: 0xbb67ae85,
        w2: 0x3c6ef372,
        w3: 0xa54ff53a,
        w4: 0x510e527f,
        w5: 0x9b05688c,
        w6: 0x1f83d9ab,
        w7: 0x5be0cd19,
    }
}

/// `x` rotated right by `n` bits.
pub open spec fn rotr(x: u32, n: u32) -> u32 {
    (x >> n) | (x << ((32 - n) as u32))
}

pub open spec fn ch(x: u32, y: u32, z: u32) -> u32 {
    (x & y) ^ (!x & z)
}

pub open spec fn maj(x: u32, y: u32, z: u32) -> u32 {
    (x & y) ^ (x & z) ^ (y & z)
}

pub open spec fn big_sigma0(x: u32) -> u32 {
    rotr(x, 2) ^ rotr(x, 13) ^ rotr(x, 22)
}

pub open spec fn big_sigma1(x: u32) -> u32 {
    rotr(x, 6) ^ rotr(x, 11) ^ rotr(x, 25)
}

pub open spec fn small_sigma0(x: u32) -> u32 {
    rotr(x, 7) ^ rotr(x, 18) ^ (x >> 3u32)
}

pub open spec fn small_sigma1(x: u32) -> u32 {
    rotr(x, 17) ^ rotr(x, 19) ^ (x >> 10u32)
}

/// The big-endian word made of four bytes.
pub open spec fn word_of(b0: u8, b1: u8, b2: u8, b3: u8) -> u32 {
    ((b0 as u32) << 24u32) | ((b1 as u32) << 16u32) | ((b2 as u32) << 8u32) | (b3 as u32)
}

/// The byte of `w` that starts `shift` bits above its lowest bit.
pub open spec fn byte_of(w: u32, shift: u32) -> u8 {
    ((w >> shift) & 0xff) as u8
}

/// The four bytes of a word, most significant first.
pub open spec fn word_bytes(w: u32) -> Seq<u8> {
    seq![byte_of(w, 24), byte_of(w, 16), byte_of(w, 8), byte_of(w, 0)]
}

/// Word `t` of the message schedule of a 64-byte block.
pub open spec fn schedule(block: Seq<u8>, t: int) -> u32
    decreases t,
{
    if t < 0 {
        0
    } else if t < 16 {
        word_of(block[4 * t], block[4 * t + 1], block[4 * t + 2], block[4 * t + 3])
    } else {
        small_sigma1(schedule(block, t - 2)).wrapping_add(schedule(block, t - 7)).wrapping_add(
            small_sigma0(schedule(block, t - 15)),
        ).wrapping_add(schedule(block, t - 16))
    }
}

/// One round of the compression function on the working variables `s`.
pub open spec fn round(s: Digest, k: u32, w: u32) -> Digest {
    let t1 = s.w7.wrapping_add(big_sigma1(s.w4)).wrapping_add(ch(s.w4, s.w5, s.w6)).wrapping_add(
        k,
    ).wrapping_add(w);
    let t2 = big_sigma0(s.w0).wrapping_add(maj(s.w0, s.w1, s.w2));
    Digest {
        w0: t1.wrapping_add(t2),
        w1: s.w0,
        w2: s.w1,
        w3: s.w2,
        w4: s.w3.wrapping_add(t1),
        w5: s.w4,
        w6: s.w5,
        w7: s.w6,
    }
}

/// The working variables after the first `t` rounds on a block.
pub open spec fn rounds(h: Digest, block: Seq<u8>, t: int) -> Digest
    decreases t,
{
    if t <= 0 {
        h
    } else {
        round(rounds(h, block, t - 1), K[t - 1], schedule(block, t - 1))
    }
}

/// The chaining value after one 64-byte block.
pub open spec fn compress(h: Digest, block: Seq<u8>) -> Digest {
    let s = rounds(h, block, 64);
    Digest {
        w0: h.w0.wrapping_add(s.w0),
        w1: h.w1.wrapping_add(s.w1),
        w2: h.w2.wrapping_add(s.w2),
        w3: h.w3.wrapping_add(s.w3),
        w4: h.w4.wrapping_add(s.w4),
        w5: h.w5.wrapping_add(s.w5),
        w6: h.w6.wrapping_add(s.w6),
        w7: h.w7.wrapping_add(s.w7),
    }
}

/// The chaining value after every whole 64-byte block of `data`, in order.
pub open spec fn absorb(h: Digest, data: Seq<u8>) -> Digest
    decreases data.len(),
{
    if data.len() < 64 {
        h
    } else {
        absorb(compress(h, data.subrange(0, 64)), data.skip(64))
    }
}

/// How many zero bytes the padding of a message of `len` bytes holds.
pub open spec fn zero_count(len: nat) -> nat {
    ((119 - (len % 64)) % 64) as nat
}

/// The message length in bits, modulo 2^64.
pub open spec fn bit_length(len: nat) -> u64 {
    (len as u64).wrapping_mul(8)
}

/// The eight bytes of a length, most significant first.
pub open spec fn length_bytes(bits: u64) -> Seq<u8> {
    word_bytes((bits >> 32u64) as u32) + word_bytes((bits & 0xffff_ffff) as u32)
}

/// What is appended to a message of `len` bytes to fill its last block.
pub open spec fn padding(len: nat) -> Seq<u8> {
    seq![0x80u8] + Seq::new(zero_count(len), |i: int| 0u8) + length_bytes(bit_length(len))
}

/// The digest of a byte sequence.
pub closed spec fn sha256(data: Seq<u8>) -> Digest {
    absorb(initial(), data + padding(data.len()))
}

impl Digest {
    /// The 32 bytes of the digest, most significant byte of the first word first.
    pub open spec fn bytes(self) -> Seq<u8> {
        word_bytes(self.w0) + word_bytes(self.w1) + word_bytes(self.w2) + word_bytes(self.w3)
            + word_bytes(self.w4) + word_bytes(self.w5) + word_bytes(self.w6) + word_bytes(self.w7)
    }

    /// The sentinel for "no node".
    pub fn null() -> (r: Digest)
        ensures
            r == null_hash(),
    {
        Digest { w0: 0, w1: 0, w2: 0, w3: 0, w4: 0, w5: 0, w6: 0, w7: 0 }
    }

    /// Whether this is the sentinel for "no node".
    pub fn is_null(&self) -> (r: bool)
        ensures
            r == (*self == null_hash()),
    {
        self.w0 == 0 && self.w1 == 0 && self.w2 == 0 && self.w3 == 0 && self.w4 == 0 && self.w5
            == 0 && self.w6 == 0 && self.w7 == 0
    }

    /// Appends the 32 bytes of the digest to `buf`.
    pub fn append_to(&self, buf: &mut Vec<u8>)
        ensures
            final(buf)@ == old(buf)@ + self.bytes(),
    {
        let ghost before = buf@;
        push_word(buf, self.w0);
        push_word(buf, self.w1);
        push_word(buf, self.w2);
        push_word(buf, self.w3);
        push_word(buf, self.w4);
        push_word(buf, self.w5);
        push_word(buf, self.w6);
        push_word(buf, self.w7);
        assert(buf@ =~= before + self.bytes());
    }
}

/// A word is determined by its four bytes.
pub proof fn lemma_word_bytes_injective(a: u32, b: u32)
    requires
        word_bytes(a) == word_bytes(b),
    ensures
        a == b,
{
    let x = word_bytes(a);
    let y = word_bytes(b);
    assert(x[0] == y[0] && x[1] == y[1] && x[2] == y[2] && x[3] == y[3]);
    let a3 = (a >> 24u32) & 0xff;
    let a2 = (a >> 16u32) & 0xff;
    let a1 = (a >> 8u32) & 0xff;
    let a0 = (a >> 0u32) & 0xff;
    let b3 = (b >> 24u32) & 0xff;
    let b2 = (b >> 16u32) & 0xff;
    let b1 = (b >> 8u32) & 0xff;
    let b0 = (b >> 0u32) & 0xff;
    assert(a3 <= 0xff && a2 <= 0xff && a1 <= 0xff && a0 <= 0xff) by (bit_vector)
        requires
            a3 == (a >> 24u32) & 0xff,
            a2 == (a >> 16u32) & 0xff,
            a1 == (a >> 8u32) & 0xff,
            a0 == (a >> 0u32) & 0xff,
    ;
    assert(b3 <= 0xff && b2 <= 0xff && b1 <= 0xff && b0 <= 0xff) by (bit_vector)
        requires
            b3 == (b >> 24u32) & 0xff,
            b2 == (b >> 16u32) & 0xff,
            b1 == (b >> 8u32) & 0xff,
            b0 == (b >> 0u32) & 0xff,
    ;
    assert(a3 == b3 && a2 == b2 && a1 == b1 && a0 == b0);
    assert(a == b) by (bit_vector)
        requires
            (a >> 24u32) & 0xff == (b >> 24u32) & 0xff,
            (a >> 16u32) & 0xff == (b >> 16u32) & 0xff,
            (a >> 8u32) & 0xff == (b >> 8u32) & 0xff,
            (a >> 0u32) & 0xff == (b >> 0u32) & 0xff,
    ;
}

/// A digest is determined by its 32 bytes.
pub proof fn lemma_digest_bytes_injective(a: Digest, b: Digest)
    requires
        a.bytes() == b.bytes(),
    ensures
        a == b,
{
    let x = a.bytes();
    let y = b.bytes();
    assert(x.subrange(0, 4) =~= word_bytes(a.w0));
    assert(y.subrange(0, 4) =~= word_bytes(b.w0));
    assert(x.subrange(4, 8) =~= word_bytes(a.w1));
    assert(y.subrange(4, 8) =~= word_bytes(b.w1));
    assert(x.subrange(8, 12) =~= word_bytes(a.w2));
    assert(y.subrange(8, 12) =~= word_bytes(b.w2));
    assert(x.subrange(12, 16) =~= word_bytes(a.w3));
    assert(y.subrange(12, 16) =~= word_bytes(b.w3));
    assert(x.subrange(16, 20) =~= word_bytes(a.w4));
    assert(y.subrange(16, 20) =~= word_bytes(b.w4));
    assert(x.subrange(20, 24) =~= word_bytes(a.w5));
    assert(y.subrange(20, 24) =~= word_bytes(b.w5));
    assert(x.subrange(24, 28) =~= word_bytes(a.w6));
    assert(y.subrange(24, 28) =~= word_bytes(b.w6));
    assert(x.subrange(28, 32) =~= word_bytes(a.w7));
    assert(y.subrange(28, 32) =~= word_bytes(b.w7));
    lemma_word_bytes_injective(a.w0, b.w0);
    lemma_word_bytes_injective(a.w1, b.w1);
    lemma_word_bytes_injective(a.w2, b.w2);
    lemma_word_bytes_injective(a.w3, b.w3);
    lemma_word_bytes_injective(a.w4, b.w4);
    lemma_word_bytes_injective(a.w5, b.w5);
    lemma_word_bytes_injective(a.w6, b.w6);
    lemma_word_bytes_injective(a.w7, b.w7);
}

fn rotate_right(x: u32, n: u32) -> (r: u32)
    requires
        0 < n < 32,
    ensures
        r == rotr(x, n),
{
    (x >> n) | (x << (32 - n))
}

fn low_byte(w: u32, shift: u32) -> (b: u8)
    requires
        shift < 32,
    ensures
        b == byte_of(w, shift),
{
    let v: u32 = (w >> shift) & 0xff;
    assert(v <= 0xff) by (bit_vector)
        requires
            v == (w >> shift) & 0xff,
    ;
    v as u8
}

fn push_word(buf: &mut Vec<u8>, w: u32)
    ensures
        final(buf)@ == old(buf)@ + word_bytes(w),
{
    let ghost before = buf@;
    buf.push(low_byte(w, 24));
    buf.push(low_byte(w, 16));
    buf.push(low_byte(w, 8));
    buf.push(low_byte(w, 0));
    assert(buf@ =~= before + word_bytes(w));
}

fn join_word(b0: u8, b1: u8, b2: u8, b3: u8) -> (w: u32)
    ensures
        w == word_of(b0, b1, b2, b3),
{
    ((b0 as u32) << 24) | ((b1 as u32) << 16) | ((b2 as u32) << 8) | (b3 as u32)
}

fn step(s: Digest, k: u32, w: u32) -> (r: Digest)
    ensures
        r == round(s, k, w),
{
    let e1: u32 = rotate_right(s.w4, 6) ^ rotate_right(s.w4, 11) ^ rotate_right(s.w4, 25);
    let c: u32 = (s.w4 & s.w5) ^ (!s.w4 & s.w6);
    let t1: u32 = s.w7.wrapping_add(e1).wrapping_add(c).wrapping_add(k).wrapping_add(w);
    let e0: u32 = rotate_right(s.w0, 2) ^ rotate_right(s.w0, 13) ^ rotate_right(s.w0, 22);
    let m: u32 = (s.w0 & s.w1) ^ (s.w0 & s.w2) ^ (s.w1 & s.w2);
    let t2: u32 = e0.wrapping_add(m);
    Digest {
        w0: t1.wrapping_add(t2),
        w1: s.w0,
        w2: s.w1,
        w3: s.w2,
        w4: s.w3.wrapping_add(t1),
        w5: s.w4,
        w6: s.w5,
        w7: s.w6,
    }
}

/// Runs the compression function on the 64 bytes of `data` that start at `off`.
fn compress_block(h: Digest, data: &[u8], off: usize) -> (r: Digest)
    requires
        off + 64 <= data@.len(),
    ensures
        r == compress(h, data@.subrange(off as int, off + 64)),
{
    let ghost block = data@.subrange(off as int, off + 64);
    let n: usize = data.len();
    let mut w: Vec<u32> = Vec::new();
    let mut t: usize = 0;
    while t < 16
        invariant
            t <= 16,
            w@.len() == t,
            n == data@.len(),
            off + 64 <= n,
            block == data@.subrange(off as int, off + 64),
            forall|j: int| 0 <= j < t ==> w@[j] == schedule(block, j),
        decreases 16 - t,
    {
        let x: u32 = join_word(
            data[off + 4 * t],
            data[off + 4 * t + 1],
            data[off + 4 * t + 2],
            data[off + 4 * t + 3],
        );
        assert(block[4 * t] == data@[off + 4 * t]);
        assert(block[4 * t + 1] == data@[off + 4 * t + 1]);
        assert(block[4 * t + 2] == data@[off + 4 * t + 2]);
        assert(block[4 * t + 3] == data@[off + 4 * t + 3]);
        w.push(x);
        t += 1;
    }
    while t < 64
        invariant
            16 <= t <= 64,
            w@.len() == t,
            forall|j: int| 0 <= j < t ==> w@[j] == schedule(block, j),
        decreases 64 - t,
    {
        let a: u32 = w[t - 2];
        let b: u32 = w[t - 15];
        let c: u32 = w[t - 7];
        let d: u32 = w[t - 16];
        let s1: u32 = rotate_right(a, 17) ^ rotate_right(a, 19) ^ (a >> 10);
        let s0: u32 = rotate_right(b, 7) ^ rotate_right(b, 18) ^ (b >> 3);
        let x: u32 = s1.wrapping_add(c).wrapping_add(s0).wrapping_add(d);
        assert(schedule(block, t as int) == small_sigma1(schedule(block, t - 2)).wrapping_add(
            schedule(block, t - 7),
        ).wrapping_add(small_sigma0(schedule(block, t - 15))).wrapping_add(
            schedule(block, t - 16),
        ));
        w.push(x);
        t += 1;
    }
    let mut s = h;
    t = 0;
    while t < 64
        invariant
            t <= 64,
            w@.len() == 64,
            forall|j: int| 0 <= j < 64 ==> w@[j] == schedule(block, j),
            s == rounds(h, block, t as int),
        decreases 64 - t,
    {
        s = step(s, K[t], w[t]);
        t += 1;
    }
    Digest {
        w0: h.w0.wrapping_add(s.w0),
        w1: h.w1.wrapping_add(s.w1),
        w2: h.w2.wrapping_add(s.w2),
        w3: h.w3.wrapping_add(s.w3),
        w4: h.w4.wrapping_add(s.w4),
        w5: h.w5.wrapping_add(s.w5),
        w6: h.w6.wrapping_add(s.w6),
        w7: h.w7.wrapping_add(s.w7),
    }
}

/// Absorbing a sequence of whole blocks and then more data is absorbing their
/// concatenation.
pub proof fn lemma_absorb_concat(h: Digest, a: Seq<u8>, b: Seq<u8>)
    requires
        a.len() % 64 == 0,
    ensures
        absorb(h, a + b) == absorb(absorb(h, a), b),
    decreases a.len(),
{
    if a.len() == 0 {
        assert(a + b =~= b);
    } else {
        let ab = a + b;
        assert(ab.subrange(0, 64) =~= a.subrange(0, 64));
        assert(ab.skip(64) =~= a.skip(64) + b);
        lemma_absorb_concat(compress(h, a.subrange(0, 64)), a.skip(64), b);
    }
}

/// Absorbs the first `count` blocks of `data`.
fn absorb_blocks(h: Digest, data: &[u8], count: usize) -> (r: Digest)
    requires
        count * 64 <= data@.len(),
    ensures
        r == absorb(h, data@.subrange(0, count * 64)),
{
    let ghost whole = data@.subrange(0, count * 64);
    let n: usize = data.len();
    let mut s = h;
    let mut i: usize = 0;
    let mut off: usize = 0;
    assert(whole.skip(0) =~= whole);
    while i < count
        invariant
            i <= count,
            off == i * 64,
            n == data@.len(),
            count * 64 <= n,
            whole == data@.subrange(0, count * 64),
            absorb(s, whole.skip(off as int)) == absorb(h, whole),
        decreases count - i,
    {
        let ghost rest = whole.skip(off as int);
        assert(rest.subrange(0, 64) =~= data@.subrange(off as int, off + 64));
        assert(rest.skip(64) =~= whole.skip(off + 64));
        s = compress_block(s, data, off);
        i += 1;
        off += 64;
    }
    assert(whole.skip(count * 64).len() == 0);
    s
}

/// The digest of `data`.
pub fn hash(data: &Vec<u8>) -> (r: Digest)
    ensures
        r == sha256(data@),
{
    let len: usize = data.len();
    let count: usize = len / 64;
    let start: usize = count * 64;
    let h0 = Digest {
        w0: 0x6a09e667,
        w1: 0xbb67ae85,
        w2: 0x3c6ef372,
        w3: 0xa54ff53a,
        w4: 0x510e527f,
        w5: 0x9b05688c,
        w6: 0x1f83d9ab,
        w7: 0x5be0cd19,
    };
    let h1 = absorb_blocks(h0, data.as_slice(), count);
    // The last, partial block and the padding.
    let mut tail: Vec<u8> = Vec::new();
    let mut i: usize = start;
    while i < len
        invariant
            start <= i <= len,
            len == data@.len(),
            len - start < 64,
            tail@ == data@.subrange(start as int, i as int),
        decreases len - i,
    {
        tail.push(data[i]);
        i += 1;
        assert(tail@ =~= data@.subrange(start as int, i as int));
    }
    tail.push(0x80u8);
    let ghost zeros = zero_count(len as nat);
    let ghost partial = data@.subrange(start as int, len as int);
    assert(tail@ =~= partial + seq![0x80u8]);
    let rem: usize = len - start;
    let fill: usize = if rem <= 55 {
        55 - rem
    } else {
        119 - rem
    };
    assert(fill == zeros);
    let mut z: usize = 0;
    while z < fill
        invariant
            z <= fill,
            tail@ == partial + seq![0x80u8] + Seq::new(z as nat, |i: int| 0u8),
        decreases fill - z,
    {
        tail.push(0u8);
        z += 1;
        assert(tail@ =~= partial + seq![0x80u8] + Seq::new(z as nat, |i: int| 0u8));
    }
    let bits: u64 = (len as u64).wrapping_mul(8);
    let hi: u64 = bits >> 32;
    let lo: u64 = bits & 0xffff_ffff;
    assert(hi <= 0xffff_ffff) by (bit_vector)
        requires
            hi == bits >> 32,
    ;
    assert(lo <= 0xffff_ffff) by (bit_vector)
        requires
            lo == bits & 0xffff_ffff,
    ;
    push_word(&mut tail, hi as u32);
    push_word(&mut tail, lo as u32);
    proof {
        let padded = data@ + padding(data@.len());
        let head = data@.subrange(0, start as int);
        assert(tail@ =~= partial + padding(data@.len()));
        assert(padded =~= head + tail@);
        lemma_absorb_concat(h0, head, tail@);
        assert(tail@.len() % 64 == 0);
        assert(tail@.subrange(0, ((tail@.len() / 64) * 64) as int) =~= tail@);
    }
    let blocks: usize = tail.len() / 64;
    absorb_blocks(h1, tail.as_slice(), blocks)
}

} // verus!
