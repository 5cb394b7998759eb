//! The byte form of the packed scene: each 32-bit word is stored as its four
//! bytes in the host's byte order (the memory representation that `bytemuck`
//! gives), and a stream of fixed-size elements is stored as the
//! concatenation of its elements' words.

use vstd::prelude::*;
use vstd::endian::{endianness, Endian};

verus! {

/// The concatenation of `f(a)` over the elements `a` of `s`, where each
/// `f(a)` has `width` elements.
pub open spec fn flat<A, B>(s: Seq<A>, width: nat, f: spec_fn(A) -> Seq<B>) -> Seq<B> {
    Seq::new(s.len() * width, |i: int| f(s[i / width as int])[i % width as int])
}

/// The four bytes of a word, least significant first.
pub open spec fn le_bytes(w: u32) -> Seq<u8> {
    seq![
        (w % 0x100) as u8,
        ((w / 0x100) % 0x100) as u8,
        ((w / 0x1_0000) % 0x100) as u8,
        ((w / 0x100_0000) % 0x100) as u8,
    ]
}

/// The word whose bytes, least significant first, are the four bytes of `b`
/// starting at `at`.
pub open spec fn le_word(b: Seq<u8>, at: int) -> u32 {
    (b[at] + b[at + 1] * 0x100 + b[at + 2] * 0x1_0000 + b[at + 3] * 0x100_0000) as u32
}

/// The four bytes of a word in the host's byte order: least significant
/// first on a little-endian host, most significant first on a big-endian one.
pub open spec fn ne_bytes(w: u32) -> Seq<u8> {
    match endianness() {
        Endian::Little => le_bytes(w),
        Endian::Big => seq![le_bytes(w)[3], le_bytes(w)[2], le_bytes(w)[1], le_bytes(w)[0]],
    }
}

/// The word whose bytes, in the host's byte order, are the four bytes of `b`
/// starting at `at`.
pub open spec fn ne_word(b: Seq<u8>, at: int) -> u32 {
    match endianness() {
        Endian::Little => le_word(b, at),
        Endian::Big => (b[at + 3] + b[at + 2] * 0x100 + b[at + 1] * 0x1_0000 + b[at]
            * 0x100_0000) as u32,
    }
}

/// The four bytes of each word, in the host's byte order.
pub open spec fn ne_bytes_of() -> spec_fn(u32) -> Seq<u8> {
    |w: u32| ne_bytes(w)
}

/// The bytes of a sequence of words.
pub open spec fn word_bytes(ws: Seq<u32>) -> Seq<u8> {
    flat(ws, 4, ne_bytes_of())
}

/// The words stored in a sequence of bytes, four bytes each.
pub open spec fn bytes_words(b: Seq<u8>) -> Seq<u32> {
    Seq::new(b.len() / 4, |i: int| ne_word(b, 4 * i))
}

proof fn lemma_div_mod_shift(i: int, n: int, w: int)
    requires
        w > 0,
        i >= n * w,
        n >= 0,
    ensures
        i / w == n + (i - n * w) / w,
        i % w == (i - n * w) % w,
{
    vstd::arithmetic::div_mod::lemma_fundamental_div_mod(i - n * w, w);
    vstd::arithmetic::div_mod::lemma_fundamental_div_mod(i, w);
    let q = (i - n * w) / w;
    let r = (i - n * w) % w;
    assert(i == (n + q) * w + r) by (nonlinear_arith)
        requires
            i - n * w == w * q + r,
    ;
    vstd::arithmetic::div_mod::lemma_fundamental_div_mod_converse(i, w, n + q, r);
}

proof fn lemma_mul_succ(n: int, w: int)
    ensures
        (n + 1) * w == n * w + w,
        n * w + w == w * (n + 1),
{
    assert((n + 1) * w == n * w + w) by (nonlinear_arith);
    assert(n * w + w == w * (n + 1)) by (nonlinear_arith);
}

/// An index below `n * w` falls in one of the first `n` blocks of width `w`.
proof fn lemma_block_index(i: int, n: int, w: int)
    requires
        w > 0,
        0 <= i < n * w,
    ensures
        0 <= i / w < n,
        0 <= i % w < w,
{
    vstd::arithmetic::div_mod::lemma_fundamental_div_mod(i, w);
    let q = i / w;
    let r = i % w;
    assert(0 <= r < w);
    assert(0 <= q < n) by (nonlinear_arith)
        requires
            i == w * q + r,
            0 <= r < w,
            0 <= i < n * w,
            w > 0,
    ;
}

/// Flattening a concatenation gives the concatenation of the flattenings.
pub proof fn lemma_flat_concat<A, B>(s: Seq<A>, t: Seq<A>, width: nat, f: spec_fn(A) -> Seq<B>)
    requires
        width > 0,
        forall|a: A| #[trigger] f(a).len() == width,
    ensures
        flat(s + t, width, f) =~= flat(s, width, f) + flat(t, width, f),
{
    let w = width as int;
    assert((s.len() + t.len()) * w == s.len() * w + t.len() * w) by (nonlinear_arith);
    let l = flat(s + t, width, f);
    let r = flat(s, width, f) + flat(t, width, f);
    assert(l.len() == r.len());
    assert forall|i: int| 0 <= i < l.len() implies l[i] == r[i] by {
        let sl = s.len() as int;
        if i < sl * w {
            lemma_block_index(i, sl, w);
            assert((s + t)[i / w] == s[i / w]);
        } else {
            lemma_div_mod_shift(i, sl, w);
            let j = i - sl * w;
            lemma_block_index(j, t.len() as int, w);
            assert((s + t)[i / w] == t[j / w]);
        }
    }
}

/// Flattening a sequence with one more element appends that element's part.
pub proof fn lemma_flat_push<A, B>(s: Seq<A>, a: A, width: nat, f: spec_fn(A) -> Seq<B>)
    requires
        width > 0,
        forall|x: A| #[trigger] f(x).len() == width,
    ensures
        flat(s.push(a), width, f) =~= flat(s, width, f) + f(a),
{
    lemma_flat_concat(s, seq![a], width, f);
    assert(s + seq![a] =~= s.push(a));
    let one = flat(seq![a], width, f);
    assert(1 * (width as int) == width as int);
    assert forall|i: int| 0 <= i < one.len() implies one[i] == f(a)[i] by {
        vstd::arithmetic::div_mod::lemma_basic_div(i, width as int);
        vstd::arithmetic::div_mod::lemma_small_mod(i as nat, width);
    }
    assert(one =~= f(a));
}

/// The `i`-th element of a flattening, written as block and position.
pub proof fn lemma_flat_index<A, B>(s: Seq<A>, width: nat, f: spec_fn(A) -> Seq<B>, k: int, j: int)
    requires
        width > 0,
        0 <= k < s.len(),
        0 <= j < width,
    ensures
        0 <= k * width + j < flat(s, width, f).len(),
        flat(s, width, f)[k * width + j] == f(s[k])[j],
{
    let w = width as int;
    vstd::arithmetic::mul::lemma_mul_inequality(k + 1, s.len() as int, w);
    lemma_mul_succ(k, w);
    vstd::arithmetic::mul::lemma_mul_nonnegative(k, w);
    lemma_div_mod_shift(k * w + j, k, w);
    vstd::arithmetic::div_mod::lemma_basic_div(j, w);
    vstd::arithmetic::div_mod::lemma_small_mod(j as nat, width);
}

proof fn lemma_le_bytes_bits(w: u32)
    by (bit_vector)
    ensures
        (w & 0xffu32) == w % 0x100,
        ((w >> 8u32) & 0xffu32) == (w / 0x100) % 0x100,
        ((w >> 16u32) & 0xffu32) == (w / 0x1_0000) % 0x100,
        ((w >> 24u32) & 0xffu32) == (w / 0x100_0000) % 0x100,
        w % 0x100 + ((w / 0x100) % 0x100) * 0x100 + ((w / 0x1_0000) % 0x100) * 0x1_0000 + ((w
            / 0x100_0000) % 0x100) * 0x100_0000 == w,
{
}

/// A word read back from its four bytes is the word.
pub proof fn lemma_ne_word_bytes(w: u32)
    ensures
        ne_word(ne_bytes(w), 0) == w,
{
    lemma_le_bytes_bits(w);
}

/// The words of the bytes of a sequence of words are those words.
pub proof fn lemma_bytes_words_round_trip(ws: Seq<u32>)
    ensures
        bytes_words(word_bytes(ws)) =~= ws,
{
    let b = word_bytes(ws);
    assert(b.len() == ws.len() * 4);
    assert(b.len() / 4 == ws.len());
    assert forall|i: int| 0 <= i < ws.len() implies #[trigger] bytes_words(b)[i] == ws[i] by {
        lemma_flat_index(ws, 4, ne_bytes_of(), i, 0);
        lemma_flat_index(ws, 4, ne_bytes_of(), i, 1);
        lemma_flat_index(ws, 4, ne_bytes_of(), i, 2);
        lemma_flat_index(ws, 4, ne_bytes_of(), i, 3);
        assert(i * 4 == 4 * i);
        lemma_ne_word_bytes(ws[i]);
    }
}

/// The bytes of a concatenation of word sequences.
pub proof fn lemma_word_bytes_concat(a: Seq<u32>, b: Seq<u32>)
    ensures
        word_bytes(a + b) =~= word_bytes(a) + word_bytes(b),
{
    lemma_flat_concat(a, b, 4, ne_bytes_of());
}

/// The bytes of a word with `bytemuck::bytes_of`, which reinterprets the
/// word's memory: the contract claims they are its four bytes in the host's
/// byte order.
#[verifier::external_body]
fn bytes_of_word(w: u32) -> (r: Vec<u8>)
    ensures
        r@ == ne_bytes(w),
{
    bytemuck::bytes_of(&w).to_vec()
}

/// Reads a word from four bytes with `bytemuck::pod_read_unaligned`, which
/// reinterprets them as the word's memory: the contract claims the word is
/// the one whose bytes in the host's byte order they are.
#[verifier::external_body]
fn read_unaligned_word(b0: u8, b1: u8, b2: u8, b3: u8) -> (r: u32)
    ensures
        r == ne_word(seq![b0, b1, b2, b3], 0),
{
    bytemuck::pod_read_unaligned(&[b0, b1, b2, b3])
}

/// Appends the four bytes of a word, in the host's byte order.
pub fn push_word(data: &mut Vec<u8>, w: u32)
    ensures
        final(data)@ == old(data)@ + ne_bytes(w),
{
    let bytes = bytes_of_word(w);
    data.push(bytes[0]);
    data.push(bytes[1]);
    data.push(bytes[2]);
    data.push(bytes[3]);
    assert(data@ =~= old(data)@ + ne_bytes(w));
}

/// Appends the bytes of the words of `ws`.
pub fn extend_words(data: &mut Vec<u8>, ws: &[u32])
    ensures
        final(data)@ == old(data)@ + word_bytes(ws@),
{
    let mut i: usize = 0;
    while i < ws.len()
        invariant
            0 <= i <= ws@.len(),
            data@ == old(data)@ + word_bytes(ws@.take(i as int)),
        decreases ws@.len() - i,
    {
        proof {
            lemma_flat_push(ws@.take(i as int), ws@[i as int], 4, ne_bytes_of());
            assert(ws@.take(i + 1) =~= ws@.take(i as int).push(ws@[i as int]));
        }
        push_word(data, ws[i]);
        i = i + 1;
    }
    assert(ws@.take(ws@.len() as int) =~= ws@);
}

/// Reads the words stored in the bytes of `data` from `start` up to `end`.
pub fn read_words(data: &[u8], start: usize, end: usize) -> (r: Vec<u32>)
    requires
        start <= end <= data@.len(),
        (end - start) % 4 == 0,
    ensures
        r@ == bytes_words(data@.subrange(start as int, end as int)),
{
    let ghost bytes = data@.subrange(start as int, end as int);
    let mut r: Vec<u32> = Vec::new();
    let mut at: usize = start;
    while at < end
        invariant
            start <= at <= end,
            end <= data@.len(),
            (end - start) % 4 == 0,
            (at - start) % 4 == 0,
            bytes == data@.subrange(start as int, end as int),
            r@.len() == (at - start) / 4,
            forall|i: int| 0 <= i < r@.len() ==> #[trigger] r@[i] == ne_word(bytes, 4 * i),
        decreases end - at,
    {
        assert(at + 4 <= end);
        let b0 = data[at];
        let b1 = data[at + 1];
        let b2 = data[at + 2];
        let b3 = data[at + 3];
        proof {
            let i = r@.len() as int;
            assert(4 * i == at - start);
            assert(bytes[4 * i] == b0);
            assert(bytes[4 * i + 1] == b1);
            assert(bytes[4 * i + 2] == b2);
            assert(bytes[4 * i + 3] == b3);
        }
        let w = read_unaligned_word(b0, b1, b2, b3);
        r.push(w);
        at = at + 4;
    }
    assert(r@ =~= bytes_words(bytes));
    r
}

} // verus!
