//! The pool of GPU buffers kept for reuse, keyed by size class, usage and
//! name, and the quantization of buffer sizes into size classes.

use vstd::prelude::*;
use vstd::arithmetic::power2::pow2;
use crate::resolve::{lemma_round_up, round_up};

verus! {

/// Number of bits of precision kept by the buffer size classes.
pub const SIZE_CLASS_BITS: u32 = 1;

proof fn lemma_size_class_bits(y: u64, a: u64, bits: u64)
    by (bit_vector)
    requires
        a < 64,
        bits < 64,
        (y >> (63 - a) as u64) & 1u64 != 0u64,
        a > 0 ==> y >> (64 - a) as u64 == 0u64,
        y >= (1u64 << bits),
    ensures
        bits + a <= 63,
        (1u64 << (63 - a) as u64) <= y,
        a > 0 ==> y < (1u64 << (64 - a) as u64),
        ((0xffff_ffff_ffff_ffffu64 / 2) >> bits) >> a == ((1u64 << (63 - bits - a) as u64) - 1) as u64,
        (y | ((0xffff_ffff_ffff_ffffu64 / 2) >> bits) >> a) == ((y >> (63 - bits - a) as u64) << (63 - bits - a) as u64)
            + ((1u64 << (63 - bits - a) as u64) - 1),
{
}

/// Rounding `y + 1` up to a multiple of `m` gives the multiple of `m` that
/// follows the one at or below `y`.
proof fn lemma_round_up_succ(y: nat, m: nat)
    requires
        m > 0,
    ensures
        round_up(y + 1, m) == (y / m + 1) * m,
{
    vstd::arithmetic::div_mod::lemma_fundamental_div_mod(y as int, m as int);
    let q = (y / m) as int;
    let r0 = (y % m) as int;
    assert(m * (q + 1) == m * q + m) by (nonlinear_arith);
    assert(q * m == m * q) by (nonlinear_arith);
    if r0 + 1 == m {
        assert(y + 1 == m * (q + 1));
        vstd::arithmetic::div_mod::lemma_mod_multiples_basic(q + 1, m as int);
        assert((q + 1) * m == m * (q + 1)) by (nonlinear_arith);
    } else {
        vstd::arithmetic::div_mod::lemma_fundamental_div_mod_converse(
            (y + 1) as int,
            m as int,
            q,
            r0 + 1,
        );
        assert((q + 1) * m == m * q + m) by (nonlinear_arith);
    }
}

/// A power of two below which `y` lies and at or above which it lies
/// determines the exponent.
proof fn lemma_pow2_bracket_unique(y: nat, p: nat, e: nat)
    requires
        pow2(p) <= y < pow2(p + 1),
        pow2(e) <= y < pow2(e + 1),
    ensures
        e == p,
{
    if e < p {
        if e + 1 < p {
            vstd::arithmetic::power2::lemma_pow2_strictly_increases(e + 1, p);
        }
    } else if e > p {
        if p + 1 < e {
            vstd::arithmetic::power2::lemma_pow2_strictly_increases(p + 1, e);
        }
    }
}

/// Quantizes a size up to the nearest size class: sizes up to `2^bits` go to
/// `2^bits`; a larger size `x` is rounded up to a multiple of `2^k`, where
/// `2^(k + bits) <= x - 1 < 2^(k + bits + 1)`, keeping the top `bits + 1`
/// bits of `x - 1`.
pub fn size_class(x: u64, bits: u32) -> (r: u64)
    requires
        bits < 64,
        x + pow2((63 - bits) as nat) <= pow2(64),
    ensures
        x <= pow2(bits as nat) ==> r == pow2(bits as nat),
        forall|k: nat|
            pow2(k + bits as nat) <= x - 1 < pow2(k + bits as nat + 1) ==> r == #[trigger] round_up(
                x as nat,
                pow2(k),
            ),
        x <= r,
{
    proof {
        vstd::bits::lemma_u64_pow2_no_overflow(bits as nat);
        vstd::bits::lemma_u64_shl_is_mul(1, bits as u64);
    }
    if x > 1 << bits {
        let y = x - 1;
        let a = y.leading_zeros();
        let b = y | (((u64::MAX / 2) >> bits) >> a);
        proof {
            vstd::std_specs::bits::axiom_u64_leading_zeros(y);
            lemma_size_class_bits(y, a as u64, bits as u64);
            let p: nat = (63 - a) as nat;
            let sh: nat = (63 - bits - a) as nat;
            vstd::bits::lemma_u64_pow2_no_overflow(sh);
            vstd::bits::lemma_u64_shl_is_mul(1, sh as u64);
            vstd::bits::lemma_u64_pow2_no_overflow(p);
            vstd::bits::lemma_u64_shl_is_mul(1, p as u64);
            let m = pow2(sh);
            vstd::bits::lemma_u64_shr_is_div(y, sh as u64);
            let q = y as nat / m;
            vstd::arithmetic::div_mod::lemma_fundamental_div_mod(y as int, m as int);
            assert(q * m <= y) by (nonlinear_arith)
                requires
                    y == m * q + y as int % m as int,
                    y as int % m as int >= 0,
            ;
            vstd::bits::lemma_u64_shl_is_mul((y >> sh as u64), sh as u64);
            if a > 0 {
                vstd::bits::lemma_u64_pow2_no_overflow((64 - a) as nat);
                vstd::bits::lemma_u64_shl_is_mul(1, (64 - a) as u64);
                assert(y < pow2(p + 1));
            } else {
                vstd::arithmetic::power2::lemma2_to64();
                assert(y < pow2(p + 1));
            }
            lemma_round_up_succ(y as nat, m);
            assert((q + 1) * m == q * m + m) by (nonlinear_arith);
            assert(b + 1 == (q + 1) * m);
            assert forall|k: nat|
                pow2(k + bits as nat) <= x - 1 < pow2(k + bits as nat + 1) implies b + 1
                == #[trigger] round_up(x as nat, pow2(k)) by {
                lemma_pow2_bracket_unique(y as nat, p, k + bits as nat);
            }
            if sh < 63 - bits {
                vstd::arithmetic::power2::lemma_pow2_strictly_increases(sh, (63 - bits) as nat);
            }
            lemma_round_up(x as nat, m);
            vstd::arithmetic::power2::lemma2_to64();
        }
        b + 1
    } else {
        proof {
            assert forall|k: nat|
                pow2(k + bits as nat) <= x - 1 < pow2(k + bits as nat + 1) implies (1u64 << bits)
                == #[trigger] round_up(x as nat, pow2(k)) by {
                if k > 0 {
                    vstd::arithmetic::power2::lemma_pow2_strictly_increases(
                        bits as nat,
                        k + bits as nat,
                    );
                }
            }
        }
        1 << bits
    }
}

/// Compares two strings by their UTF-8 bytes, as `==` on `str` does: they
/// are equal exactly when they hold the same characters.
fn str_eq(a: &str, b: &str) -> (r: bool)
    ensures
        r == (a@ == b@),
{
    let x = a.as_bytes();
    let y = b.as_bytes();
    proof {
        vstd::utf8::encode_utf8_decode_utf8(a@);
        vstd::utf8::encode_utf8_decode_utf8(b@);
    }
    if x.len() != y.len() {
        return false;
    }
    let mut i: usize = 0;
    while i < x.len()
        invariant
            0 <= i <= x@.len(),
            x@.len() == y@.len(),
            x@ == vstd::utf8::encode_utf8(a@),
            y@ == vstd::utf8::encode_utf8(b@),
            forall|j: int| 0 <= j < i ==> x@[j] == y@[j],
        decreases x@.len() - i,
    {
        if x[i] != y[i] {
            return false;
        }
        i = i + 1;
    }
    assert(x@ =~= y@);
    true
}

/// The key under which a pooled buffer is kept: its size, its usage flags and
/// its name.
pub type BufferKey = (u64, u32, Seq<char>);

/// The properties that pooled buffers are matched by.
pub struct BufferProperties {
    /// Size of the buffer in bytes.
    pub size: u64,
    /// The buffer's usage flags.
    pub usages: u32,
    /// The buffer's name.
    pub name: &'static str,
}

impl BufferProperties {
    /// The key of the properties.
    pub open spec fn key(self) -> BufferKey {
        (self.size, self.usages, self.name@)
    }
}

struct PoolEntry<B> {
    props: BufferProperties,
    bufs: Vec<B>,
}

/// Whether `r` is the buffer that getting one of the given size, name and
/// usage takes from pool `before`, leaving pool `after`: the buffer pooled
/// last under the size class of `size`, the name and the usage, or, when the
/// pool holds none, one that `create` makes for that size class, name and
/// usage, the pool then unchanged.
pub open spec fn takes_buf<B, F: Fn(u64, &'static str, u32) -> B>(
    before: ResourcePool<B>,
    after: ResourcePool<B>,
    size: u64,
    name: &'static str,
    usage: u32,
    create: &F,
    r: B,
) -> bool {
    exists|c: u64|
        #[trigger] is_size_class(size, SIZE_CLASS_BITS, c) && {
            let key = (c, usage, name@);
            &&& before.pooled(key).len() > 0 ==> r == before.pooled(key).last() && after.pooled(key)
                == before.pooled(key).drop_last()
            &&& before.pooled(key).len() == 0 ==> create.ensures((c, name, usage), r)
                && after.pooled(key) == before.pooled(key)
            &&& forall|k: BufferKey| k != key ==> #[trigger] after.pooled(k) == before.pooled(k)
        }
}

/// A pool of buffers kept for reuse.
pub struct ResourcePool<B> {
    entries: Vec<PoolEntry<B>>,
}

/// What a size class is: `r` is the size class of `x` with `bits` bits of
/// precision, as [`size_class`] computes it.
pub open spec fn is_size_class(x: u64, bits: u32, r: u64) -> bool {
    &&& x <= pow2(bits as nat) ==> r == pow2(bits as nat)
    &&& forall|k: nat|
        pow2(k + bits as nat) <= x - 1 < pow2(k + bits as nat + 1) ==> r == #[trigger] round_up(
            x as nat,
            pow2(k),
        )
    &&& x <= r
}

impl<B> ResourcePool<B> {
    /// No two entries of the pool have the same key.
    pub closed spec fn well_formed(&self) -> bool {
        forall|i: int, j: int|
            0 <= i < j < self.entries@.len() ==> (#[trigger] self.entries@[i]).props.key()
                != (#[trigger] self.entries@[j]).props.key()
    }

    /// The buffers pooled under a key, the last one pooled last.
    pub closed spec fn pooled(&self, key: BufferKey) -> Seq<B> {
        if exists|i: int| 0 <= i < self.entries@.len() && self.entries@[i].props.key() == key {
            let i = choose|i: int|
                0 <= i < self.entries@.len() && self.entries@[i].props.key() == key;
            self.entries@[i].bufs@
        } else {
            Seq::empty()
        }
    }

    /// Creates an empty pool.
    pub fn new() -> (r: Self)
        ensures
            r.well_formed(),
            forall|k: BufferKey| #[trigger] r.pooled(k) == Seq::<B>::empty(),
    {
        ResourcePool { entries: Vec::new() }
    }

    /// Finds the entry with the given key.
    fn find(&self, size: u64, usages: u32, name: &'static str) -> (r: Option<usize>)
        ensures
            r matches Some(i) ==> i < self.entries@.len() && self.entries@[i as int].props.key()
                == (size, usages, name@),
            r is None ==> forall|i: int|
                0 <= i < self.entries@.len() ==> (#[trigger] self.entries@[i]).props.key() != (
                    size,
                    usages,
                    name@,
                ),
    {
        let mut i: usize = 0;
        while i < self.entries.len()
            invariant
                0 <= i <= self.entries@.len(),
                forall|j: int|
                    0 <= j < i ==> (#[trigger] self.entries@[j]).props.key() != (
                        size,
                        usages,
                        name@,
                    ),
            decreases self.entries@.len() - i,
        {
            let props = &self.entries[i].props;
            if props.size == size && props.usages == usages && str_eq(props.name, name) {
                return Some(i);
            }
            i = i + 1;
        }
        None
    }

    /// Replaces the buffers of entry `i`, keeping every entry where it is.
    fn replace_bufs(&mut self, i: usize, bufs: Vec<B>) -> (old_bufs: Vec<B>)
        requires
            i < old(self).entries@.len(),
        ensures
            final(self).entries@.len() == old(self).entries@.len(),
            old_bufs@ == old(self).entries@[i as int].bufs@,
            final(self).entries@[i as int].props == old(self).entries@[i as int].props,
            final(self).entries@[i as int].bufs@ == bufs@,
            forall|j: int|
                0 <= j < old(self).entries@.len() && j != i ==> #[trigger] final(self).entries@[j]
                    == old(self).entries@[j],
    {
        let entry = self.entries.remove(i);
        let PoolEntry { props, bufs: old_bufs } = entry;
        self.entries.insert(i, PoolEntry { props, bufs });
        old_bufs
    }

    #[verifier::spinoff_prover]
    /// Takes a buffer from the pool for a buffer of the given size, name and
    /// usage. Returns the size class of the requested size, in which a new
    /// buffer is to be created when the pool holds none, and the buffer pooled
    /// last under that size class, name and usage, if any.
    pub fn get_buf(&mut self, size: u64, name: &'static str, usage: u32) -> (r: (u64, Option<B>))
        requires
            old(self).well_formed(),
            size + pow2((63 - SIZE_CLASS_BITS) as nat) <= pow2(64),
        ensures
            final(self).well_formed(),
            is_size_class(size, SIZE_CLASS_BITS, r.0),
            old(self).pooled((r.0, usage, name@)).len() > 0 ==> r.1 == Some(
                old(self).pooled((r.0, usage, name@)).last(),
            ) && final(self).pooled((r.0, usage, name@)) == old(self).pooled(
                (r.0, usage, name@),
            ).drop_last(),
            old(self).pooled((r.0, usage, name@)).len() == 0 ==> r.1 is None
                && final(self).pooled((r.0, usage, name@)) == old(self).pooled((r.0, usage, name@)),
            forall|k: BufferKey|
                k != (r.0, usage, name@) ==> #[trigger] final(self).pooled(k) == old(self).pooled(
                    k,
                ),
    {
        let rounded_size = size_class(size, SIZE_CLASS_BITS);
        proof {
            reveal(is_size_class);
        }
        let ghost key = (rounded_size, usage, name@);
        match self.find(rounded_size, usage, name) {
            Some(i) => {
                let mut bufs = self.replace_bufs(i, Vec::new());
                let buf = bufs.pop();
                let _ = self.replace_bufs(i, bufs);
                proof {
                    self.lemma_pooled_after_replace(*old(self), i as int);
                }
                (rounded_size, buf)
            },
            None => {
                assert(!(exists|i: int|
                    0 <= i < self.entries@.len() && self.entries@[i].props.key() == key));
                (rounded_size, None)
            },
        }
    }

    /// Gets a buffer from the pool or creates one: the buffer pooled last under
    /// the size class of `size`, the name and the usage, or, when the pool
    /// holds none, the one that `create` makes for that size class, name and
    /// usage.
    pub fn get_or_create_buf<F: Fn(u64, &'static str, u32) -> B>(
        &mut self,
        size: u64,
        name: &'static str,
        usage: u32,
        create: &F,
    ) -> (r: B)
        requires
            old(self).well_formed(),
            size + pow2((63 - SIZE_CLASS_BITS) as nat) <= pow2(64),
            forall|c: u64| create.requires((c, name, usage)),
        ensures
            final(self).well_formed(),
            takes_buf(*old(self), *final(self), size, name, usage, create, r),
    {
        let (rounded_size, pooled) = self.get_buf(size, name, usage);
        match pooled {
            Some(buf) => buf,
            None => create(rounded_size, name, usage),
        }
    }

    /// Puts a buffer back into the pool, under its properties.
    pub fn return_buf(&mut self, props: BufferProperties, buf: B)
        requires
            old(self).well_formed(),
        ensures
            final(self).well_formed(),
            final(self).pooled(props.key()) == old(self).pooled(props.key()).push(buf),
            forall|k: BufferKey|
                k != props.key() ==> #[trigger] final(self).pooled(k) == old(self).pooled(k),
    {
        match self.find(props.size, props.usages, props.name) {
            Some(i) => {
                let mut bufs = self.replace_bufs(i, Vec::new());
                bufs.push(buf);
                let _ = self.replace_bufs(i, bufs);
                proof {
                    self.lemma_pooled_after_replace(*old(self), i as int);
                }
            },
            None => {
                let ghost key = props.key();
                let mut bufs = Vec::new();
                bufs.push(buf);
                self.entries.push(PoolEntry { props, bufs });
                proof {
                    let n = old(self).entries@.len() as int;
                    assert(self.entries@[n].props.key() == key);
                    assert forall|k: BufferKey| k != key implies #[trigger] self.pooled(k)
                        == old(self).pooled(k) by {
                        if exists|i: int|
                            0 <= i < old(self).entries@.len() && old(self).entries@[i].props.key()
                                == k {
                            let i = choose|i: int|
                                0 <= i < old(self).entries@.len()
                                    && old(self).entries@[i].props.key() == k;
                            assert(self.entries@[i] == old(self).entries@[i]);
                        }
                    }
                    assert(self.pooled(key) =~= old(self).pooled(key).push(buf));
                }
            },
        }
    }

    /// After entry `i` of a well-formed pool has its buffers replaced, the
    /// pool is still well formed, the key of entry `i` pools the new buffers
    /// and every other key pools what it did.
    proof fn lemma_pooled_after_replace(&self, before: Self, i: int)
        requires
            before.well_formed(),
            0 <= i < before.entries@.len(),
            self.entries@.len() == before.entries@.len(),
            self.entries@[i].props == before.entries@[i].props,
            forall|j: int|
                0 <= j < before.entries@.len() && j != i ==> #[trigger] self.entries@[j]
                    == before.entries@[j],
        ensures
            self.well_formed(),
            self.pooled(before.entries@[i].props.key()) == self.entries@[i].bufs@,
            before.pooled(before.entries@[i].props.key()) == before.entries@[i].bufs@,
            forall|k: BufferKey|
                k != before.entries@[i].props.key() ==> #[trigger] self.pooled(k) == before.pooled(
                    k,
                ),
    {
        let key = before.entries@[i].props.key();
        assert forall|a: int, b: int| 0 <= a < b < self.entries@.len() implies (
        #[trigger] self.entries@[a]).props.key() != (#[trigger] self.entries@[b]).props.key() by {
            assert(before.entries@[a].props.key() != before.entries@[b].props.key());
        }
        assert forall|k: BufferKey| k != key implies #[trigger] self.pooled(k) == before.pooled(
            k,
        ) by {
            if exists|j: int| 0 <= j < before.entries@.len() && before.entries@[j].props.key() == k {
                let j = choose|j: int|
                    0 <= j < before.entries@.len() && before.entries@[j].props.key() == k;
                assert(self.entries@[j] == before.entries@[j]);
            }
        }
    }
}

/// Every positive number lies between two consecutive powers of two.
proof fn lemma_pow2_bracket_exists(y: nat)
    requires
        y >= 1,
    ensures
        exists|e: nat| pow2(e) <= y < #[trigger] pow2(e + 1),
    decreases y,
{
    vstd::arithmetic::power2::lemma_pow2_unfold(1);
    vstd::arithmetic::power2::lemma2_to64();
    if y < 2 {
        let e0: nat = 0;
        assert(pow2(e0) <= y < pow2(e0 + 1));
    } else {
        lemma_pow2_bracket_exists(y / 2);
        let e = choose|e: nat| pow2(e) <= y / 2 < #[trigger] pow2(e + 1);
        let e1: nat = e + 1;
        vstd::arithmetic::power2::lemma_pow2_unfold(e1);
        vstd::arithmetic::power2::lemma_pow2_unfold(e1 + 1);
        assert(pow2(e1) <= y < pow2(e1 + 1));
    }
}

/// Rounding up to a multiple of `m` gives at most any multiple of `m` that
/// is at least the rounded number.
proof fn lemma_round_up_least(x: nat, m: nat, bound: nat)
    requires
        m > 0,
        bound % m == 0,
        x <= bound,
    ensures
        round_up(x, m) <= bound,
{
    lemma_round_up(x, m);
    let r = round_up(x, m);
    vstd::arithmetic::div_mod::lemma_fundamental_div_mod(r as int, m as int);
    vstd::arithmetic::div_mod::lemma_fundamental_div_mod(bound as int, m as int);
    let a = r as int / m as int;
    let b = bound as int / m as int;
    if r > bound {
        assert(a >= b + 1) by (nonlinear_arith)
            requires
                r == m * a,
                bound == m * b,
                r > bound,
                m > 0,
        ;
        assert(r >= bound + m) by (nonlinear_arith)
            requires
                r == m * a,
                bound == m * b,
                a >= b + 1,
                m > 0,
        ;
    }
}

/// Rounding a number whose predecessor lies in `[2^(k+b), 2^(k+b+1))` up to a
/// multiple of `2^k` gives a number whose predecessor lies there too.
proof fn lemma_class_bracket(x: nat, b: nat, k: nat)
    requires
        pow2(k + b) <= x - 1 < pow2(k + b + 1),
    ensures
        pow2(k + b) <= round_up(x, pow2(k)) - 1 < pow2(k + b + 1),
        round_up(x, pow2(k)) % pow2(k) == 0,
{
    let m = pow2(k);
    let e = k + b;
    vstd::arithmetic::power2::lemma_pow2_pos(k);
    lemma_round_up(x, m);
    vstd::arithmetic::power2::lemma_pow2_adds(k, b + 1);
    assert(pow2(e + 1) == m * pow2(b + 1));
    vstd::arithmetic::div_mod::lemma_mod_multiples_basic(pow2(b + 1) as int, m as int);
    assert(pow2(b + 1) * m == m * pow2(b + 1)) by (nonlinear_arith);
    lemma_round_up_least(x, m, pow2(e + 1));
}

/// Quantizing a size class again gives the same size class.
#[verifier::spinoff_prover]
pub proof fn lemma_size_class_idempotent(x: u64, bits: u32, c: u64, d: u64)
    requires
        bits < 64,
        is_size_class(x, bits, c),
        is_size_class(c, bits, d),
    ensures
        d == c,
{
    let b = bits as nat;
    vstd::arithmetic::power2::lemma_pow2_pos(b);
    if x > pow2(b) {
        assert(c > pow2(b) && c >= x) by {
            reveal(is_size_class);
        }
        let y = (x - 1) as nat;
        lemma_pow2_bracket_exists(y);
        let e = choose|e: nat| pow2(e) <= y < #[trigger] pow2(e + 1);
        if e + 1 < b {
            vstd::arithmetic::power2::lemma_pow2_strictly_increases(e + 1, b);
        }
        let k = (e - b) as nat;
        assert(k + b == e);
        assert(c == round_up(x as nat, pow2(k))) by {
            reveal(is_size_class);
        }
        lemma_class_bracket(x as nat, b, k);
        assert(d == round_up(c as nat, pow2(k))) by {
            reveal(is_size_class);
        }
    } else {
        assert(c == pow2(b)) by {
            reveal(is_size_class);
        }
        assert(d == pow2(b)) by {
            reveal(is_size_class);
        }
    }
}

/// Whether `v` has at most `bits + 1` significant bits: it is a multiple of a
/// power of two by a number below `2^(bits + 1)`.
pub open spec fn has_class_form(v: nat, bits: nat) -> bool {
    exists|m: nat, k: nat| m < pow2(bits + 1) && v == #[trigger] (m * pow2(k))
}

/// The exponent of the power of two at or below a positive number, and that
/// it is at least `b` when the number is.
proof fn lemma_bracket_of(y: nat, b: nat) -> (e: nat)
    requires
        y >= 1,
    ensures
        pow2(e) <= y < pow2(e + 1),
        y >= pow2(b) ==> e >= b,
{
    lemma_pow2_bracket_exists(y);
    let e = choose|e: nat| pow2(e) <= y < #[trigger] pow2(e + 1);
    if y >= pow2(b) && e + 1 <= b {
        if e + 1 < b {
            vstd::arithmetic::power2::lemma_pow2_strictly_increases(e + 1, b);
        }
    }
    e
}

/// A multiple of `2^k` is a multiple of `2^j` for `j <= k`.
proof fn lemma_pow2_multiple(v: nat, j: nat, k: nat)
    requires
        j <= k,
        v % pow2(k) == 0,
    ensures
        v % pow2(j) == 0,
{
    vstd::arithmetic::power2::lemma_pow2_pos(k);
    vstd::arithmetic::power2::lemma_pow2_pos(j);
    vstd::arithmetic::power2::lemma_pow2_adds(j, (k - j) as nat);
    vstd::arithmetic::div_mod::lemma_fundamental_div_mod(v as int, pow2(k) as int);
    let q = v as int / pow2(k) as int;
    assert(v == (q * pow2((k - j) as nat)) * pow2(j)) by (nonlinear_arith)
        requires
            v == pow2(k) * q + 0,
            pow2(k) == pow2(j) * pow2((k - j) as nat),
    ;
    assert(q >= 0) by (nonlinear_arith)
        requires
            v == pow2(k) * q,
            pow2(k) > 0,
    ;
    vstd::arithmetic::div_mod::lemma_mod_multiples_basic(q * pow2((k - j) as nat), pow2(j) as int);
}

/// The size class of `x` has at most `bits + 1` significant bits, and is the
/// least number at or above both `x` and `2^bits` that has so few.
#[verifier::spinoff_prover]
pub proof fn lemma_size_class_least(x: u64, bits: u32, c: u64, v: nat)
    requires
        bits < 63,
        is_size_class(x, bits, c),
        x <= v,
        pow2(bits as nat) <= v,
        has_class_form(v, bits as nat),
    ensures
        has_class_form(c as nat, bits as nat),
        c <= v,
{
    let b = bits as nat;
    vstd::arithmetic::power2::lemma_pow2_pos(b);
    vstd::arithmetic::power2::lemma_pow2_unfold(b + 1);
    let (m, k) = choose|m: nat, k: nat| m < pow2(b + 1) && v == #[trigger] (m * pow2(k));
    if x <= pow2(b) {
        assert(c == pow2(b)) by {
            reveal(is_size_class);
        }
        vstd::arithmetic::power2::lemma2_to64();
        assert(1 * pow2(b) == pow2(b));
        assert(has_class_form(c as nat, b)) by {
            assert((1nat * pow2(b)) == c);
        }
    } else {
        let y = (x - 1) as nat;
        let e = lemma_bracket_of(y, b);
        let kx = (e - b) as nat;
        assert(kx + b == e);
        assert(c == round_up(x as nat, pow2(kx))) by {
            reveal(is_size_class);
        }
        lemma_class_bracket(x as nat, b, kx);
        vstd::arithmetic::power2::lemma_pow2_pos(kx);
        // c has the class form: it is a multiple of 2^kx no larger than 2^(kx+b+1).
        vstd::arithmetic::div_mod::lemma_fundamental_div_mod(c as int, pow2(kx) as int);
        let mc = (c as int / pow2(kx) as int) as nat;
        vstd::arithmetic::power2::lemma_pow2_adds(kx, b + 1);
        assert(c == mc * pow2(kx)) by (nonlinear_arith)
            requires
                c == pow2(kx) * (c as int / pow2(kx) as int) + 0,
                mc == c as int / pow2(kx) as int,
        ;
        assert(mc <= pow2(b + 1)) by (nonlinear_arith)
            requires
                c == mc * pow2(kx),
                c <= pow2(kx + b + 1),
                pow2(kx + b + 1) == pow2(kx) * pow2(b + 1),
                pow2(kx) > 0,
        ;
        if mc < pow2(b + 1) {
            assert(has_class_form(c as nat, b));
        } else {
            vstd::arithmetic::power2::lemma2_to64();
            assert(c == 1nat * pow2(kx + b + 1)) by (nonlinear_arith)
                requires
                    c == mc * pow2(kx),
                    mc == pow2(b + 1),
                    pow2(kx + b + 1) == pow2(kx) * pow2(b + 1),
            ;
            assert(1nat < pow2(b + 1));
            assert(has_class_form(c as nat, b));
        }
        // v lies below 2^(k+b+1), so k is at least kx, and v is a multiple of 2^kx.
        vstd::arithmetic::power2::lemma_pow2_adds(k, b + 1);
        vstd::arithmetic::power2::lemma_pow2_pos(k);
        assert(v < pow2(k + b + 1)) by (nonlinear_arith)
            requires
                v == m * pow2(k),
                m < pow2(b + 1),
                pow2(k + b + 1) == pow2(k) * pow2(b + 1),
                pow2(k) > 0,
        ;
        if k < kx && k + b + 1 < e {
            vstd::arithmetic::power2::lemma_pow2_strictly_increases(k + b + 1, e);
        }
        vstd::arithmetic::div_mod::lemma_mod_multiples_basic(m as int, pow2(k) as int);
        lemma_pow2_multiple(v, kx, k);
        lemma_round_up_least(x as nat, pow2(kx), v);
    }
}

/// Size classes are monotone: a larger size never gets a smaller class.
#[verifier::spinoff_prover]
pub proof fn lemma_size_class_monotone(x: u64, y: u64, bits: u32, cx: u64, cy: u64)
    requires
        bits < 63,
        x <= y,
        is_size_class(x, bits, cx),
        is_size_class(y, bits, cy),
    ensures
        cx <= cy,
{
    let b = bits as nat;
    vstd::arithmetic::power2::lemma_pow2_pos(b);
    if y <= pow2(b) {
        assert(cx == pow2(b) && cy == pow2(b)) by {
            reveal(is_size_class);
        }
    } else if x <= pow2(b) {
        assert(cx == pow2(b) && cy >= y) by {
            reveal(is_size_class);
        }
    } else {
        let ex = lemma_bracket_of((x - 1) as nat, b);
        let ey = lemma_bracket_of((y - 1) as nat, b);
        if ey + 1 < ex {
            vstd::arithmetic::power2::lemma_pow2_strictly_increases(ey + 1, ex);
        }
        let kx = (ex - b) as nat;
        let ky = (ey - b) as nat;
        assert(kx + b == ex && ky + b == ey);
        assert(cy == round_up(y as nat, pow2(ky)) && cy >= y) by {
            reveal(is_size_class);
        }
        assert(cx == round_up(x as nat, pow2(kx))) by {
            reveal(is_size_class);
        }
        lemma_class_bracket(y as nat, b, ky);
        lemma_pow2_multiple(cy as nat, kx, ky);
        vstd::arithmetic::power2::lemma_pow2_pos(kx);
        lemma_round_up_least(x as nat, pow2(kx), cy as nat);
    }
}

} // verus!
