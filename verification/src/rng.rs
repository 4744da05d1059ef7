//! MT19937 generator compatible with CPython's `random.Random`.
//!
//! The generator is modelled by the infinite stream of 32-bit outputs it will
//! produce from its current state. Word `j` of the Mersenne Twister sequence
//! obeys the recurrence
//! `x[j + 624] = x[j + 397] ^ twist(x[j], x[j + 1])`, and output `j` is the
//! tempered word `temper(x[624 + j])` counted from the seeded block.

use vstd::prelude::*;
use vstd::std_specs::bits::{axiom_u64_leading_zeros, u64_leading_zeros};
use vstd::arithmetic::power2::{lemma2_to64, lemma_pow2_unfold, pow2};

verus! {

/// Number of words in the state.
pub const N: usize = 624;

/// Offset of the middle word in the recurrence.
pub const M: usize = 397;

/// Twist matrix constant.
pub const MATRIX_A: u32 = 0x9908_b0df;

/// Most significant bit of a word.
pub const UPPER_MASK: u32 = 0x8000_0000;

/// The 31 low bits of a word.
pub const LOWER_MASK: u32 = 0x7fff_ffff;

/// The stream of future 32-bit outputs of a generator.
pub type Stream = spec_fn(nat) -> u32;

/// The stream with its first `c` outputs consumed.
pub open spec fn skip(s: Stream, c: nat) -> Stream {
    |j: nat| s(j + c)
}

/// One step of the twist: the new word from the word `m` places ahead,
/// the upper bit of the current word and the lower bits of the next one.
pub open spec fn twist_word(ahead: u32, cur: u32, next: u32) -> u32 {
    let y = (cur & UPPER_MASK) | (next & LOWER_MASK);
    ahead ^ (y >> 1u32) ^ (if y & 1u32 != 0u32 { MATRIX_A } else { 0u32 })
}

/// Word `j` of the Mersenne Twister sequence whose first 624 words are `base`.
pub open spec fn mt_word(base: Seq<u32>, j: nat) -> u32
    decreases j,
{
    if j < 624 {
        base[j as int]
    } else {
        let i = (j - 624) as nat;
        twist_word(mt_word(base, i + 397), mt_word(base, i), mt_word(base, i + 1))
    }
}

proof fn lemma_mt_word_unfold(base: Seq<u32>, j: nat)
    ensures
        j < 624 ==> mt_word(base, j) == base[j as int],
        j >= 624 ==> mt_word(base, j) == twist_word(
            mt_word(base, (j - 227) as nat),
            mt_word(base, (j - 624) as nat),
            mt_word(base, (j - 623) as nat),
        ),
{
}

/// The tempering transform applied to each output word.
pub open spec fn temper(y0: u32) -> u32 {
    let y1 = y0 ^ (y0 >> 11u32);
    let y2 = y1 ^ ((y1 << 7u32) & 0x9d2c_5680u32);
    let y3 = y2 ^ ((y2 << 15u32) & 0xefc6_0000u32);
    y3 ^ (y3 >> 18u32)
}

/// The next block of 624 words of the sequence starting with `base`.
pub open spec fn next_block(base: Seq<u32>) -> Seq<u32> {
    Seq::new(624, |t: int| mt_word(base, (624 + t) as nat))
}

/// Shifting the base by one block shifts the whole sequence by 624 words.
proof fn lemma_next_block_shift(base: Seq<u32>, i: nat)
    requires
        base.len() == 624,
    ensures
        mt_word(next_block(base), i) == mt_word(base, i + 624),
    decreases i,
{
    if i >= 624 {
        let k = (i - 624) as nat;
        lemma_next_block_shift(base, k + 397);
        lemma_next_block_shift(base, k);
        lemma_next_block_shift(base, k + 1);
    }
}

/// Word `i` of the block filled by `init_genrand(s)`.
pub open spec fn init_genrand_word(s: u32, i: nat) -> u32
    decreases i,
{
    if i == 0 {
        s
    } else {
        let p = init_genrand_word(s, (i - 1) as nat);
        1_812_433_253u32.wrapping_mul(p ^ (p >> 30u32)).wrapping_add(i as u32)
    }
}

/// The block filled by `init_genrand(s)`.
pub open spec fn init_genrand_block(s: u32) -> Seq<u32> {
    Seq::new(624, |i: int| init_genrand_word(s, i as nat))
}

/// State of `init_by_array` between two steps: the block, `i` and `j`.
pub type KeyingState = (Seq<u32>, int, int);

/// Moves the cursor `i` one place on, wrapping to 1 and copying the last
/// word to the first one at the end of the block.
pub open spec fn keying_advance(mt: Seq<u32>, i: int) -> (Seq<u32>, int) {
    if i + 1 >= 624 {
        (mt.update(0, mt[623]), 1)
    } else {
        (mt, i + 1)
    }
}

/// One step of the first pass of `init_by_array`, mixing in `key[j]`.
pub open spec fn keying_step1(key: Seq<u32>, st: KeyingState) -> KeyingState {
    let (mt, i, j) = st;
    let p = mt[i - 1];
    let v = (mt[i] ^ (p ^ (p >> 30u32)).wrapping_mul(1_664_525u32)).wrapping_add(
        key[j],
    ).wrapping_add(j as u32);
    let (mt2, i2) = keying_advance(mt.update(i, v), i);
    (mt2, i2, if j + 1 >= key.len() { 0 } else { j + 1 })
}

/// The state after `steps` steps of the first pass.
pub open spec fn keying_pass1(key: Seq<u32>, steps: nat) -> KeyingState
    decreases steps,
{
    if steps == 0 {
        (init_genrand_block(19_650_218), 1, 0)
    } else {
        keying_step1(key, keying_pass1(key, (steps - 1) as nat))
    }
}

/// One step of the second pass of `init_by_array`.
pub open spec fn keying_step2(mt: Seq<u32>, i: int) -> (Seq<u32>, int) {
    let p = mt[i - 1];
    let v = (mt[i] ^ (p ^ (p >> 30u32)).wrapping_mul(1_566_083_941u32)).wrapping_sub(i as u32);
    keying_advance(mt.update(i, v), i)
}

/// The block and cursor after `steps` steps of the second pass from `(mt, i)`.
pub open spec fn keying_pass2(mt: Seq<u32>, i: int, steps: nat) -> (Seq<u32>, int)
    decreases steps,
{
    if steps == 0 {
        (mt, i)
    } else {
        let (mt1, i1) = keying_pass2(mt, i, (steps - 1) as nat);
        keying_step2(mt1, i1)
    }
}

/// The block that `init_by_array(key)` leaves (CPython's `init_by_array`;
/// an empty key falls back to `init_genrand(5489)`).
pub open spec fn init_by_array_block(key: Seq<u32>) -> Seq<u32> {
    if key.len() == 0 {
        init_genrand_block(5489)
    } else {
        let steps: nat = if key.len() > 624 { key.len() } else { 624 };
        let (mt1, i1, _j1) = keying_pass1(key, steps);
        let (mt2, _i2) = keying_pass2(mt1, i1, 623);
        mt2.update(0, 0x8000_0000u32)
    }
}

/// The key derived from an integer seed, as CPython's `random_seed` builds
/// it: its 32-bit words, least significant first, without leading zero
/// words, and one zero word for 0.
pub open spec fn seed_key(seed: u64) -> Seq<u32> {
    if seed < 0x1_0000_0000 {
        seq![seed as u32]
    } else {
        seq![(seed % 0x1_0000_0000) as u32, (seed / 0x1_0000_0000) as u32]
    }
}

/// The output stream of a generator built from `seed`.
pub open spec fn seeded_stream(seed: u64) -> Stream {
    |j: nat| temper(mt_word(init_by_array_block(seed_key(seed)), 624 + j))
}

/// Number of bits needed to write `n` (Python's `int.bit_length`).
pub open spec fn bit_length(n: u64) -> nat
    decreases n,
{
    if n == 0 {
        0
    } else {
        1 + bit_length(n / 2)
    }
}

/// Number of 32-bit outputs that `getrandbits(k)` consumes.
pub open spec fn words_for(k: u32) -> nat {
    if k == 0 {
        0
    } else if k <= 32 {
        1
    } else {
        2
    }
}

/// CPython's `getrandbits(k)` for `k <= 64` on the stream `s`: the top `k`
/// bits of one output, or the first output as low word and the top `k - 32`
/// bits of the second as high word.
pub open spec fn getrandbits_value(s: Stream, k: u32) -> u64 {
    if k == 0 {
        0
    } else if k <= 32 {
        (s(0) >> ((32 - k) as u32)) as u64
    } else {
        (s(0) as u64) | (((s(1) >> ((64 - k) as u32)) as u64) << 32u64)
    }
}

/// The 53-bit integer that `random()` divides by `2**53`.
pub open spec fn random_mantissa_value(s: Stream) -> nat {
    ((s(0) >> 5u32) as nat) * 0x400_0000 + ((s(1) >> 6u32) as nat)
}

/// The `m`-th draw of `k` bits from the stream `s`.
pub open spec fn draw(s: Stream, k: u32, m: nat) -> u64 {
    getrandbits_value(skip(s, m * words_for(k)), k)
}

/// Acceptance test of `_randbelow(n)`: the draw is below `n`.
pub open spec fn below(n: u64) -> spec_fn(u64) -> bool {
    |r: u64| r < n
}

/// Draw `m` is the first one that `acc` accepts.
pub open spec fn first_accepted(s: Stream, k: u32, acc: spec_fn(u64) -> bool, m: nat) -> bool {
    &&& acc(draw(s, k, m))
    &&& forall|i: nat| i < m ==> !acc(#[trigger] draw(s, k, i))
}

/// Some draw of `k` bits from `s` is accepted by `acc`.
pub open spec fn some_accepted(s: Stream, k: u32, acc: spec_fn(u64) -> bool) -> bool {
    exists|m: nat| acc(#[trigger] draw(s, k, m))
}

/// The index of the first draw that `acc` accepts.
pub open spec fn accept_index(s: Stream, k: u32, acc: spec_fn(u64) -> bool) -> nat {
    choose|m: nat| first_accepted(s, k, acc, m)
}

/// The number of bits `_randbelow(n)` draws at a time.
pub open spec fn randbelow_bits(n: u64) -> u32 {
    bit_length(n) as u32
}

/// `_randbelow(n)` returns on the stream `s`: some draw is below `n`
/// (or `n == 0`).
pub open spec fn randbelow_terminates(s: Stream, n: u64) -> bool {
    n == 0 || some_accepted(s, randbelow_bits(n), below(n))
}

/// The value `_randbelow(n)` returns on `s`: the first draw below `n`.
pub open spec fn randbelow_value(s: Stream, n: u64) -> u64 {
    if n == 0 {
        0
    } else {
        draw(s, randbelow_bits(n), accept_index(s, randbelow_bits(n), below(n)))
    }
}

/// The number of outputs `_randbelow(n)` consumes on `s`.
pub open spec fn randbelow_used(s: Stream, n: u64) -> nat {
    if n == 0 {
        0
    } else {
        (accept_index(s, randbelow_bits(n), below(n)) + 1) * words_for(randbelow_bits(n))
    }
}

/// Skipping twice is skipping the sum.
pub proof fn lemma_skip_skip(s: Stream, a: nat, b: nat)
    ensures
        skip(skip(s, a), b) == skip(s, a + b),
{
    assert(skip(skip(s, a), b) =~= skip(s, a + b));
}

/// Draws from a stream advanced by `c` draws are the later draws.
pub proof fn lemma_draw_shift(s: Stream, k: u32, c: nat, m: nat)
    ensures
        draw(skip(s, c * words_for(k)), k, m) == draw(s, k, c + m),
{
    lemma_skip_skip(s, c * words_for(k), m * words_for(k));
    assert(c * words_for(k) + m * words_for(k) == (c + m) * words_for(k)) by (nonlinear_arith);
}

/// If some draw is accepted, there is a first one, and `accept_index` is it.
pub proof fn lemma_accept_index(s: Stream, k: u32, acc: spec_fn(u64) -> bool)
    requires
        some_accepted(s, k, acc),
    ensures
        first_accepted(s, k, acc, accept_index(s, k, acc)),
{
    let m = choose|m: nat| acc(#[trigger] draw(s, k, m));
    lemma_first_below(s, k, acc, m);
}

proof fn lemma_first_below(s: Stream, k: u32, acc: spec_fn(u64) -> bool, m: nat)
    requires
        acc(draw(s, k, m)),
    ensures
        exists|f: nat| first_accepted(s, k, acc, f),
    decreases m,
{
    if exists|i: nat| i < m && acc(#[trigger] draw(s, k, i)) {
        let i = choose|i: nat| i < m && acc(#[trigger] draw(s, k, i));
        lemma_first_below(s, k, acc, i);
    } else {
        assert(first_accepted(s, k, acc, m));
    }
}

/// The first accepted draw is unique.
pub proof fn lemma_first_accepted_unique(s: Stream, k: u32, acc: spec_fn(u64) -> bool, a: nat, b: nat)
    requires
        first_accepted(s, k, acc, a),
        first_accepted(s, k, acc, b),
    ensures
        a == b,
{
    if a < b {
        assert(!acc(draw(s, k, a)));
    } else if b < a {
        assert(!acc(draw(s, k, b)));
    }
}

/// `leading_zeros` gives the bit length.
proof fn lemma_leading_zeros_bit_length(n: u64)
    ensures
        u64_leading_zeros(n) == 64 - bit_length(n),
        bit_length(n) <= 64,
        n > 0 ==> bit_length(n) >= 1,
    decreases n,
{
    reveal(u64_leading_zeros);
    axiom_u64_leading_zeros(n);
    if n != 0 {
        lemma_leading_zeros_bit_length(n / 2);
    }
}

/// Mersenne Twister generator reproducing CPython's `random.Random`.
pub struct PyRandom {
    mt: [u32; 624],
    index: usize,
}

impl View for PyRandom {
    type V = Stream;

    /// The outputs that successive calls of `genrand_uint32` will return.
    closed spec fn view(&self) -> Stream {
        let pos: nat = if self.index >= 624 { 624 } else { self.index as nat };
        let base = self.mt@;
        |j: nat| temper(mt_word(base, pos + j))
    }
}

fn twist(ahead: u32, cur: u32, next: u32) -> (r: u32)
    ensures
        r == twist_word(ahead, cur, next),
{
    let y = (cur & UPPER_MASK) | (next & LOWER_MASK);
    ahead ^ (y >> 1u32) ^ (if y & 1u32 != 0u32 { MATRIX_A } else { 0u32 })
}

fn temper_exec(y0: u32) -> (r: u32)
    ensures
        r == temper(y0),
{
    let y1 = y0 ^ (y0 >> 11u32);
    let y2 = y1 ^ ((y1 << 7u32) & 0x9d2c_5680u32);
    let y3 = y2 ^ ((y2 << 15u32) & 0xefc6_0000u32);
    y3 ^ (y3 >> 18u32)
}

impl PyRandom {
    /// Creates a generator seeded with an integer, like `random.Random(seed)`.
    pub fn new(seed: u64) -> (r: Self)
        ensures
            r@ == seeded_stream(seed),
    {
        let key = Self::seed_to_key(seed);
        let mut r = PyRandom { mt: [0u32; 624], index: N };
        r.init_by_array(&key);
        r
    }

    /// Splits a seed into 32-bit words, least significant first (one zero
    /// word for 0).
    fn seed_to_key(seed: u64) -> (key: Vec<u32>)
        ensures
            key@ == seed_key(seed),
    {
        let mut key: Vec<u32> = Vec::new();
        if seed == 0 {
            key.push(0);
            assert(key@ =~= seed_key(seed));
            return key;
        }
        let mut v = seed;
        while v > 0
            invariant
                seed > 0,
                (v == seed && key@.len() == 0) || (seed >= 0x1_0000_0000 && v == seed
                    / 0x1_0000_0000 && key@ == seq![(seed % 0x1_0000_0000) as u32]) || (v == 0
                    && key@ == seed_key(seed)),
            decreases v,
        {
            let w = (v & 0xffff_ffff) as u32;
            assert(v & 0xffff_ffff == v % 0x1_0000_0000) by (bit_vector);
            assert(v >> 32u64 == v / 0x1_0000_0000) by (bit_vector);
            key.push(w);
            v = v >> 32u64;
            proof {
                if seed >= 0x1_0000_0000 && key@.len() == 2 {
                    assert(seed / 0x1_0000_0000 < 0x1_0000_0000);
                }
                if key@.len() == 2 || seed < 0x1_0000_0000 {
                    assert(key@ =~= seed_key(seed));
                }
            }
        }
        key
    }

    /// Fills the block from a scalar seed (CPython's `init_genrand`).
    fn init_genrand(&mut self, s: u32)
        ensures
            final(self).mt@ == init_genrand_block(s),
            final(self).index == N,
    {
        self.mt[0] = s;
        let mut i: usize = 1;
        while i < N
            invariant
                1 <= i <= N,
                self.mt@.len() == 624,
                forall|t: int| 0 <= t < i ==> self.mt@[t] == init_genrand_word(s, t as nat),
            decreases N - i,
        {
            let p = self.mt[i - 1];
            self.mt[i] = 1_812_433_253u32.wrapping_mul(p ^ (p >> 30u32)).wrapping_add(i as u32);
            i += 1;
        }
        self.index = N;
        assert(self.mt@ =~= init_genrand_block(s));
    }

    /// Fills the block from a key of 32-bit words (CPython's `init_by_array`).
    fn init_by_array(&mut self, key: &[u32])
        ensures
            final(self).mt@ == init_by_array_block(key@),
            final(self).index == N,
    {
        self.init_genrand(19_650_218);
        let key_length = key.len();
        if key_length == 0 {
            self.init_genrand(5489);
            return;
        }
        let mut i: usize = 1;
        let mut j: usize = 0;
        let total: usize = if N > key_length { N } else { key_length };
        let mut k: usize = total;
        while k > 0
            invariant
                key_length == key@.len() > 0,
                total == (if key@.len() > 624 { key@.len() } else { 624 }),
                k <= total,
                1 <= i < N,
                j < key_length,
                self.mt@.len() == 624,
                (self.mt@, i as int, j as int) == keying_pass1(key@, (total - k) as nat),
            decreases k,
        {
            let p = self.mt[i - 1];
            self.mt[i] = (self.mt[i] ^ (p ^ (p >> 30u32)).wrapping_mul(1_664_525u32)).wrapping_add(
                key[j],
            ).wrapping_add(j as u32);
            i += 1;
            j += 1;
            if i >= N {
                self.mt[0] = self.mt[N - 1];
                i = 1;
            }
            if j >= key_length {
                j = 0;
            }
            k -= 1;
        }
        let ghost mt1 = self.mt@;
        let ghost i1 = i as int;
        let mut k: usize = N - 1;
        while k > 0
            invariant
                k <= N - 1,
                1 <= i < N,
                self.mt@.len() == 624,
                (self.mt@, i as int) == keying_pass2(mt1, i1, (N - 1 - k) as nat),
            decreases k,
        {
            let p = self.mt[i - 1];
            self.mt[i] = (self.mt[i] ^ (p ^ (p >> 30u32)).wrapping_mul(1_566_083_941u32)).wrapping_sub(
                i as u32,
            );
            i += 1;
            if i >= N {
                self.mt[0] = self.mt[N - 1];
                i = 1;
            }
            k -= 1;
        }
        self.mt[0] = 0x8000_0000;
        self.index = N;
    }

    /// Regenerates the block of 624 words (the twist).
    fn generate_block(&mut self)
        ensures
            final(self).mt@ == next_block(old(self).mt@),
            final(self).index == 0,
    {
        let ghost base = self.mt@;
        let mut kk: usize = 0;
        while kk < N - M
            invariant
                kk <= N - M,
                base.len() == 624,
                self.mt@.len() == 624,
                forall|t: int| 0 <= t < kk ==> self.mt@[t] == mt_word(base, (624 + t) as nat),
                forall|t: int| kk <= t < 624 ==> self.mt@[t] == base[t],
            decreases N - M - kk,
        {
            let v = twist(self.mt[kk + M], self.mt[kk], self.mt[kk + 1]);
            proof {
                lemma_mt_word_unfold(base, (624 + kk) as nat);
                lemma_mt_word_unfold(base, (kk + 397) as nat);
                lemma_mt_word_unfold(base, kk as nat);
                lemma_mt_word_unfold(base, (kk + 1) as nat);
            }
            self.mt[kk] = v;
            kk += 1;
        }
        while kk < N - 1
            invariant
                N - M <= kk <= N - 1,
                base.len() == 624,
                self.mt@.len() == 624,
                forall|t: int| 0 <= t < kk ==> self.mt@[t] == mt_word(base, (624 + t) as nat),
                forall|t: int| kk <= t < 624 ==> self.mt@[t] == base[t],
            decreases N - 1 - kk,
        {
            let v = twist(self.mt[kk + M - N], self.mt[kk], self.mt[kk + 1]);
            proof {
                lemma_mt_word_unfold(base, (624 + kk) as nat);
                lemma_mt_word_unfold(base, kk as nat);
                lemma_mt_word_unfold(base, (kk + 1) as nat);
            }
            self.mt[kk] = v;
            kk += 1;
        }
        let v = twist(self.mt[M - 1], self.mt[N - 1], self.mt[0]);
        proof {
            lemma_mt_word_unfold(base, 1247);
            lemma_mt_word_unfold(base, 623);
        }
        self.mt[N - 1] = v;
        self.index = 0;
        assert(self.mt@ =~= next_block(base));
    }

    /// One raw 32-bit output: the next value of the stream.
    pub fn genrand_uint32(&mut self) -> (r: u32)
        ensures
            r == old(self)@(0),
            final(self)@ == skip(old(self)@, 1),
    {
        let ghost s0 = self@;
        if self.index >= N {
            self.generate_block();
            assert forall|j: nat| #[trigger] self@(j) == s0(j) by {
                lemma_next_block_shift(old(self).mt@, j);
            }
            assert(self@ =~= s0);
        }
        let y = self.mt[self.index];
        self.index += 1;
        assert(self@ =~= skip(s0, 1));
        temper_exec(y)
    }

    /// `getrandbits(k)`: an integer of `k` random bits (CPython semantics,
    /// `k <= 64`).
    fn getrandbits(&mut self, k: u32) -> (r: u64)
        requires
            k <= 64,
        ensures
            r == getrandbits_value(old(self)@, k),
            final(self)@ == skip(old(self)@, words_for(k)),
    {
        let ghost s0 = self@;
        if k == 0 {
            assert(self@ =~= skip(s0, 0));
            return 0;
        }
        if k <= 32 {
            return (self.genrand_uint32() >> (32 - k)) as u64;
        }
        let lo = self.genrand_uint32() as u64;
        let hi = self.genrand_uint32() >> (64 - k);
        proof {
            lemma_skip_skip(s0, 1, 1);
        }
        lo | ((hi as u64) << 32u64)
    }

    /// `getrandbits(k)`: an integer of `k` random bits, `k <= 64`.
    pub fn getrandbits_pub(&mut self, k: u32) -> (r: u64)
        requires
            k <= 64,
        ensures
            r == getrandbits_value(old(self)@, k),
            final(self)@ == skip(old(self)@, words_for(k)),
            k < 64 ==> r < (1u64 << k),
    {
        let r = self.getrandbits(k);
        proof {
            if k < 64 {
                lemma_getrandbits_bound(old(self)@, k);
            }
        }
        r
    }

    /// `_randbelow(n)`: the first draw of `bit_length(n)` bits that is
    /// below `n` (rejection sampling); 0 when `n == 0`.
    pub(crate) fn randbelow(&mut self, n: u64) -> (r: u64)
        requires
            randbelow_terminates(old(self)@, n),
        ensures
            r == randbelow_value(old(self)@, n),
            final(self)@ == skip(old(self)@, randbelow_used(old(self)@, n)),
            n > 0 ==> r < n,
    {
        let ghost s0 = self@;
        if n == 0 {
            assert(self@ =~= skip(s0, 0));
            return 0;
        }
        proof {
            lemma_leading_zeros_bit_length(n);
        }
        let k = 64 - n.leading_zeros();
        assert(k == randbelow_bits(n));
        let ghost acc = below(n);
        let ghost w = words_for(k);
        let ghost first = accept_index(s0, k, acc);
        proof {
            lemma_accept_index(s0, k, acc);
            assert(self@ =~= skip(s0, 0 * w));
        }
        let ghost mut c: nat = 0;
        loop
            invariant
                s0 == old(self)@,
                n > 0,
                k == randbelow_bits(n),
                1 <= k <= 64,
                acc == below(n),
                w == words_for(k),
                first == accept_index(s0, k, acc),
                first_accepted(s0, k, acc, first),
                c <= first,
                self@ == skip(s0, c * w),
                forall|i: nat| i < c ==> !acc(#[trigger] draw(s0, k, i)),
            decreases first - c,
        {
            let r = self.getrandbits(k);
            proof {
                lemma_skip_skip(s0, c * w, w);
                assert(c * w + w == (c + 1) * w) by (nonlinear_arith);
                assert(r == draw(s0, k, c)) by {
                    lemma_skip_skip(s0, c * w, 0);
                    assert(skip(s0, c * w) =~= skip(skip(s0, c * w), 0));
                    lemma_draw_shift(s0, k, c, 0);
                }
            }
            if r < n {
                proof {
                    assert(acc(draw(s0, k, c)));
                    if c < first {
                        assert(!acc(draw(s0, k, c)));
                    }
                    assert(c == first);
                    assert(self@ == skip(s0, (first + 1) * w));
                    assert(r == draw(s0, k, first));
                }
                return r;
            }
            proof {
                c = c + 1;
            }
        }
    }

    /// The 53-bit integer behind `random()`: `(a >> 5) * 2**26 + (b >> 6)`
    /// for the next two outputs `a`, `b`. `random()` is this value divided
    /// by `2**53`, which is exact in `f64`.
    pub fn random_mantissa(&mut self) -> (r: u64)
        ensures
            r == random_mantissa_value(old(self)@),
            final(self)@ == skip(old(self)@, 2),
            r < 0x20_0000_0000_0000,
    {
        let ghost s0 = self@;
        let a = (self.genrand_uint32() >> 5u32) as u64;
        let b = (self.genrand_uint32() >> 6u32) as u64;
        proof {
            lemma_skip_skip(s0, 1, 1);
            let x = s0(0);
            let y = s0(1);
            assert(((x >> 5u32) as u64) * 0x400_0000 + ((y >> 6u32) as u64) < 0x20_0000_0000_0000)
                by (bit_vector);
        }
        a * 0x400_0000 + b
    }

    /// `randint(a, b)`: an integer in `[a, b]`, `a + _randbelow(b - a + 1)`.
    pub fn randint(&mut self, a: i64, b: i64) -> (r: i64)
        requires
            a <= b,
            b - a < i64::MAX,
            randbelow_terminates(old(self)@, (b - a + 1) as u64),
        ensures
            r == a + randbelow_value(old(self)@, (b - a + 1) as u64),
            final(self)@ == skip(old(self)@, randbelow_used(old(self)@, (b - a + 1) as u64)),
            a <= r <= b,
    {
        let n = (b - a + 1) as u64;
        a + self.randbelow(n) as i64
    }
}

/// Two generators built from the same seed produce the same outputs.
pub proof fn law_graine_determine_la_suite(a: PyRandom, b: PyRandom, seed: u64)
    requires
        a@ == seeded_stream(seed),
        b@ == seeded_stream(seed),
    ensures
        forall|j: nat| #[trigger] a@(j) == b@(j),
{
}

/// `randint(a, b)` draws only on `b - a`: shifting both bounds by `c`
/// shifts the result by `c` and consumes the same outputs.
pub proof fn law_randint_translation(s: Stream, a: i64, b: i64, c: i64)
    requires
        a <= b,
        b - a < i64::MAX,
        i64::MIN <= a + c,
        b + c <= i64::MAX,
    ensures
        (a + c) + randbelow_value(s, ((b + c) - (a + c) + 1) as u64) == (a + randbelow_value(
            s,
            (b - a + 1) as u64,
        )) + c,
        randbelow_used(s, ((b + c) - (a + c) + 1) as u64) == randbelow_used(s, (b - a + 1) as u64),
{
}

/// `getrandbits(k)` has at most `k` bits.
pub proof fn lemma_getrandbits_bound(s: Stream, k: u32)
    requires
        k < 64,
    ensures
        getrandbits_value(s, k) < (1u64 << k),
{
    let x = s(0);
    let y = s(1);
    if k == 0 {
        assert(0u64 < (1u64 << 0u32)) by (bit_vector);
    } else if k <= 32 {
        assert(((x >> ((32 - k) as u32)) as u64) < (1u64 << k)) by (bit_vector)
            requires
                1 <= k <= 32,
        ;
    } else {
        assert(((x as u64) | (((y >> ((64 - k) as u32)) as u64) << 32u64)) < (1u64 << k))
            by (bit_vector)
            requires
                32 < k < 64,
        ;
    }
}

/// The key of a seed is its expansion in base `2**32`, least significant
/// word first, with no leading zero word: one word below `2**32`, two words
/// above, and the words put back together give the seed.
pub proof fn law_cle_de_graine(s: u64)
    ensures
        seed_key(s).len() == (if s < 0x1_0000_0000 { 1nat } else { 2nat }),
        seed_key(s).len() == 1 ==> seed_key(s)[0] as int == s,
        seed_key(s).len() == 2 ==> seed_key(s)[0] as int + seed_key(s)[1] as int * 0x1_0000_0000
            == s && seed_key(s)[1] != 0,
{
}

/// Distinct seeds have distinct keys: seeds that differ only above bit 32
/// are keyed differently.
pub proof fn law_cles_distinctes(a: u64, b: u64)
    requires
        a != b,
    ensures
        seed_key(a) != seed_key(b),
{
    law_cle_de_graine(a);
    law_cle_de_graine(b);
    if seed_key(a) == seed_key(b) {
        assert(seed_key(a)[0] == seed_key(b)[0]);
        if seed_key(a).len() == 2 {
            assert(seed_key(a)[1] == seed_key(b)[1]);
        }
    }
}

proof fn lemma_bit_length_pow2(n: u64)
    requires
        n > 0,
    ensures
        1 <= bit_length(n) <= 64,
        pow2((bit_length(n) - 1) as nat) <= n < pow2(bit_length(n)),
    decreases n,
{
    lemma_leading_zeros_bit_length(n);
    let b = bit_length(n);
    if n == 1 {
        assert(bit_length(0) == 0);
        lemma_pow2_unfold(1);
        lemma2_to64();
    } else {
        let h = (n / 2) as u64;
        lemma_bit_length_pow2(h);
        assert(b == 1 + bit_length(h));
        lemma_pow2_unfold(b);
        lemma_pow2_unfold((b - 1) as nat);
    }
}

/// `_randbelow(n)` draws as many bits as `n` has (`n.bit_length()`): with
/// `k` bits per draw, `2**(k - 1) <= n < 2**k`, so a draw is accepted with
/// probability above one half, and `n` itself is reachable.
pub proof fn law_bits_randbelow(n: u64)
    requires
        n > 0,
    ensures
        1 <= randbelow_bits(n) <= 64,
        pow2((randbelow_bits(n) - 1) as nat) <= n < pow2(randbelow_bits(n) as nat),
{
    lemma_bit_length_pow2(n);
}

/// `getrandbits(k)` takes the top bits of the output words, filling words
/// from the least significant: up to 32 bits it is the top `k` bits of
/// `getrandbits(32)`; above, its low word is the first output and its high
/// word is `getrandbits(k - 32)` taken from the next output.
pub proof fn law_getrandbits_mots(s: Stream, k: u32)
    requires
        1 <= k <= 64,
    ensures
        k <= 32 ==> getrandbits_value(s, k) == getrandbits_value(s, 32) >> ((32 - k) as u64),
        k > 32 ==> getrandbits_value(s, k) % 0x1_0000_0000 == getrandbits_value(s, 32),
        k > 32 ==> getrandbits_value(s, k) / 0x1_0000_0000 == getrandbits_value(
            skip(s, 1),
            (k - 32) as u32,
        ),
{
    let x = s(0);
    let y = s(1);
    assert(skip(s, 1)(0) == y);
    if k <= 32 {
        assert(((x >> ((32 - k) as u32)) as u64) == ((x >> 0u32) as u64) >> ((32 - k) as u64))
            by (bit_vector)
            requires
                1 <= k <= 32,
        ;
    } else {
        let v = (x as u64) | (((y >> ((64 - k) as u32)) as u64) << 32u64);
        assert(v % 0x1_0000_0000 == ((x >> 0u32) as u64)) by (bit_vector)
            requires
                v == (x as u64) | (((y >> ((64 - k) as u32)) as u64) << 32u64),
        ;
        assert(v / 0x1_0000_0000 == ((y >> ((32 - (k - 32)) as u32)) as u64)) by (bit_vector)
            requires
                v == (x as u64) | (((y >> ((64 - k) as u32)) as u64) << 32u64),
                32 < k <= 64,
        ;
    }
}

} // verus!
