//! `random.sample`: drawing without replacement, in selection order.

use vstd::prelude::*;
use std::collections::HashSet;
use crate::sim::lemma_concat_contains;
use crate::rng::{
    accept_index, below, draw, first_accepted, lemma_accept_index, lemma_draw_shift,
    lemma_first_accepted_unique, lemma_skip_skip, randbelow_bits, randbelow_terminates,
    randbelow_used, randbelow_value, skip, some_accepted, words_for, PyRandom, Stream,
};

verus! {

broadcast use vstd::std_specs::hash::group_hash_axioms;

/// `4 ** e`.
pub open spec fn pow4(e: nat) -> nat
    decreases e,
{
    if e == 0 {
        1
    } else {
        4 * pow4((e - 1) as nat)
    }
}

/// The least power of 4 that is at least `x`.
pub open spec fn ceil_pow4(x: nat) -> nat
    decreases x,
{
    if x <= 1 {
        1
    } else {
        4 * ceil_pow4(((x + 3) / 4) as nat)
    }
}

/// CPython's `setsize`: 21, plus `4 ** ceil(log(3 * k, 4))` when `k > 5`.
/// Populations no larger than this are sampled from a pool.
pub open spec fn sample_set_size(k: nat) -> nat {
    if k > 5 {
        21 + ceil_pow4(3 * k)
    } else {
        21
    }
}

/// The pool method: at step `i`, draw `j = _randbelow(n - i)`, take
/// `pool[j]` and move the last unselected entry `pool[n - i - 1]` into its
/// place. Returns the picks of steps `i..k` and the stream left after them.
pub open spec fn pool_run(s: Stream, pool: Seq<usize>, n: nat, i: nat, k: nat) -> (Seq<usize>, Stream)
    decreases k - i,
{
    if i >= k {
        (Seq::empty(), s)
    } else {
        let m = (n - i) as u64;
        let j = randbelow_value(s, m) as int;
        let rest = pool_run(
            skip(s, randbelow_used(s, m)),
            pool.update(j, pool[n - i - 1]),
            n,
            i + 1,
            k,
        );
        (seq![pool[j]] + rest.0, rest.1)
    }
}

/// Every `_randbelow` of the pool method from step `i` returns.
pub open spec fn pool_terminates(s: Stream, n: nat, i: nat, k: nat) -> bool
    decreases k - i,
{
    i >= k || {
        let m = (n - i) as u64;
        randbelow_terminates(s, m) && pool_terminates(skip(s, randbelow_used(s, m)), n, i + 1, k)
    }
}

/// Acceptance test of the set method: below `n` and not yet selected.
pub open spec fn below_fresh(n: u64, sel: Set<u64>) -> spec_fn(u64) -> bool {
    |r: u64| r < n && !sel.contains(r)
}

/// The set method: each pick repeats `_randbelow(n)` until it gives an
/// index not yet selected. Returns the `left` picked indices and the
/// stream left after them.
pub open spec fn set_run(s: Stream, n: u64, sel: Set<u64>, left: nat) -> (Seq<u64>, Stream)
    decreases left,
{
    if left == 0 {
        (Seq::empty(), s)
    } else {
        let kb = randbelow_bits(n);
        let m = accept_index(s, kb, below_fresh(n, sel));
        let j = draw(s, kb, m);
        let rest = set_run(skip(s, (m + 1) * words_for(kb)), n, sel.insert(j), (left - 1) as nat);
        (seq![j] + rest.0, rest.1)
    }
}

/// Every pick of the set method finds a fresh index.
pub open spec fn set_terminates(s: Stream, n: u64, sel: Set<u64>, left: nat) -> bool
    decreases left,
{
    left == 0 || {
        let kb = randbelow_bits(n);
        let m = accept_index(s, kb, below_fresh(n, sel));
        let j = draw(s, kb, m);
        some_accepted(s, kb, below_fresh(n, sel)) && set_terminates(
            skip(s, (m + 1) * words_for(kb)),
            n,
            sel.insert(j),
            (left - 1) as nat,
        )
    }
}

/// `sample(population, k)` on the stream `s`: the sample, in selection
/// order, and the stream left after it.
pub open spec fn sample_spec(s: Stream, pop: Seq<usize>, k: nat) -> (Seq<usize>, Stream) {
    let n = pop.len();
    if k == 0 {
        (Seq::empty(), s)
    } else if n <= sample_set_size(k) {
        pool_run(s, pop, n, 0, k)
    } else {
        let picks = set_run(s, n as u64, Set::empty(), k);
        (picks.0.map_values(|j: u64| pop[j as int]), picks.1)
    }
}

/// Every rejection loop of `sample(population, k)` on `s` returns.
pub open spec fn sample_terminates(s: Stream, n: nat, k: nat) -> bool {
    k == 0 || (n <= sample_set_size(k) && pool_terminates(s, n, 0, k)) || (n > sample_set_size(k)
        && set_terminates(s, n as u64, Set::empty(), k))
}

/// `out` is drawn from `pop` without replacement: at distinct positions
/// `idx` of the population.
pub open spec fn drawn_without_replacement(idx: Seq<int>, pop: Seq<usize>, out: Seq<usize>) -> bool {
    &&& idx.len() == out.len()
    &&& forall|t: int|
        0 <= t < idx.len() ==> 0 <= #[trigger] idx[t] < pop.len() && out[t] == pop[idx[t]]
    &&& forall|a: int, b: int| 0 <= a < b < idx.len() ==> #[trigger] idx[a] != #[trigger] idx[b]
}

proof fn lemma_pow4_positive(e: nat)
    ensures
        pow4(e) >= 1,
    decreases e,
{
    if e > 0 {
        lemma_pow4_positive((e - 1) as nat);
    }
}

/// `pow4(e)` is the least power of 4 reaching `x` when the previous one
/// does not.
proof fn lemma_ceil_pow4(x: nat, e: nat)
    requires
        pow4(e) >= x,
        e == 0 || pow4((e - 1) as nat) < x,
    ensures
        ceil_pow4(x) == pow4(e),
    decreases e,
{
    if e == 0 {
    } else {
        let e1 = (e - 1) as nat;
        lemma_pow4_positive(e1);
        assert(x > 1);
        let y = ((x + 3) / 4) as nat;
        assert(pow4(e1) >= y);
        if e1 > 0 {
            assert(pow4(e1) == 4 * pow4((e1 - 1) as nat));
            assert(pow4((e1 - 1) as nat) < y);
        }
        lemma_ceil_pow4(y, e1);
    }
}

/// A population of at most 21 is sampled by the pool method, whatever the
/// sample's size.
pub proof fn law_methode_pool(s: Stream, pop: Seq<usize>, k: nat)
    requires
        1 <= k <= pop.len(),
        pop.len() <= 21,
    ensures
        sample_spec(s, pop, k) == pool_run(s, pop, pop.len(), 0, k),
{
    law_taille_ensemble(k);
    if k > 5 {
        lemma_ceil_pow4_min(3 * k);
    }
}

/// `ceil_pow4(x)` is the least power of 4 that is at least `x`.
proof fn lemma_ceil_pow4_min(x: nat)
    ensures
        ceil_pow4(x) >= x,
        exists|e: nat| ceil_pow4(x) == pow4(e),
        forall|f: nat| #[trigger] pow4(f) >= x ==> ceil_pow4(x) <= pow4(f),
    decreases x,
{
    if x <= 1 {
        assert(ceil_pow4(x) == pow4(0));
        assert forall|f: nat| #[trigger] pow4(f) >= x implies ceil_pow4(x) <= pow4(f) by {
            lemma_pow4_positive(f);
        }
    } else {
        let y = ((x + 3) / 4) as nat;
        lemma_ceil_pow4_min(y);
        let e = choose|e: nat| ceil_pow4(y) == pow4(e);
        assert(ceil_pow4(x) == pow4(e + 1));
        assert forall|f: nat| #[trigger] pow4(f) >= x implies ceil_pow4(x) <= pow4(f) by {
            if f == 0 {
                assert(pow4(0) == 1);
            } else {
                let f1 = (f - 1) as nat;
                assert(pow4(f) == 4 * pow4(f1));
                assert(pow4(f1) >= y);
            }
        }
    }
}

/// CPython's `setsize`: 21 for samples of at most 5; for larger samples,
/// 21 plus the least power of 4 that is at least `3 * k`.
pub proof fn law_taille_ensemble(k: nat)
    ensures
        k <= 5 ==> sample_set_size(k) == 21,
        k > 5 ==> {
            &&& sample_set_size(k) >= 21 + 3 * k
            &&& exists|e: nat| sample_set_size(k) == 21 + pow4(e)
            &&& forall|e: nat| #[trigger] pow4(e) >= 3 * k ==> sample_set_size(k) <= 21 + pow4(e)
        },
{
    if k > 5 {
        lemma_ceil_pow4_min(3 * k);
        let e = choose|e: nat| ceil_pow4(3 * k) == pow4(e);
        assert(sample_set_size(k) == 21 + pow4(e));
    }
}

/// A population of more than 21 sampled for at most 5 items is sampled by
/// the selection-set method: repeated `_randbelow(n)` with rejection of
/// indices already taken.
pub proof fn law_methode_ensemble(s: Stream, pop: Seq<usize>, k: nat)
    requires
        1 <= k <= 5,
        pop.len() > 21,
    ensures
        sample_spec(s, pop, k).0 == set_run(s, pop.len() as u64, Set::empty(), k).0.map_values(
            |j: u64| pop[j as int],
        ),
        sample_spec(s, pop, k).1 == set_run(s, pop.len() as u64, Set::empty(), k).1,
{
    law_taille_ensemble(k);
}

/// CPython's `setsize` for a sample of `k`.
fn set_size(k: usize) -> (r: u128)
    ensures
        r == sample_set_size(k as nat),
{
    if k <= 5 {
        return 21;
    }
    let x: u128 = 3 * (k as u128);
    let mut p: u128 = 1;
    let ghost mut e: nat = 0;
    while p < x
        invariant
            x == 3 * k,
            k > 5,
            p == pow4(e),
            1 <= p,
            e == 0 || pow4((e - 1) as nat) < x,
        decreases if p < x { x - p } else { 0 },
    {
        p = p * 4;
        proof {
            e = e + 1;
        }
    }
    proof {
        lemma_ceil_pow4(x as nat, e);
    }
    21 + p
}

/// The draws of `_randbelow(n)` started `c` draws into `s`.
proof fn lemma_randbelow_at(s: Stream, n: u64, c: nat)
    requires
        n > 0,
        randbelow_terminates(skip(s, c * words_for(randbelow_bits(n))), n),
    ensures
        ({
            let kb = randbelow_bits(n);
            let w = words_for(kb);
            let s1 = skip(s, c * w);
            let m = accept_index(s1, kb, below(n));
            &&& randbelow_value(s1, n) == draw(s, kb, c + m)
            &&& skip(s1, randbelow_used(s1, n)) == skip(s, (c + m + 1) * w)
            &&& draw(s, kb, c + m) < n
            &&& forall|i: nat| c <= i < c + m ==> #[trigger] draw(s, kb, i) >= n
        }),
{
    let kb = randbelow_bits(n);
    let w = words_for(kb);
    let s1 = skip(s, c * w);
    let m = accept_index(s1, kb, below(n));
    lemma_accept_index(s1, kb, below(n));
    lemma_draw_shift(s, kb, c, m);
    assert forall|i: nat| c <= i < c + m implies #[trigger] draw(s, kb, i) >= n by {
        lemma_draw_shift(s, kb, c, (i - c) as nat);
        assert(!below(n)(draw(s1, kb, (i - c) as nat)));
    }
    lemma_skip_skip(s, c * w, (m + 1) * w);
    assert(c * w + (m + 1) * w == (c + m + 1) * w) by (nonlinear_arith);
}

/// An accepted draw at or after `c` lets `_randbelow(n)` return from there.
proof fn lemma_terminates_from(s: Stream, n: u64, c: nat, f: nat)
    requires
        c <= f,
        draw(s, randbelow_bits(n), f) < n,
    ensures
        randbelow_terminates(skip(s, c * words_for(randbelow_bits(n))), n),
{
    let kb = randbelow_bits(n);
    lemma_draw_shift(s, kb, c, (f - c) as nat);
    assert(below(n)(draw(skip(s, c * words_for(kb)), kb, (f - c) as nat)));
}

/// `_randbelow(n)` returns a value below `n` when it returns.
pub proof fn lemma_randbelow_below(s: Stream, n: u64)
    requires
        n > 0,
        randbelow_terminates(s, n),
    ensures
        randbelow_value(s, n) < n,
{
    lemma_accept_index(s, randbelow_bits(n), below(n));
}

/// The pool method picks `k - i` entries of the pool.
proof fn lemma_pool_members(s: Stream, pool: Seq<usize>, pop: Seq<usize>, n: nat, i: nat, k: nat)
    requires
        pool.len() == n,
        i <= k <= n,
        n <= u64::MAX,
        pool_terminates(s, n, i, k),
        forall|t: int| 0 <= t < n ==> pop.contains(#[trigger] pool[t]),
    ensures
        pool_run(s, pool, n, i, k).0.len() == k - i,
        forall|x: usize| pool_run(s, pool, n, i, k).0.contains(x) ==> pop.contains(x),
    decreases k - i,
{
    if i < k {
        let m = (n - i) as u64;
        lemma_randbelow_below(s, m);
        let j = randbelow_value(s, m) as int;
        let pool2 = pool.update(j, pool[n - i - 1]);
        assert(pop.contains(pool[j]));
        assert forall|t: int| 0 <= t < n implies pop.contains(#[trigger] pool2[t]) by {
            if t == j {
                assert(pop.contains(pool[n - i - 1]));
            } else {
                assert(pop.contains(pool[t]));
            }
        }
        lemma_pool_members(skip(s, randbelow_used(s, m)), pool2, pop, n, i + 1, k);
        let rest = pool_run(skip(s, randbelow_used(s, m)), pool2, n, i + 1, k).0;
        assert forall|x: usize| (seq![pool[j]] + rest).contains(x) implies pop.contains(x) by {
            lemma_concat_contains(seq![pool[j]], rest, x);
            if seq![pool[j]].contains(x) {
                let t = choose|t: int| 0 <= t < 1 && seq![pool[j]][t] == x;
                assert(x == pool[j]);
            }
        }
    }
}

/// The set method picks `left` indices below `n`.
proof fn lemma_set_members(s: Stream, n: u64, sel: Set<u64>, left: nat)
    requires
        set_terminates(s, n, sel, left),
    ensures
        set_run(s, n, sel, left).0.len() == left,
        forall|t: int| 0 <= t < left ==> #[trigger] set_run(s, n, sel, left).0[t] < n,
    decreases left,
{
    if left > 0 {
        let kb = randbelow_bits(n);
        let acc = below_fresh(n, sel);
        let m = accept_index(s, kb, acc);
        let j = draw(s, kb, m);
        lemma_accept_index(s, kb, acc);
        assert(acc(j));
        lemma_set_members(skip(s, (m + 1) * words_for(kb)), n, sel.insert(j), (left - 1) as nat);
        let rest = set_run(skip(s, (m + 1) * words_for(kb)), n, sel.insert(j), (left - 1) as nat).0;
        assert forall|t: int| 0 <= t < left implies #[trigger] (seq![j] + rest)[t] < n by {
            if t > 0 {
                assert((seq![j] + rest)[t] == rest[t - 1]);
            }
        }
    }
}

/// `sample(population, k)` picks `k` entries of the population.
pub proof fn lemma_sample_members(s: Stream, pop: Seq<usize>, k: nat)
    requires
        k <= pop.len(),
        pop.len() <= u64::MAX,
        sample_terminates(s, pop.len(), k),
    ensures
        sample_spec(s, pop, k).0.len() == k,
        forall|x: usize| sample_spec(s, pop, k).0.contains(x) ==> pop.contains(x),
{
    let n = pop.len();
    if k == 0 {
    } else if n <= sample_set_size(k) {
        assert forall|t: int| 0 <= t < n implies pop.contains(#[trigger] pop[t]) by {}
        lemma_pool_members(s, pop, pop, n, 0, k);
    } else {
        lemma_set_members(s, n as u64, Set::empty(), k);
        let picks = set_run(s, n as u64, Set::empty(), k).0;
        let out = picks.map_values(|j: u64| pop[j as int]);
        assert forall|x: usize| out.contains(x) implies pop.contains(x) by {
            let t = choose|t: int| 0 <= t < out.len() && out[t] == x;
            assert(picks[t] < n);
            assert(pop[picks[t] as int] == x);
        }
    }
}

/// The selection-set method never picks an index twice, nor one already
/// selected.
proof fn lemma_set_distinct(s: Stream, n: u64, sel: Set<u64>, left: nat)
    requires
        set_terminates(s, n, sel, left),
    ensures
        forall|a: int| 0 <= a < left ==> !sel.contains(#[trigger] set_run(s, n, sel, left).0[a]),
        forall|a: int, b: int|
            0 <= a < b < left ==> #[trigger] set_run(s, n, sel, left).0[a] != #[trigger] set_run(
                s,
                n,
                sel,
                left,
            ).0[b],
    decreases left,
{
    if left > 0 {
        let kb = randbelow_bits(n);
        let acc = below_fresh(n, sel);
        let m = accept_index(s, kb, acc);
        let j = draw(s, kb, m);
        lemma_accept_index(s, kb, acc);
        assert(acc(j));
        let s2 = skip(s, (m + 1) * words_for(kb));
        lemma_set_distinct(s2, n, sel.insert(j), (left - 1) as nat);
        lemma_set_members(s2, n, sel.insert(j), (left - 1) as nat);
        let rest = set_run(s2, n, sel.insert(j), (left - 1) as nat).0;
        let out = seq![j] + rest;
        assert(set_run(s, n, sel, left).0 == out);
        assert forall|a: int| 0 <= a < left implies !sel.contains(#[trigger] out[a]) by {
            if a > 0 {
                assert(out[a] == rest[a - 1]);
                assert(!sel.insert(j).contains(rest[a - 1]));
            }
        }
        assert forall|a: int, b: int| 0 <= a < b < left implies #[trigger] out[a] != #[trigger] out[b] by {
            assert(out[b] == rest[b - 1]);
            assert(!sel.insert(j).contains(rest[b - 1]));
            if a > 0 {
                assert(out[a] == rest[a - 1]);
            }
        }
    }
}

/// A sample of a population without repeated items repeats no item.
pub proof fn lemma_sample_distinct(s: Stream, pop: Seq<usize>, k: nat)
    requires
        k <= pop.len(),
        pop.len() <= u64::MAX,
        pop.no_duplicates(),
        sample_terminates(s, pop.len(), k),
    ensures
        sample_spec(s, pop, k).0.no_duplicates(),
{
    let n = pop.len();
    if k == 0 {
    } else if n <= sample_set_size(k) {
        lemma_pool_distinct(s, pop, n, 0, k);
    } else {
        lemma_set_distinct(s, n as u64, Set::empty(), k);
        lemma_set_members(s, n as u64, Set::empty(), k);
        let picks = set_run(s, n as u64, Set::empty(), k).0;
        let out = picks.map_values(|j: u64| pop[j as int]);
        assert forall|a: int, b: int| 0 <= a < out.len() && 0 <= b < out.len() && a != b implies out[a]
            != out[b] by {
            if a < b {
                assert(picks[a] != picks[b]);
            } else {
                assert(picks[b] != picks[a]);
            }
        }
    }
}

/// `0, 1, ..., n - 1`.
pub open spec fn range_seq(n: nat) -> Seq<usize> {
    Seq::new(n, |i: int| i as usize)
}

/// The pool method draws the same positions whatever the pool holds.
proof fn lemma_pool_map(s: Stream, pool: Seq<usize>, f: spec_fn(usize) -> usize, n: nat, i: nat, k: nat)
    requires
        pool.len() == n,
        i <= k <= n,
        n <= u64::MAX,
        pool_terminates(s, n, i, k),
    ensures
        pool_run(s, pool.map_values(f), n, i, k).0 == pool_run(s, pool, n, i, k).0.map_values(f),
        pool_run(s, pool.map_values(f), n, i, k).1 == pool_run(s, pool, n, i, k).1,
    decreases k - i,
{
    if i < k {
        let m = (n - i) as u64;
        lemma_randbelow_below(s, m);
        let j = randbelow_value(s, m) as int;
        let s2 = skip(s, randbelow_used(s, m));
        let pool2 = pool.update(j, pool[n - i - 1]);
        let fpool = pool.map_values(f);
        assert(fpool.update(j, fpool[n - i - 1]) =~= pool2.map_values(f));
        lemma_pool_map(s2, pool2, f, n, i + 1, k);
        let rest = pool_run(s2, pool2, n, i + 1, k).0;
        assert(seq![fpool[j]] + rest.map_values(f) =~= (seq![pool[j]] + rest).map_values(f));
    } else {
        assert(Seq::<usize>::empty().map_values(f) =~= Seq::<usize>::empty());
    }
}

/// The draws of `sample` depend only on the size of the population and on
/// `k`: sampling a population is sampling its indices `0..n` and reading
/// the population at them, and leaves the generator in the same state.
pub proof fn law_sample_indices(s: Stream, pop: Seq<usize>, k: nat)
    requires
        k <= pop.len(),
        pop.len() <= usize::MAX,
        sample_terminates(s, pop.len(), k),
    ensures
        sample_spec(s, pop, k).0 == sample_spec(s, range_seq(pop.len()), k).0.map_values(
            |j: usize| pop[j as int],
        ),
        sample_spec(s, pop, k).1 == sample_spec(s, range_seq(pop.len()), k).1,
{
    let n = pop.len();
    let idx = range_seq(n);
    let f = |j: usize| pop[j as int];
    if k == 0 {
        assert(Seq::<usize>::empty().map_values(f) =~= Seq::<usize>::empty());
    } else if n <= sample_set_size(k) {
        assert(idx.map_values(f) =~= pop);
        lemma_pool_map(s, idx, f, n, 0, k);
    } else {
        lemma_set_members(s, n as u64, Set::empty(), k);
        let picks = set_run(s, n as u64, Set::empty(), k).0;
        assert forall|t: int| 0 <= t < picks.len() implies #[trigger] picks[t] < n by {}
        assert(picks.map_values(|j: u64| pop[j as int]) =~= picks.map_values(
            |j: u64| idx[j as int],
        ).map_values(f));
    }
}

/// The pool method picks distinct entries of the unselected prefix of a
/// pool whose prefix holds distinct values.
proof fn lemma_pool_distinct(s: Stream, pool: Seq<usize>, n: nat, i: nat, k: nat)
    requires
        pool.len() == n,
        i <= k <= n,
        n <= u64::MAX,
        pool_terminates(s, n, i, k),
        forall|a: int, b: int| 0 <= a < b < n - i ==> #[trigger] pool[a] != #[trigger] pool[b],
    ensures
        pool_run(s, pool, n, i, k).0.len() == k - i,
        forall|a: int, b: int|
            0 <= a < b < k - i ==> #[trigger] pool_run(s, pool, n, i, k).0[a] != #[trigger] pool_run(
                s,
                pool,
                n,
                i,
                k,
            ).0[b],
        forall|a: int|
            0 <= a < k - i ==> exists|b: int| 0 <= b < n - i && #[trigger] pool_run(s, pool, n, i, k).0[a] == pool[b],
    decreases k - i,
{
    if i < k {
        let m = (n - i) as u64;
        lemma_randbelow_below(s, m);
        let j = randbelow_value(s, m) as int;
        let s2 = skip(s, randbelow_used(s, m));
        let pool2 = pool.update(j, pool[n - i - 1]);
        assert forall|a: int, b: int| 0 <= a < b < n - i - 1 implies #[trigger] pool2[a] != #[trigger] pool2[b] by {
            assert(pool[a] != pool[n - i - 1]);
            assert(pool[b] != pool[n - i - 1]);
        }
        lemma_pool_distinct(s2, pool2, n, i + 1, k);
        let rest = pool_run(s2, pool2, n, i + 1, k).0;
        let out = seq![pool[j]] + rest;
        assert forall|a: int| 0 <= a < k - i - 1 implies exists|b: int| 0 <= b < n - i && #[trigger] rest[a] == pool[b] && b != j by {
            let b = choose|b: int| 0 <= b < n - i - 1 && rest[a] == pool2[b];
            if b == j {
                assert(rest[a] == pool[n - i - 1]);
            } else {
                assert(rest[a] == pool[b]);
            }
        }
        assert forall|a: int, b: int| 0 <= a < b < k - i implies #[trigger] out[a] != #[trigger] out[b] by {
            if a == 0 {
                let c = choose|c: int| 0 <= c < n - i && rest[b - 1] == pool[c] && c != j;
                assert(pool[j] != pool[c]);
            } else {
                assert(out[a] == rest[a - 1]);
                assert(out[b] == rest[b - 1]);
            }
        }
        assert forall|a: int| 0 <= a < k - i implies exists|b: int| 0 <= b < n - i && #[trigger] out[a] == pool[b] by {
            if a == 0 {
                assert(out[0] == pool[j]);
            } else {
                assert(out[a] == rest[a - 1]);
            }
        }
    }
}

/// Sampling all `n` entries of a small population takes each of them.
pub proof fn lemma_sample_all(s: Stream, pop: Seq<usize>)
    requires
        1 <= pop.len() <= 5,
        sample_terminates(s, pop.len(), pop.len()),
    ensures
        forall|y: usize| pop.contains(y) <==> sample_spec(s, pop, pop.len()).0.contains(y),
{
    broadcast use vstd::seq_lib::seq_to_set_is_finite;

    let n = pop.len();
    law_sample_indices(s, pop, n);
    lemma_sample_members(s, pop, n);
    let idx = range_seq(n);
    let out_idx = pool_run(s, idx, n, 0, n).0;
    lemma_pool_distinct(s, idx, n, 0, n);
    assert forall|y: usize| pop.contains(y) implies sample_spec(s, pop, n).0.contains(y) by {
        let a = choose|a: int| 0 <= a < n && pop[a] == y;
        if !out_idx.contains(a as usize) {
            out_idx.unique_seq_to_set();
            assert forall|v: usize| out_idx.to_set().contains(v) implies idx.to_set().remove(a as usize).contains(v) by {
                let t = choose|t: int| 0 <= t < out_idx.len() && out_idx[t] == v;
                let b = choose|b: int| 0 <= b < n && out_idx[t] == idx[b];
                assert(idx[b] == v);
            }
            assert(idx.no_duplicates());
            idx.unique_seq_to_set();
            assert(idx.to_set().contains(a as usize)) by {
                assert(idx[a] == a as usize);
            }
            vstd::set_lib::lemma_len_subset(out_idx.to_set(), idx.to_set().remove(a as usize));
        }
        let t = choose|t: int| 0 <= t < out_idx.len() && out_idx[t] == a as usize;
        assert(sample_spec(s, pop, n).0[t] == y);
    }
}

impl PyRandom {
    /// `random.sample(population, k)`: `k` entries drawn without
    /// replacement, in selection order (CPython's algorithm: a pool for
    /// small populations, a selection set otherwise).
    pub fn sample(&mut self, population: &[usize], k: usize) -> (r: Vec<usize>)
        requires
            k <= population@.len(),
            sample_terminates(old(self)@, population@.len(), k as nat),
        ensures
            r@ == sample_spec(old(self)@, population@, k as nat).0,
            final(self)@ == sample_spec(old(self)@, population@, k as nat).1,
            r@.len() == k,
            exists|idx: Seq<int>| drawn_without_replacement(idx, population@, r@),
    {
        let n = population.len();
        if k == 0 {
            let r: Vec<usize> = Vec::new();
            assert(drawn_without_replacement(Seq::empty(), population@, r@));
            return r;
        }
        let setsize = set_size(k);
        if (n as u128) <= setsize {
            self.sample_pool(population, k)
        } else {
            self.sample_set(population, k)
        }
    }

    fn sample_pool(&mut self, population: &[usize], k: usize) -> (r: Vec<usize>)
        requires
            k <= population@.len(),
            pool_terminates(old(self)@, population@.len(), 0, k as nat),
        ensures
            r@ == pool_run(old(self)@, population@, population@.len(), 0, k as nat).0,
            final(self)@ == pool_run(old(self)@, population@, population@.len(), 0, k as nat).1,
            r@.len() == k,
            exists|idx: Seq<int>| drawn_without_replacement(idx, population@, r@),
    {
        let n = population.len();
        let ghost pop = population@;
        let ghost total = pool_run(self@, pop, n as nat, 0, k as nat);
        let mut pool = vstd::slice::slice_to_vec(population);
        let mut result: Vec<usize> = Vec::new();
        let ghost mut pidx: Seq<int> = Seq::new(n as nat, |t: int| t);
        let ghost mut chosen: Seq<int> = Seq::empty();
        let mut i: usize = 0;
        assert(result@ + pool_run(self@, pool@, n as nat, 0, k as nat).0 =~= total.0);
        while i < k
            invariant
                n == pop.len(),
                pop == population@,
                k <= n,
                i <= k,
                total == pool_run(old(self)@, pop, n as nat, 0, k as nat),
                pool@.len() == n,
                result@ + pool_run(self@, pool@, n as nat, i as nat, k as nat).0 == total.0,
                pool_run(self@, pool@, n as nat, i as nat, k as nat).1 == total.1,
                pool_terminates(self@, n as nat, i as nat, k as nat),
                result@.len() == i,
                chosen.len() == i,
                pidx.len() == n,
                forall|t: int|
                    0 <= t < n - i ==> 0 <= #[trigger] pidx[t] < n && pool@[t] == pop[pidx[t]],
                forall|a: int, b: int|
                    0 <= a < b < n - i ==> #[trigger] pidx[a] != #[trigger] pidx[b],
                forall|t: int|
                    0 <= t < i ==> 0 <= #[trigger] chosen[t] < n && result@[t] == pop[chosen[t]],
                forall|a: int, b: int| 0 <= a < b < i ==> #[trigger] chosen[a] != #[trigger] chosen[b],
                forall|a: int, b: int|
                    0 <= a < i && 0 <= b < n - i ==> #[trigger] chosen[a] != #[trigger] pidx[b],
            decreases k - i,
        {
            let ghost s1 = self@;
            let ghost pool1 = pool@;
            let ghost res1 = result@;
            let j = self.randbelow((n - i) as u64) as usize;
            let picked = pool[j];
            result.push(picked);
            let last = pool[n - i - 1];
            pool.set(j, last);
            proof {
                let rest = pool_run(self@, pool@, n as nat, (i + 1) as nat, k as nat);
                assert(pool@ == pool1.update(j as int, pool1[n - i - 1]));
                assert(pool_run(s1, pool1, n as nat, i as nat, k as nat).0 == seq![pool1[j as int]]
                    + rest.0);
                assert(result@ + rest.0 =~= res1 + (seq![pool1[j as int]] + rest.0));
                let cj = pidx[j as int];
                let old_pidx = pidx;
                let old_chosen = chosen;
                chosen = chosen.push(cj);
                pidx = pidx.update(j as int, pidx[n - i - 1]);
                assert forall|a: int, b: int|
                    0 <= a < b < n - i - 1 implies #[trigger] pidx[a] != #[trigger] pidx[b] by {
                    assert(old_pidx[a] != old_pidx[n - i - 1]);
                    assert(old_pidx[b] != old_pidx[n - i - 1]);
                }
                assert forall|a: int, b: int|
                    0 <= a < i + 1 && 0 <= b < n - i - 1 implies #[trigger] chosen[a]
                    != #[trigger] pidx[b] by {
                    if a < i {
                        assert(old_chosen[a] != old_pidx[b]);
                        assert(old_chosen[a] != old_pidx[n - i - 1]);
                    } else {
                        if b != j {
                            assert(old_pidx[j as int] != old_pidx[b]);
                        } else {
                            assert(old_pidx[j as int] != old_pidx[n - i - 1]);
                        }
                    }
                }
                assert forall|a: int, b: int|
                    0 <= a < b < i + 1 implies #[trigger] chosen[a] != #[trigger] chosen[b] by {
                    if b == i {
                        assert(old_chosen[a] != old_pidx[j as int]);
                    }
                }
            }
            i += 1;
        }
        assert(result@ =~= total.0);
        assert(drawn_without_replacement(chosen, pop, result@));
        result
    }

    /// One pick of the set method: `_randbelow(n)` repeated until it gives
    /// an index not yet selected.
    fn tirer_frais(&mut self, nn: u64, selected: &HashSet<usize>, Ghost(sel): Ghost<Set<u64>>) -> (j: usize)
        requires
            nn > 0,
            nn <= usize::MAX,
            forall|x: usize| x < nn ==> #[trigger] selected@.contains(x) == sel.contains(x as u64),
            some_accepted(old(self)@, randbelow_bits(nn), below_fresh(nn, sel)),
        ensures
            ({
                let kb = randbelow_bits(nn);
                let m = accept_index(old(self)@, kb, below_fresh(nn, sel));
                &&& j as u64 == draw(old(self)@, kb, m)
                &&& final(self)@ == skip(old(self)@, (m + 1) * words_for(kb))
            }),
            j < nn,
            !sel.contains(j as u64),
    {
        let ghost st = self@;
        let ghost kb = randbelow_bits(nn);
        let ghost w = words_for(kb);
        let ghost acc = below_fresh(nn, sel);
        let ghost mf = accept_index(st, kb, acc);
        proof {
            lemma_accept_index(st, kb, acc);
            assert(draw(st, kb, mf) < nn);
            lemma_terminates_from(st, nn, 0, mf);
            assert(st =~= skip(st, 0 * w));
            lemma_randbelow_at(st, nn, 0);
        }
        let mut j = self.randbelow(nn) as usize;
        let ghost mut c: nat = accept_index(st, kb, below(nn)) + 1;
        proof {
            assert forall|i: nat| i < c - 1 implies !acc(#[trigger] draw(st, kb, i)) by {
                assert(draw(st, kb, i) >= nn);
            }
            if mf < c - 1 {
                assert(!acc(draw(st, kb, mf)));
            }
        }
        while selected.contains(&j)
            invariant
                nn > 0,
                nn <= usize::MAX,
                kb == randbelow_bits(nn),
                w == words_for(kb),
                forall|x: usize| x < nn ==> #[trigger] selected@.contains(x) == sel.contains(x as u64),
                acc == below_fresh(nn, sel),
                mf == accept_index(st, kb, acc),
                first_accepted(st, kb, acc, mf),
                c >= 1,
                c - 1 <= mf,
                self@ == skip(st, c * w),
                j < nn,
                j == draw(st, kb, (c - 1) as nat),
                forall|i: nat| i < c - 1 ==> !acc(#[trigger] draw(st, kb, i)),
            decreases mf + 1 - c,
        {
            proof {
                assert(sel.contains(j as u64));
                assert(!acc(draw(st, kb, (c - 1) as nat)));
                lemma_terminates_from(st, nn, c, mf);
                lemma_randbelow_at(st, nn, c);
            }
            let ghost m1 = accept_index(skip(st, c * w), kb, below(nn));
            j = self.randbelow(nn) as usize;
            proof {
                assert forall|i: nat| i < c + m1 implies !acc(#[trigger] draw(st, kb, i)) by {
                    if i >= c {
                        assert(draw(st, kb, i) >= nn);
                    }
                }
                if mf < c + m1 {
                    assert(!acc(draw(st, kb, mf)));
                }
                c = c + m1 + 1;
            }
        }
        proof {
            assert(acc(draw(st, kb, (c - 1) as nat)));
            if (c - 1) as nat != mf {
                lemma_first_accepted_unique(st, kb, acc, (c - 1) as nat, mf);
            }
        }
        j
    }

    fn sample_set(&mut self, population: &[usize], k: usize) -> (r: Vec<usize>)
        requires
            k <= population@.len(),
            population@.len() > 0,
            set_terminates(old(self)@, population@.len() as u64, Set::empty(), k as nat),
        ensures
            r@ == set_run(old(self)@, population@.len() as u64, Set::empty(), k as nat).0.map_values(
                |j: u64| population@[j as int],
            ),
            final(self)@ == set_run(old(self)@, population@.len() as u64, Set::empty(), k as nat).1,
            r@.len() == k,
            exists|idx: Seq<int>| drawn_without_replacement(idx, population@, r@),
    {
        let n = population.len();
        let nn = n as u64;
        let ghost pop = population@;
        let ghost total = set_run(self@, nn, Set::empty(), k as nat);
        let mut selected: HashSet<usize> = HashSet::with_capacity(k);
        let mut result: Vec<usize> = Vec::new();
        let ghost mut sel: Set<u64> = Set::empty();
        let ghost mut picks: Seq<u64> = Seq::empty();
        let mut t: usize = 0;
        assert(picks + set_run(self@, nn, sel, k as nat).0 =~= total.0);
        while t < k
            invariant
                n == pop.len(),
                nn == n,
                n > 0,
                pop == population@,
                k <= n,
                t <= k,
                total == set_run(old(self)@, nn, Set::empty(), k as nat),
                picks + set_run(self@, nn, sel, (k - t) as nat).0 == total.0,
                set_run(self@, nn, sel, (k - t) as nat).1 == total.1,
                set_terminates(self@, nn, sel, (k - t) as nat),
                forall|x: usize| x < n ==> #[trigger] selected@.contains(x) == sel.contains(x as u64),
                forall|v: u64| #[trigger] sel.contains(v) ==> v < nn,
                picks.len() == t,
                result@.len() == t,
                forall|a: int|
                    0 <= a < t ==> #[trigger] picks[a] < nn && result@[a] == pop[picks[a] as int]
                        && sel.contains(picks[a]),
                forall|a: int, b: int| 0 <= a < b < t ==> #[trigger] picks[a] != #[trigger] picks[b],
            decreases k - t,
        {
            let ghost st = self@;
            let j = self.tirer_frais(nn, &selected, Ghost(sel));
            selected.insert(j);
            result.push(population[j]);
            proof {
                let old_sel = sel;
                let old_picks = picks;
                let rest = set_run(self@, nn, sel.insert(j as u64), (k - t - 1) as nat);
                assert(set_run(st, nn, sel, (k - t) as nat).0 == seq![j as u64] + rest.0);
                assert(picks.push(j as u64) + rest.0 =~= picks + (seq![j as u64] + rest.0));
                sel = sel.insert(j as u64);
                picks = picks.push(j as u64);
                assert forall|a: int, b: int| 0 <= a < b < t + 1 implies #[trigger] picks[a]
                    != #[trigger] picks[b] by {
                    if b == t {
                        assert(old_sel.contains(old_picks[a]));
                    }
                }
            }
            t += 1;
        }
        let ghost idx = picks.map_values(|v: u64| v as int);
        assert(picks =~= total.0);
        assert(result@ =~= total.0.map_values(|j: u64| pop[j as int]));
        assert(drawn_without_replacement(idx, pop, result@));
        result
    }
}

} // verus!
