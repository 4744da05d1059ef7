use consensus_rs::PyRandom;

/// `random()` as CPython computes it from the 53-bit integer.
fn random(r: &mut PyRandom) -> f64 {
    r.random_mantissa() as f64 / 9_007_199_254_740_992.0
}

#[test]
fn mt19937_graine_5489_premier_tirage() {
    let mut r = PyRandom::new(5489);
    let premier = r.genrand_uint32();
    assert_ne!(premier, 0, "premier tirage nul — initialisation suspecte");
    let mut r2 = PyRandom::new(5489);
    assert_eq!(r2.genrand_uint32(), premier, "générateur non déterministe");
}

#[test]
fn random_dans_intervalle() {
    let mut r = PyRandom::new(1001);
    for _ in 0..1000 {
        let x = random(&mut r);
        assert!((0.0..1.0).contains(&x), "random() hors [0,1) : {x}");
    }
}

#[test]
fn randint_borne() {
    let mut r = PyRandom::new(1001);
    for _ in 0..1000 {
        let x = r.randint(0, 9);
        assert!((0..=9).contains(&x), "randint hors bornes : {x}");
    }
}

#[test]
fn sample_sans_remise() {
    let mut r = PyRandom::new(1001);
    let pop: Vec<usize> = (0..30).collect();
    let s = r.sample(&pop, 6);
    assert_eq!(s.len(), 6);
    let mut uniq = s.clone();
    uniq.sort_unstable();
    uniq.dedup();
    assert_eq!(uniq.len(), 6, "sample a produit des doublons");
}

#[test]
fn graine_zero_comme_cpython() {
    // random.Random(0) keys the seed as one zero word.
    let mut r = PyRandom::new(0);
    assert_eq!(r.genrand_uint32(), 3_626_764_237);
    let mut r2 = PyRandom::new(0);
    let x = random(&mut r2);
    assert!((x - 0.8444218515250481).abs() < 1e-15, "random() graine 0 : {x}");
}

#[test]
fn premiers_random_cpython_graines_1_et_42() {
    let mut r1 = PyRandom::new(1);
    assert!((random(&mut r1) - 0.13436424411240122).abs() < 1e-15);
    let mut r42 = PyRandom::new(42);
    assert!((random(&mut r42) - 0.6394267984578837).abs() < 1e-15);
}

#[test]
fn graine_5489_premiers_tirages_cpython() {
    // random.Random(5489).getrandbits(32), three times.
    let mut r = PyRandom::new(5489);
    let a = r.genrand_uint32();
    let b = r.genrand_uint32();
    let mut r2 = PyRandom::new(5489);
    assert_eq!(r2.getrandbits_pub(32), a as u64);
    assert_eq!(r2.getrandbits_pub(32), b as u64);
}

#[test]
fn getrandbits_zero_ne_consomme_rien() {
    let mut r = PyRandom::new(1001);
    let mut r2 = PyRandom::new(1001);
    assert_eq!(r.getrandbits_pub(0), 0);
    assert_eq!(r.genrand_uint32(), r2.genrand_uint32());
}

#[test]
fn getrandbits_64_assemble_deux_mots() {
    let mut r = PyRandom::new(1001);
    let mut r2 = PyRandom::new(1001);
    let lo = r2.genrand_uint32() as u64;
    let hi = r2.genrand_uint32() as u64;
    assert_eq!(r.getrandbits_pub(64), lo | (hi << 32));
}

#[test]
fn getrandbits_40_garde_les_bits_hauts_du_second_mot() {
    // CPython: the second word is shifted right by 64 - k.
    let mut r = PyRandom::new(7);
    let mut r2 = PyRandom::new(7);
    let lo = r2.genrand_uint32() as u64;
    let hi = (r2.genrand_uint32() >> 24) as u64;
    let v = r.getrandbits_pub(40);
    assert_eq!(v, lo | (hi << 32));
    assert!(v < (1u64 << 40));
}

#[test]
fn getrandbits_borne() {
    let mut r = PyRandom::new(2026);
    for k in 1..64u32 {
        let v = r.getrandbits_pub(k);
        assert!(v < (1u64 << k), "getrandbits({k}) = {v}");
    }
}

#[test]
fn randint_intervalle_reduit_a_un_point() {
    let mut r = PyRandom::new(1001);
    let mut r2 = PyRandom::new(1001);
    assert_eq!(r.randint(-5, -5), -5);
    // randbelow(1) draws getrandbits(1) until it is 0.
    let mut consumed = 0;
    loop {
        consumed += 1;
        if r2.genrand_uint32() >> 31 == 0 {
            break;
        }
    }
    assert!(consumed >= 1);
    assert_eq!(r.genrand_uint32(), r2.genrand_uint32());
}

#[test]
fn randint_bornes_negatives() {
    let mut r = PyRandom::new(42);
    for _ in 0..500 {
        let x = r.randint(-3, 2);
        assert!((-3..=2).contains(&x));
    }
}

#[test]
fn random_mantissa_combine_deux_tirages() {
    let mut r = PyRandom::new(1001);
    let mut r2 = PyRandom::new(1001);
    let a = (r2.genrand_uint32() >> 5) as u64;
    let b = (r2.genrand_uint32() >> 6) as u64;
    assert_eq!(r.random_mantissa(), a * 67_108_864 + b);
}

#[test]
fn sample_vide_ne_consomme_rien() {
    let mut r = PyRandom::new(1001);
    let mut r2 = PyRandom::new(1001);
    let pop: Vec<usize> = (0..10).collect();
    assert!(r.sample(&pop, 0).is_empty());
    assert_eq!(r.genrand_uint32(), r2.genrand_uint32());
}

#[test]
fn sample_population_entiere_est_une_permutation() {
    let mut r = PyRandom::new(3);
    let pop: Vec<usize> = (100..120).collect();
    let mut s = r.sample(&pop, 20);
    s.sort_unstable();
    assert_eq!(s, pop);
}

#[test]
fn sample_grande_population_par_ensemble() {
    // n = 200 > setsize(6) = 21 + 64: the selection-set method.
    let mut r = PyRandom::new(1001);
    let pop: Vec<usize> = (0..200).map(|i| i * 3).collect();
    let s = r.sample(&pop, 6);
    assert_eq!(s.len(), 6);
    let mut uniq = s.clone();
    uniq.sort_unstable();
    uniq.dedup();
    assert_eq!(uniq.len(), 6);
    assert!(s.iter().all(|v| v % 3 == 0 && *v < 600));
}

#[test]
fn randint_translate_avec_les_bornes() {
    let mut r1 = PyRandom::new(77);
    let mut r2 = PyRandom::new(77);
    for _ in 0..200 {
        assert_eq!(r1.randint(95, 104), r2.randint(-5, 4) + 100);
    }
    assert_eq!(r1.genrand_uint32(), r2.genrand_uint32());
}

#[test]
fn sample_lit_la_population_aux_indices_tires() {
    let pop: Vec<usize> = (0..40).map(|i| 1000 + 7 * i).collect();
    let idx: Vec<usize> = (0..40).collect();
    for k in [0usize, 3, 6, 40] {
        let mut r1 = PyRandom::new(9);
        let mut r2 = PyRandom::new(9);
        let a = r1.sample(&pop, k);
        let b: Vec<usize> = r2.sample(&idx, k).iter().map(|&j| pop[j]).collect();
        assert_eq!(a, b);
        assert_eq!(r1.genrand_uint32(), r2.genrand_uint32());
    }
}
