//! Message traffic: without removal or partition, every agent contacts all
//! its neighbours each period, so a period sends one message per copy
//! along each of the 98 directed links of the 6 × 5 grid, lost or not.

use vstd::prelude::*;
use crate::duplication::lemma_cibles;
use crate::sample::{lemma_sample_members, sample_spec, sample_terminates};
use crate::sim::{voisins_spec, GRID_H, GRID_W, N};
use crate::simulation::{
    avant_periodes, cibles_spec, copies_rest, dests_rest, emettre_agent, emettre_rest, envoi,
    etat_initial, init_rest, law_messages_exacts, lemma_dests_cadre, lemma_emettre_cadre,
    lemma_init_cadre, livrer_spec, nb_dests, periode_spec, resultat_spec, retrait_programme,
    run_from, sim_final, Params, SimState,
};

verus! {

/// Number of directed links from agents `i..N` to their grid neighbours.
pub open spec fn liens_depuis(i: nat) -> nat
    decreases N - i,
{
    if i >= N {
        0
    } else {
        voisins_spec(i as usize, GRID_W, GRID_H).len() + liens_depuis(i + 1)
    }
}

/// The grid has 98 directed links.
proof fn lemma_liens()
    ensures
        liens_depuis(0) == 98,
{
    reveal_with_fuel(liens_depuis, 31);
}

proof fn lemma_copies_compte(st: SimState, i: usize, d: usize, c: nat, t: nat, p: Params)
    requires
        copies_rest(st, i, d, c, t, p).ok,
        c <= p.duplication,
    ensures
        copies_rest(st, i, d, c, t, p).messages == st.messages + (p.duplication - c),
    decreases p.duplication - c,
{
    if c < p.duplication {
        assert(st.ok);
        let st1 = envoi(st, i, d, t, p);
        assert(copies_rest(st1, i, d, c + 1, t, p).ok ==> st1.ok);
        lemma_copies_compte(st1, i, d, c + 1, t, p);
    }
}

proof fn lemma_dests_compte(st: SimState, i: usize, dests: Seq<usize>, k: nat, t: nat, p: Params)
    requires
        dests_rest(st, i, dests, k, t, p).ok,
        k <= dests.len(),
    ensures
        dests_rest(st, i, dests, k, t, p).messages == st.messages + (dests.len() - k) * p.duplication,
    decreases dests.len() - k,
{
    if k < dests.len() {
        assert(st.ok);
        let st1 = copies_rest(st, i, dests[k as int], 0, t, p);
        assert(dests_rest(st1, i, dests, k + 1, t, p).ok ==> st1.ok);
        lemma_copies_compte(st, i, dests[k as int], 0, t, p);
        lemma_dests_compte(st1, i, dests, k + 1, t, p);
        let n: int = dests.len() - (k + 1);
        assert(p.duplication + n * p.duplication == (n + 1) * p.duplication) by (nonlinear_arith);
        assert(n + 1 == dests.len() - k);
    } else {
        assert((dests.len() - k) * p.duplication == 0) by (nonlinear_arith)
            requires
                dests.len() == k,
        ;
    }
}

/// Emission by agents `i..N`, all active: one message per copy and link.
proof fn lemma_emettre_compte(st: SimState, i: nat, t: nat, p: Params)
    requires
        i <= N,
        emettre_rest(st, i, t, p).ok,
        !p.partition,
        st.actifs.len() == N,
        forall|a: int| 0 <= a < N ==> #[trigger] st.actifs[a],
    ensures
        emettre_rest(st, i, t, p).messages == st.messages + liens_depuis(i) * p.duplication,
    decreases N - i,
{
    if i < N {
        assert(st.ok);
        let iu = i as usize;
        let a1 = emettre_agent(st, iu, t, p);
        assert(emettre_rest(a1, i + 1, t, p).ok ==> a1.ok);
        let c = cibles_spec(iu, t, p);
        assert(c == voisins_spec(iu, GRID_W, GRID_H));
        assert(i % 6 < 6);
        assert(c.len() > 0);
        assert(st.actifs[i as int]);
        lemma_cibles(iu, t, p);
        let k = nb_dests(c.len());
        assert(k == c.len());
        let picked = sample_spec(st.rng, c, k);
        let am = SimState { rng: picked.1, ok: sample_terminates(st.rng, c.len(), k), ..st };
        assert(dests_rest(am, iu, picked.0, 0, t, p).ok ==> am.ok);
        lemma_sample_members(st.rng, c, k);
        lemma_dests_compte(am, iu, picked.0, 0, t, p);
        lemma_dests_cadre(am, iu, picked.0, 0, t, p);
        assert(a1 == dests_rest(am, iu, picked.0, 0, t, p));
        assert(a1.messages == st.messages + c.len() * p.duplication);
        lemma_emettre_compte(a1, i + 1, t, p);
        assert(liens_depuis(i) == c.len() + liens_depuis(i + 1));
        assert(c.len() * p.duplication + liens_depuis(i + 1) * p.duplication == (c.len()
            + liens_depuis(i + 1)) * p.duplication) by (nonlinear_arith);
    } else {
        assert(liens_depuis(i) * p.duplication == 0) by (nonlinear_arith)
            requires
                liens_depuis(i) == 0,
        ;
    }
}

/// One period without removal or partition sends `98 * duplication`
/// messages and keeps every agent active.
proof fn lemma_periode_compte(st: SimState, t: nat, p: Params)
    requires
        periode_spec(st, t, p).ok,
        p.retrait == 0,
        !p.partition,
        st.actifs.len() == N,
        forall|a: int| 0 <= a < N ==> #[trigger] st.actifs[a],
    ensures
        periode_spec(st, t, p).messages == st.messages + 98 * p.duplication,
        periode_spec(st, t, p).actifs == st.actifs,
        periode_spec(st, t, p).conv == st.conv || periode_spec(st, t, p).conv == Some(t as usize),
{
    assert(retrait_programme(st, t, p) == st);
    let e = SimState { nouveaux: Seq::new(N as nat, |d: int| None), ..livrer_spec(st, t) };
    lemma_emettre_cadre(e, 0, t, p);
    lemma_emettre_compte(e, 0, t, p);
    lemma_liens();
}

/// A run from period `t` on sends `98 * duplication` messages per period
/// it runs.
proof fn lemma_run_compte(st: SimState, t: nat, p: Params)
    requires
        run_from(st, t, p).ok,
        1 <= t <= p.max_periodes + 1,
        p.retrait == 0,
        !p.partition,
        st.conv is None,
        st.actifs.len() == N,
        forall|a: int| 0 <= a < N ==> #[trigger] st.actifs[a],
    ensures
        ({
            let f = run_from(st, t, p);
            let fin: int = match f.conv {
                Some(c) => c as int,
                None => p.max_periodes as int,
            };
            f.messages == st.messages + 98 * p.duplication * (fin - (t - 1))
        }),
    decreases p.max_periodes + 1 - t,
{
    if t <= p.max_periodes {
        assert(st.ok);
        let st1 = periode_spec(st, t, p);
        assert(run_from(st1, t + 1, p).ok ==> st1.ok);
        assert(st1.ok);
        lemma_periode_compte(st, t, p);
        if st1.conv is None {
            lemma_run_compte(st1, t + 1, p);
            let f = run_from(st1, t + 1, p);
            let fin: int = match f.conv {
                Some(c) => c as int,
                None => p.max_periodes as int,
            };
            assert(98 * p.duplication + 98 * p.duplication * (fin - t) == 98 * p.duplication * (fin
                - (t - 1))) by (nonlinear_arith);
        } else {
            assert(st1.conv == Some(t as usize));
        }
    } else {
        let zero: int = p.max_periodes - (t - 1);
        assert(98 * p.duplication * zero == 0) by (nonlinear_arith)
            requires
                zero == 0,
        ;
    }
}

/// Traffic is fixed by the run's length: without removal or partition,
/// every period sends one message per copy along each of the grid's 98
/// directed links, lost or not, so a run sends `98 * duplication` messages
/// for each period up to convergence (or up to `max_periodes`).
pub proof fn law_trafic(seed: u64, p: Params)
    requires
        sim_final(seed, p).ok,
        p.retrait == 0,
        !p.partition,
    ensures
        resultat_spec(seed, p).messages == 98 * p.duplication * (match resultat_spec(
            seed,
            p,
        ).periode_convergence {
            Some(c) => c as int,
            None => p.max_periodes as int,
        }),
{
    let s0 = etat_initial(seed);
    lemma_init_cadre(s0, 0);
    let st = avant_periodes(seed, p);
    assert(st == init_rest(s0, 0));
    assert forall|a: int| 0 <= a < N implies #[trigger] st.actifs[a] by {
        assert(st.actifs[a] == s0.actifs[a]);
    }
    law_messages_exacts(seed, p);
    lemma_run_compte(st, 1, p);
}

} // verus!
