//! Guaranteed convergence: with reliable, immediate delivery, no removal
//! and no partition, every agent forwards its state to all its neighbours
//! each period, so the largest initial state spreads one cell per period
//! and every run agrees within the grid's diameter.

use vstd::prelude::*;
use vstd::arithmetic::div_mod::{
    lemma_fundamental_div_mod, lemma_fundamental_div_mod_converse, lemma_mod_bound,
};
use crate::duplication::lemma_agent_effet;
use crate::sim::{
    etat_le, law_fusion_upper_bound, lemma_voisins_contains, voisins_spec, Etat, GRID_H, GRID_W,
    N,
};
use crate::simulation::{
    appliquer_spec, avant_periodes, cibles_spec, emettre_agent, emettre_rest, en_attente,
    etat_initial, init_rest, law_convergence_implique_accord, lemma_init_cadre, livrer_spec,
    periode_spec, resultat_spec, retrait_programme, run_from, selectionne, sim_final,
    valeur_commune_spec, Cote, Params, SimState,
};

verus! {

/// Manhattan distance between two cells of the grid.
pub open spec fn distance(a: int, b: int) -> nat {
    let dx = a % 6 - b % 6;
    let dy = a / 6 - b / 6;
    ((if dx >= 0 { dx } else { -dx }) + (if dy >= 0 { dy } else { -dy })) as nat
}

/// Index of a largest state among the first `n`.
pub open spec fn indice_max(etat: Seq<Etat>, n: nat) -> int
    decreases n,
{
    if n <= 1 {
        0
    } else {
        let k = indice_max(etat, (n - 1) as nat);
        if etat_le(etat[n - 1], etat[k]) {
            k
        } else {
            n - 1
        }
    }
}

/// Every agent is active and no message is in flight.
pub open spec fn plein(st: SimState) -> bool {
    &&& st.etat.len() == N
    &&& st.actifs.len() == N
    &&& st.en_vol.len() == N
    &&& forall|a: int| 0 <= a < N ==> #[trigger] st.actifs[a]
    &&& forall|a: int| 0 <= a < N ==> #[trigger] st.en_vol[a].len() == 0
}

/// No state exceeds `m`, and the cells within distance `r` of `z` hold `m`.
pub open spec fn diffuse(etat: Seq<Etat>, m: Etat, z: int, r: int) -> bool {
    &&& forall|y: int| 0 <= y < N ==> etat_le(#[trigger] etat[y], m)
    &&& forall|y: int| 0 <= y < N && distance(y, z) <= r ==> #[trigger] etat[y] == m
}

proof fn lemma_indice_max(etat: Seq<Etat>, n: nat)
    requires
        1 <= n <= etat.len(),
    ensures
        0 <= indice_max(etat, n) < n,
        forall|y: int| 0 <= y < n ==> etat_le(#[trigger] etat[y], etat[indice_max(etat, n)]),
    decreases n,
{
    if n > 1 {
        lemma_indice_max(etat, (n - 1) as nat);
    }
}

/// Column and row of a cell of the grid.
proof fn lemma_cellule(y: int)
    requires
        0 <= y < N,
    ensures
        y == 6 * (y / 6) + y % 6,
        0 <= y % 6 < 6,
        0 <= y / 6 < 5,
{
    lemma_fundamental_div_mod(y, 6);
    lemma_mod_bound(y, 6);
}

/// Two cells of the grid lie at most 9 apart, and at distance 0 only when
/// they are the same.
proof fn lemma_distance(y: int, z: int)
    requires
        0 <= y < N,
        0 <= z < N,
    ensures
        distance(y, z) <= 9,
        distance(y, z) == 0 ==> y == z,
{
    lemma_cellule(y);
    lemma_cellule(z);
}

/// A cell away from `z` has a neighbour one step closer to `z`, and that
/// neighbour sends to it.
proof fn lemma_voisin_plus_proche(y: int, z: int)
    requires
        0 <= y < N,
        0 <= z < N,
        y != z,
    ensures
        exists|j: int|
            0 <= j < N && #[trigger] voisins_spec(j as usize, GRID_W, GRID_H).contains(y as usize)
                && distance(j, z) + 1 == distance(y, z),
{
    lemma_cellule(y);
    lemma_cellule(z);
    let x = y % 6;
    let r = y / 6;
    let j: int = if x < z % 6 {
        y + 1
    } else if x > z % 6 {
        y - 1
    } else if r < z / 6 {
        y + 6
    } else {
        y - 6
    };
    if x < z % 6 {
        lemma_fundamental_div_mod_converse(j, 6, r, x + 1);
    } else if x > z % 6 {
        lemma_fundamental_div_mod_converse(j, 6, r, x - 1);
    } else if r < z / 6 {
        lemma_fundamental_div_mod_converse(j, 6, r + 1, x);
    } else {
        assert(r != z / 6) by {
            if r == z / 6 {
                assert(y == z);
            }
        }
        lemma_fundamental_div_mod_converse(j, 6, r - 1, x);
    }
    lemma_voisins_contains(j as usize, GRID_W, GRID_H, y as usize);
    assert(voisins_spec(j as usize, GRID_W, GRID_H).contains(y as usize));
}

/// After agents `i..N` emit, each cell holds, among the states received,
/// those of every agent that sends to it, and nothing above `m`.
proof fn lemma_emettre_diffuse(st: SimState, i: nat, t: nat, p: Params, m: Etat)
    requires
        i <= N,
        plein(st),
        st.nouveaux.len() == N,
        emettre_rest(st, i, t, p).ok,
        p.seuil_perte == 0,
        !p.partition,
        p.latence == 0,
        p.duplication >= 1,
        forall|y: int| 0 <= y < N ==> etat_le(#[trigger] st.etat[y], m),
        forall|y: int| 0 <= y < N ==> (#[trigger] st.nouveaux[y] matches Some(v) ==> etat_le(v, m)),
        forall|j: int, y: int|
            0 <= j < i && 0 <= y < N && #[trigger] voisins_spec(j as usize, GRID_W, GRID_H).contains(
                y as usize,
            ) ==> (st.nouveaux[y] matches Some(v) && etat_le(st.etat[j], v)),
    ensures
        ({
            let r = emettre_rest(st, i, t, p);
            &&& plein(r)
            &&& r.nouveaux.len() == N
            &&& r.etat == st.etat
            &&& r.actifs == st.actifs
            &&& r.conv == st.conv
            &&& r.divergence == st.divergence
            &&& forall|y: int| 0 <= y < N ==> (#[trigger] r.nouveaux[y] matches Some(v) ==> etat_le(v, m))
            &&& forall|j: int, y: int|
                0 <= j < N && 0 <= y < N && #[trigger] voisins_spec(j as usize, GRID_W, GRID_H).contains(
                    y as usize,
                ) ==> (r.nouveaux[y] matches Some(v) && etat_le(st.etat[j], v))
        }),
    decreases N - i,
{
    if i < N {
        assert(st.ok);
        let iu = i as usize;
        let a1 = emettre_agent(st, iu, t, p);
        assert(emettre_rest(a1, i + 1, t, p).ok ==> a1.ok);
        let c = cibles_spec(iu, t, p);
        assert(c == voisins_spec(iu, GRID_W, GRID_H));
        lemma_cellule(i as int);
        assert(c.len() > 0);
        assert(st.actifs[i as int]);
        lemma_agent_effet(st, iu, t, p);
        assert forall|a: int| 0 <= a < N implies #[trigger] a1.en_vol[a].len() == 0 by {
            if a1.en_vol[a].len() > 0 {
                assert(a1.en_vol[a].contains(a1.en_vol[a][0]));
            }
        }
        let e = st.etat[i as int];
        assert forall|y: int| 0 <= y < N implies {
            &&& (#[trigger] a1.nouveaux[y] matches Some(v) ==> etat_le(v, m))
            &&& (c.contains(y as usize) ==> (a1.nouveaux[y] matches Some(w) && etat_le(e, w)))
            &&& (st.nouveaux[y] matches Some(v0) ==> (a1.nouveaux[y] matches Some(w) && etat_le(v0, w)))
        } by {
            if c.contains(y as usize) {
                match st.nouveaux[y] {
                    Some(v0) => {
                        law_fusion_upper_bound(v0, e);
                    },
                    None => {},
                }
            }
        }
        assert forall|j: int, y: int|
            0 <= j < i + 1 && 0 <= y < N && #[trigger] voisins_spec(j as usize, GRID_W, GRID_H).contains(
                y as usize,
            ) implies (a1.nouveaux[y] matches Some(v) && etat_le(a1.etat[j], v)) by {
            if j < i {
                assert(st.nouveaux[y] matches Some(v) && etat_le(st.etat[j], v));
                assert(a1.nouveaux[y] matches Some(w) && etat_le(st.nouveaux[y].unwrap(), w));
            } else {
                assert(j == i);
                assert(c.contains(y as usize));
                assert(a1.nouveaux[y] matches Some(w) && etat_le(e, w));
            }
        }
        lemma_emettre_diffuse(a1, i + 1, t, p, m);
    }
}

/// One period spreads `m` one cell further, and records convergence once
/// every cell holds it.
proof fn lemma_periode_diffuse(st: SimState, t: nat, p: Params, m: Etat, z: int)
    requires
        t >= 1,
        0 <= z < N,
        plein(st),
        periode_spec(st, t, p).ok,
        p.seuil_perte == 0,
        p.retrait == 0,
        !p.partition,
        p.latence == 0,
        p.duplication >= 1,
        diffuse(st.etat, m, z, t - 1),
        st.conv is None,
    ensures
        ({
            let r = periode_spec(st, t, p);
            &&& plein(r)
            &&& diffuse(r.etat, m, z, t as int)
            &&& r.conv is None || r.conv == Some(t as usize)
            &&& (forall|y: int| 0 <= y < N ==> #[trigger] r.etat[y] == m) ==> r.conv == Some(t as usize)
        }),
{
    assert(retrait_programme(st, t, p) == st);
    let l = livrer_spec(st, t);
    assert(l.etat =~= st.etat);
    assert forall|a: int| 0 <= a < N implies #[trigger] l.en_vol[a].len() == 0 by {
        assert(en_attente(st.en_vol[a], t).len() == 0);
    }
    let e0 = SimState { nouveaux: Seq::new(N as nat, |d: int| None), ..l };
    lemma_emettre_diffuse(e0, 0, t, p, m);
    let r2 = emettre_rest(e0, 0, t, p);
    let ap = appliquer_spec(r2);
    assert forall|y: int| 0 <= y < N implies etat_le(#[trigger] ap.etat[y], m) && (distance(y, z)
        <= t ==> ap.etat[y] == m) by {
        match r2.nouveaux[y] {
            Some(v) => {
                law_fusion_upper_bound(st.etat[y], v);
            },
            None => {},
        }
        if distance(y, z) <= t && distance(y, z) > t - 1 {
            lemma_distance(y, z);
            lemma_voisin_plus_proche(y, z);
            let j = choose|j: int|
                0 <= j < N && #[trigger] voisins_spec(j as usize, GRID_W, GRID_H).contains(y as usize)
                    && distance(j, z) + 1 == distance(y, z);
            assert(st.etat[j] == m);
            assert(r2.nouveaux[y] matches Some(v) && etat_le(m, v));
        }
    }
    let r = periode_spec(st, t, p);
    assert(r.etat == ap.etat);
    if forall|y: int| 0 <= y < N ==> #[trigger] r.etat[y] == m {
        assert(ap.actifs[0] && selectionne(Cote::Tous, 0));
        assert(valeur_commune_spec(ap.etat, ap.actifs, Cote::Tous) is Some);
    }
}

/// A run started with `m` held within distance `t - 1` of `z` converges by
/// period 9.
proof fn lemma_run_diffuse(st: SimState, t: nat, p: Params, m: Etat, z: int)
    requires
        1 <= t <= 9,
        0 <= z < N,
        p.max_periodes >= 9,
        plein(st),
        run_from(st, t, p).ok,
        p.seuil_perte == 0,
        p.retrait == 0,
        !p.partition,
        p.latence == 0,
        p.duplication >= 1,
        diffuse(st.etat, m, z, t - 1),
        st.conv is None,
    ensures
        run_from(st, t, p).conv matches Some(c) && t <= c <= 9,
    decreases 9 - t,
{
    assert(st.ok);
    let st1 = periode_spec(st, t, p);
    assert(run_from(st1, t + 1, p).ok ==> st1.ok);
    assert(st1.ok);
    lemma_periode_diffuse(st, t, p, m, z);
    if st1.conv is None {
        if t == 9 {
            assert forall|y: int| 0 <= y < N implies #[trigger] st1.etat[y] == m by {
                lemma_distance(y, z);
            }
        } else {
            lemma_run_diffuse(st1, t + 1, p, m, z);
        }
    }
}

/// Gossip converges: with no loss, no latency, no removal and no partition,
/// every agent hears each period from all its neighbours, so the largest
/// initial state reaches every cell within the grid's diameter, 9 periods.
/// A run of at least 9 periods therefore converges at some period `c` with
/// `1 <= c <= 9`, and ends in agreement.
pub proof fn law_convergence_garantie(seed: u64, p: Params)
    requires
        p.seuil_perte == 0,
        p.retrait == 0,
        !p.partition,
        p.latence == 0,
        p.duplication >= 1,
        p.max_periodes >= 9,
        sim_final(seed, p).ok,
    ensures
        resultat_spec(seed, p).periode_convergence matches Some(c) && 1 <= c <= 9,
        resultat_spec(seed, p).accord,
{
    let s0 = etat_initial(seed);
    lemma_init_cadre(s0, 0);
    let st = avant_periodes(seed, p);
    assert(st == init_rest(s0, 0));
    assert(run_from(st, 1, p).ok ==> st.ok);
    assert(st.ok);
    assert forall|a: int| 0 <= a < N implies #[trigger] st.en_vol[a].len() == 0 by {
        assert(st.en_vol[a] == s0.en_vol[a]);
    }
    assert forall|a: int| 0 <= a < N implies #[trigger] st.actifs[a] by {
        assert(st.actifs[a] == s0.actifs[a]);
    }
    let z = indice_max(st.etat, N as nat);
    lemma_indice_max(st.etat, N as nat);
    let m = st.etat[z];
    assert forall|y: int| 0 <= y < N && distance(y, z) <= 0 implies #[trigger] st.etat[y] == m by {
        lemma_distance(y, z);
    }
    lemma_run_diffuse(st, 1, p, m, z);
    law_convergence_implique_accord(seed, p);
}

} // verus!
