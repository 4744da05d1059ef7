//! The gossip consensus simulation on the 6 × 5 grid.
//!
//! Each period, scheduled removals are applied, messages whose arrival
//! period has come are merged, then every active agent sends its state to a
//! random subset of its neighbours (fanout 6), with per-message loss,
//! duplication and latency. The run stops at the first period where all
//! active agents hold the same value.
//!
//! The random loss test `random() < perte` is carried by an integer: a
//! message is lost when the 53-bit integer behind `random()` is below
//! `seuil_perte`, which is `ceil(perte * 2**53)`.

use vstd::prelude::*;
use std::collections::HashSet;
use crate::rng::{
    randbelow_terminates, randbelow_used, randbelow_value, random_mantissa_value, seeded_stream,
    skip, PyRandom, Stream,
};
use crate::sample::{
    lemma_randbelow_below, lemma_sample_distinct, lemma_sample_members, range_seq, sample_spec, sample_terminates,
};
use crate::sim::{fusion, fusion_spec, voisins, voisins_spec, Etat, FANOUT, GRID_H, GRID_W, N};

verus! {

broadcast use vstd::std_specs::hash::group_hash_axioms;

/// Parameters of a run.
#[derive(Debug, Clone, Copy)]
pub struct Params {
    /// A message is lost when the 53-bit draw behind `random()` is below
    /// this threshold (`ceil(perte * 2**53)` for a loss probability `perte`).
    pub seuil_perte: u64,
    /// Number of copies of each message.
    pub duplication: usize,
    /// Number of agents removed.
    pub retrait: usize,
    /// Left/right partition active during the first half of the run.
    pub partition: bool,
    /// Maximal number of simulated periods.
    pub max_periodes: usize,
    /// Latency in periods (0: delivered in the same period).
    pub latence: usize,
    /// Period of the removal (`None`: at initialisation).
    pub t_retrait: Option<usize>,
    /// Forces a real divergence between the two halves.
    pub forcer_divergence: bool,
}

impl Default for Params {
    fn default() -> (p: Params)
        ensures
            p == (Params {
                seuil_perte: 0,
                duplication: 1,
                retrait: 0,
                partition: false,
                max_periodes: 200,
                latence: 0,
                t_retrait: None,
                forcer_divergence: false,
            }),
    {
        Params {
            seuil_perte: 0,
            duplication: 1,
            retrait: 0,
            partition: false,
            max_periodes: 200,
            latence: 0,
            t_retrait: None,
            forcer_divergence: false,
        }
    }
}

/// Outcome of a run.
#[derive(Debug, Clone, Copy, PartialEq, Eq)]
pub struct Resultat {
    /// Period of convergence (`None` if the run did not converge).
    pub periode_convergence: Option<usize>,
    /// All active agents share the same value at the end.
    pub accord: bool,
    /// Number of messages sent.
    pub messages: u64,
    /// Number of active agents at the end.
    pub taille_etat: usize,
    /// Periods from the end of the partition to convergence, when measured.
    pub periode_refusion: Option<usize>,
    /// Both halves had converged to different values when the partition ended.
    pub divergence_reelle: bool,
}

/// The state of a run, as a mathematical value. `ok` is false once a
/// rejection loop would never return or a counter would overflow.
#[verifier::ext_equal]
pub struct SimState {
    /// Future outputs of the generator.
    pub rng: Stream,
    /// State of each agent.
    pub etat: Seq<Etat>,
    /// Which agents are still active.
    pub actifs: Seq<bool>,
    /// Messages in flight to each agent: (arrival period, state).
    pub en_vol: Seq<Seq<(usize, Etat)>>,
    /// States received by each agent during the current period.
    pub nouveaux: Seq<Option<Etat>>,
    /// Number of messages sent.
    pub messages: nat,
    /// A real divergence was seen when the partition ended.
    pub divergence: bool,
    /// Period of convergence.
    pub conv: Option<usize>,
    /// Periods from the end of the partition to convergence.
    pub refusion: Option<usize>,
    /// Every loop so far returned and no counter overflowed.
    pub ok: bool,
}

/// Cell `i` belongs to the left half of the grid.
pub open spec fn gauche(i: int) -> bool {
    i % 6 < 3
}

/// Period at which the partition ends.
pub open spec fn fin_partition(p: Params) -> nat {
    (p.max_periodes / 2) as nat
}

/// The merge of two present states.
pub open spec fn fus(a: Etat, b: Etat) -> Etat {
    fusion_spec(Some(a), Some(b)).unwrap()
}

/// Which agents a check looks at.
pub enum Cote {
    /// Every agent.
    Tous,
    /// The left half.
    Gauche,
    /// The right half.
    Droite,
}

/// Agent `i` is looked at by `c`.
pub open spec fn selectionne(c: Cote, i: int) -> bool {
    match c {
        Cote::Tous => true,
        Cote::Gauche => gauche(i),
        Cote::Droite => !gauche(i),
    }
}

/// The value all active agents selected by `c` share, if there is one
/// such agent and they agree.
pub open spec fn valeur_commune_spec(etat: Seq<Etat>, actifs: Seq<bool>, c: Cote) -> Option<i32> {
    if exists|i: int| 0 <= i < N && actifs[i] && selectionne(c, i) {
        let i0 = choose|i: int| 0 <= i < N && actifs[i] && selectionne(c, i);
        if forall|j: int|
            0 <= j < N && actifs[j] && selectionne(c, j) ==> #[trigger] etat[j].0 == etat[i0].0 {
            Some(etat[i0].0)
        } else {
            None
        }
    } else {
        None
    }
}

/// Number of active agents among the first `i`.
pub open spec fn nb_actifs(actifs: Seq<bool>, i: nat) -> nat
    decreases i,
{
    if i == 0 {
        0
    } else {
        nb_actifs(actifs, (i - 1) as nat) + if actifs[i - 1] { 1nat } else { 0nat }
    }
}

/// Indices of the active agents among the first `i`, in increasing order.
pub open spec fn liste_actifs(actifs: Seq<bool>, i: nat) -> Seq<usize>
    decreases i,
{
    if i == 0 {
        Seq::empty()
    } else {
        let r = liste_actifs(actifs, (i - 1) as nat);
        if actifs[i - 1] {
            r.push((i - 1) as usize)
        } else {
            r
        }
    }
}

/// The state before the initial draws.
pub open spec fn etat_initial(seed: u64) -> SimState {
    SimState {
        rng: seeded_stream(seed),
        etat: Seq::empty(),
        actifs: Seq::new(N as nat, |i: int| true),
        en_vol: Seq::new(N as nat, |i: int| Seq::empty()),
        nouveaux: Seq::new(N as nat, |i: int| None),
        messages: 0,
        divergence: false,
        conv: None,
        refusion: None,
        ok: true,
    }
}

/// Initial values: agent `i` gets `(randint(0, 9), 0)`, for `i` from `n` on.
pub open spec fn init_rest(st: SimState, n: nat) -> SimState
    decreases N - n,
{
    if !st.ok || n >= N {
        st
    } else {
        let v = randbelow_value(st.rng, 10);
        init_rest(
            SimState {
                rng: skip(st.rng, randbelow_used(st.rng, 10)),
                etat: st.etat.push((v as i32, 0u32)),
                ok: randbelow_terminates(st.rng, 10),
                ..st
            },
            n + 1,
        )
    }
}

/// Removes `sample(pop, k)` from the active agents.
pub open spec fn retirer_spec(st: SimState, pop: Seq<usize>, k: nat) -> SimState {
    if !st.ok {
        st
    } else {
        let picked = sample_spec(st.rng, pop, k);
        SimState {
            rng: picked.1,
            actifs: Seq::new(
                st.actifs.len(),
                |x: int| st.actifs[x] && !picked.0.contains(x as usize),
            ),
            ok: sample_terminates(st.rng, pop.len(), k),
            ..st
        }
    }
}

/// Largest value among the left cells of the first `i`.
pub open spec fn max_gauche(etat: Seq<Etat>, i: nat) -> Option<i32>
    decreases i,
{
    if i == 0 {
        None
    } else {
        let m = max_gauche(etat, (i - 1) as nat);
        let x = i - 1;
        if gauche(x) {
            match m {
                None => Some(etat[x].0),
                Some(v) => Some(if v >= etat[x].0 { v } else { etat[x].0 }),
            }
        } else {
            m
        }
    }
}

/// Caps the right half strictly below the maximum of the left half.
pub open spec fn forcer_spec(st: SimState) -> SimState {
    let mg: int = match max_gauche(st.etat, N as nat) {
        Some(v) => v as int,
        None => 0,
    };
    SimState {
        etat: Seq::new(
            st.etat.len(),
            |x: int|
                if gauche(x) {
                    st.etat[x]
                } else {
                    ((if st.etat[x].0 <= mg - 1 { st.etat[x].0 as int } else { mg - 1 }) as i32, 0u32)
                },
        ),
        ..st
    }
}

/// The state after merging, in order, the messages of `q` that have arrived
/// by period `t`.
pub open spec fn livre(e: Etat, q: Seq<(usize, Etat)>, t: nat) -> Etat
    decreases q.len(),
{
    if q.len() == 0 {
        e
    } else {
        let e1 = livre(e, q.drop_last(), t);
        if q.last().0 <= t {
            fus(e1, q.last().1)
        } else {
            e1
        }
    }
}

/// The messages of `q` still in flight after period `t`.
pub open spec fn en_attente(q: Seq<(usize, Etat)>, t: nat) -> Seq<(usize, Etat)>
    decreases q.len(),
{
    if q.len() == 0 {
        Seq::empty()
    } else {
        let r = en_attente(q.drop_last(), t);
        if q.last().0 <= t {
            r
        } else {
            r.push(q.last())
        }
    }
}

/// Delivery of the messages arrived by period `t`.
pub open spec fn livrer_spec(st: SimState, t: nat) -> SimState {
    SimState {
        etat: Seq::new(st.etat.len(), |d: int| livre(st.etat[d], st.en_vol[d], t)),
        en_vol: Seq::new(st.en_vol.len(), |d: int| en_attente(st.en_vol[d], t)),
        ..st
    }
}

/// The first `n` entries of `v` on the same side as `i`.
pub open spec fn meme_cote(v: Seq<usize>, i: usize, n: nat) -> Seq<usize>
    decreases n,
{
    if n == 0 {
        Seq::empty()
    } else {
        let r = meme_cote(v, i, (n - 1) as nat);
        if gauche(v[n - 1] as int) == gauche(i as int) {
            r.push(v[n - 1])
        } else {
            r
        }
    }
}

/// The neighbours agent `i` may contact at period `t`.
pub open spec fn cibles_spec(i: usize, t: nat, p: Params) -> Seq<usize> {
    let v = voisins_spec(i, GRID_W, GRID_H);
    if p.partition && t <= fin_partition(p) {
        meme_cote(v, i, v.len())
    } else {
        v
    }
}

/// One copy of a message from `i` to `d` at period `t`.
pub open spec fn envoi(st: SimState, i: usize, d: usize, t: nat, p: Params) -> SimState {
    if !st.ok {
        st
    } else {
        let msgs = st.messages + 1;
        let st1 = SimState { messages: msgs, rng: skip(st.rng, 2), ok: msgs <= u64::MAX, ..st };
        if random_mantissa_value(st.rng) < p.seuil_perte {
            st1
        } else if p.latence > 0 {
            SimState {
                en_vol: st.en_vol.update(
                    d as int,
                    st.en_vol[d as int].push(((t + p.latence) as usize, st.etat[i as int])),
                ),
                ok: st1.ok && t + p.latence <= usize::MAX,
                ..st1
            }
        } else {
            SimState {
                nouveaux: st.nouveaux.update(
                    d as int,
                    fusion_spec(st.nouveaux[d as int], Some(st.etat[i as int])),
                ),
                ..st1
            }
        }
    }
}

/// Copies `c..duplication` of the message from `i` to `d`.
pub open spec fn copies_rest(st: SimState, i: usize, d: usize, c: nat, t: nat, p: Params) -> SimState
    decreases p.duplication - c,
{
    if !st.ok || c >= p.duplication {
        st
    } else {
        copies_rest(envoi(st, i, d, t, p), i, d, c + 1, t, p)
    }
}

/// Messages from `i` to `dests[k..]`.
pub open spec fn dests_rest(st: SimState, i: usize, dests: Seq<usize>, k: nat, t: nat, p: Params) -> SimState
    decreases dests.len() - k,
{
    if !st.ok || k >= dests.len() {
        st
    } else {
        dests_rest(copies_rest(st, i, dests[k as int], 0, t, p), i, dests, k + 1, t, p)
    }
}

/// Number of neighbours contacted out of `n` candidates.
pub open spec fn nb_dests(n: nat) -> nat {
    if FANOUT <= n {
        FANOUT as nat
    } else {
        n
    }
}

/// Emission by agent `i` at period `t`.
pub open spec fn emettre_agent(st: SimState, i: usize, t: nat, p: Params) -> SimState {
    if !st.ok || !st.actifs[i as int] {
        st
    } else {
        let c = cibles_spec(i, t, p);
        if c.len() == 0 {
            st
        } else {
            let k = nb_dests(c.len());
            let picked = sample_spec(st.rng, c, k);
            dests_rest(
                SimState { rng: picked.1, ok: sample_terminates(st.rng, c.len(), k), ..st },
                i,
                picked.0,
                0,
                t,
                p,
            )
        }
    }
}

/// Emission by agents `i..N` at period `t`.
pub open spec fn emettre_rest(st: SimState, i: nat, t: nat, p: Params) -> SimState
    decreases N - i,
{
    if !st.ok || i >= N {
        st
    } else {
        emettre_rest(emettre_agent(st, i as usize, t, p), i + 1, t, p)
    }
}

/// Merges the states received during the period.
pub open spec fn appliquer_spec(st: SimState) -> SimState {
    SimState {
        etat: Seq::new(
            st.etat.len(),
            |d: int|
                match st.nouveaux[d] {
                    Some(v) => fus(st.etat[d], v),
                    None => st.etat[d],
                },
        ),
        ..st
    }
}

/// Scheduled removal at period `t`.
pub open spec fn retrait_programme(st: SimState, t: nat, p: Params) -> SimState {
    if p.retrait > 0 && p.t_retrait == Some(t as usize) {
        let pop = liste_actifs(st.actifs, N as nat);
        let k: nat = if pop.len() == 0 { 0 } else if p.retrait <= pop.len() - 1 {
            p.retrait as nat
        } else {
            (pop.len() - 1) as nat
        };
        retirer_spec(st, pop, k)
    } else {
        st
    }
}

/// Records a real divergence when the partition ends.
pub open spec fn divergence_spec(st: SimState, t: nat, p: Params) -> SimState {
    if p.partition && t == fin_partition(p) {
        let g = valeur_commune_spec(st.etat, st.actifs, Cote::Gauche);
        let d = valeur_commune_spec(st.etat, st.actifs, Cote::Droite);
        if g is Some && d is Some && g != d {
            SimState { divergence: true, ..st }
        } else {
            st
        }
    } else {
        st
    }
}

/// Records convergence at period `t`.
pub open spec fn convergence_spec(st: SimState, t: nat, p: Params) -> SimState {
    if valeur_commune_spec(st.etat, st.actifs, Cote::Tous) is Some {
        SimState {
            conv: Some(t as usize),
            refusion: if p.partition && st.divergence && t > fin_partition(p) {
                Some((t - fin_partition(p)) as usize)
            } else {
                st.refusion
            },
            ..st
        }
    } else {
        st
    }
}

/// One period `t`.
pub open spec fn periode_spec(st: SimState, t: nat, p: Params) -> SimState {
    let st1 = livrer_spec(retrait_programme(st, t, p), t);
    let st2 = emettre_rest(SimState { nouveaux: Seq::new(N as nat, |d: int| None), ..st1 }, 0, t, p);
    convergence_spec(divergence_spec(appliquer_spec(st2), t, p), t, p)
}

/// Periods `t..=max_periodes`, stopping at convergence.
pub open spec fn run_from(st: SimState, t: nat, p: Params) -> SimState
    decreases p.max_periodes + 1 - t,
{
    if !st.ok || t > p.max_periodes || t == 0 {
        st
    } else {
        let st1 = periode_spec(st, t, p);
        if st1.conv is Some {
            st1
        } else {
            run_from(st1, t + 1, p)
        }
    }
}

/// The state before the first period.
pub open spec fn avant_periodes(seed: u64, p: Params) -> SimState {
    let st1 = init_rest(etat_initial(seed), 0);
    let st2 = if p.retrait > 0 && p.t_retrait is None {
        retirer_spec(
            st1,
            range_seq(N as nat),
            if p.retrait <= N - 1 { p.retrait as nat } else { (N - 1) as nat },
        )
    } else {
        st1
    };
    if p.forcer_divergence && p.partition {
        forcer_spec(st2)
    } else {
        st2
    }
}

/// The state at the end of the run.
pub open spec fn sim_final(seed: u64, p: Params) -> SimState {
    run_from(avant_periodes(seed, p), 1, p)
}

/// The outcome of `simuler(seed, p)`.
pub open spec fn resultat_spec(seed: u64, p: Params) -> Resultat {
    let st = sim_final(seed, p);
    Resultat {
        periode_convergence: st.conv,
        accord: valeur_commune_spec(st.etat, st.actifs, Cote::Tous) is Some,
        messages: st.messages as u64,
        taille_etat: nb_actifs(st.actifs, N as nat) as usize,
        periode_refusion: st.refusion,
        divergence_reelle: st.divergence,
    }
}

/// A sequence with `x` pushed holds what it held, and `x`.
pub proof fn lemma_push_contains<T>(s: Seq<T>, x: T, y: T)
    ensures
        s.push(x).contains(y) <==> s.contains(y) || y == x,
{
    if s.contains(y) {
        let t = choose|t: int| 0 <= t < s.len() && s[t] == y;
        assert(s.push(x)[t] == y);
    }
    if y == x {
        assert(s.push(x)[s.len() as int] == y);
    }
    if s.push(x).contains(y) {
        let t = choose|t: int| 0 <= t < s.push(x).len() && s.push(x)[t] == y;
        if t < s.len() {
            assert(s[t] == y);
        }
    }
}

/// The fields that emission leaves alone.
pub open spec fn meme_cadre(a: SimState, b: SimState) -> bool {
    &&& a.etat == b.etat
    &&& a.actifs == b.actifs
    &&& a.divergence == b.divergence
    &&& a.conv == b.conv
    &&& a.refusion == b.refusion
}

pub proof fn lemma_copies_cadre(st: SimState, i: usize, d: usize, c: nat, t: nat, p: Params)
    ensures
        meme_cadre(copies_rest(st, i, d, c, t, p), st),
    decreases p.duplication - c,
{
    if st.ok && c < p.duplication {
        lemma_copies_cadre(envoi(st, i, d, t, p), i, d, c + 1, t, p);
    }
}

pub proof fn lemma_dests_cadre(st: SimState, i: usize, dests: Seq<usize>, k: nat, t: nat, p: Params)
    ensures
        meme_cadre(dests_rest(st, i, dests, k, t, p), st),
    decreases dests.len() - k,
{
    if st.ok && k < dests.len() {
        lemma_copies_cadre(st, i, dests[k as int], 0, t, p);
        lemma_dests_cadre(copies_rest(st, i, dests[k as int], 0, t, p), i, dests, k + 1, t, p);
    }
}

pub proof fn lemma_emettre_cadre(st: SimState, i: nat, t: nat, p: Params)
    ensures
        meme_cadre(emettre_rest(st, i, t, p), st),
    decreases N - i,
{
    if st.ok && i < N {
        let st1 = emettre_agent(st, i as usize, t, p);
        if st.actifs[i as int] {
            let c = cibles_spec(i as usize, t, p);
            if c.len() > 0 {
                let k = nb_dests(c.len());
                let picked = sample_spec(st.rng, c, k);
                lemma_dests_cadre(
                    SimState { rng: picked.1, ok: sample_terminates(st.rng, c.len(), k), ..st },
                    i as usize,
                    picked.0,
                    0,
                    t,
                    p,
                );
            }
        }
        lemma_emettre_cadre(st1, i + 1, t, p);
    }
}

pub proof fn lemma_init_cadre(st: SimState, n: nat)
    requires
        n <= N,
    ensures
        init_rest(st, n).actifs == st.actifs,
        init_rest(st, n).conv == st.conv,
        init_rest(st, n).refusion == st.refusion,
        init_rest(st, n).messages == st.messages,
        init_rest(st, n).en_vol == st.en_vol,
        init_rest(st, n).nouveaux == st.nouveaux,
        init_rest(st, n).divergence == st.divergence,
        init_rest(st, n).ok ==> init_rest(st, n).etat.len() == st.etat.len() + (N - n),
    decreases N - n,
{
    if st.ok && n < N {
        let v = randbelow_value(st.rng, 10);
        lemma_init_cadre(
            SimState {
                rng: skip(st.rng, randbelow_used(st.rng, 10)),
                etat: st.etat.push((v as i32, 0u32)),
                ok: randbelow_terminates(st.rng, 10),
                ..st
            },
            n + 1,
        );
    }
}

/// What a run from period `t` on records about convergence.
proof fn lemma_run_from(st: SimState, t: nat, p: Params)
    requires
        st.conv is None,
        st.refusion is None,
        t >= 1,
    ensures
        ({
            let f = run_from(st, t, p);
            &&& f.conv matches Some(c) ==> t <= c <= p.max_periodes && valeur_commune_spec(
                f.etat,
                f.actifs,
                Cote::Tous,
            ) is Some
            &&& f.refusion matches Some(r) ==> p.partition && f.divergence && f.conv == Some(
                (r + fin_partition(p)) as usize,
            )
        }),
    decreases p.max_periodes + 1 - t,
{
    if st.ok && t <= p.max_periodes {
        let st0 = livrer_spec(retrait_programme(st, t, p), t);
        let st1 = SimState { nouveaux: Seq::new(N as nat, |d: int| None), ..st0 };
        lemma_emettre_cadre(st1, 0, t, p);
        let st2 = periode_spec(st, t, p);
        if st2.conv is None {
            lemma_run_from(st2, t + 1, p);
        }
    }
}

/// A run stops only on agreement: a convergence period lies within the
/// run, and the agents then agree.
pub proof fn law_convergence_implique_accord(seed: u64, p: Params)
    ensures
        resultat_spec(seed, p).periode_convergence matches Some(c) ==> 1 <= c <= p.max_periodes
            && resultat_spec(seed, p).accord,
{
    lemma_avant_periodes(seed, p);
    lemma_run_from(avant_periodes(seed, p), 1, p);
}

/// A re-merge delay is measured only under partition, after a real
/// divergence, as the convergence period minus the end of the partition.
pub proof fn law_refusion_apres_divergence(seed: u64, p: Params)
    ensures
        resultat_spec(seed, p).periode_refusion matches Some(r) ==> {
            &&& p.partition
            &&& resultat_spec(seed, p).divergence_reelle
            &&& resultat_spec(seed, p).periode_convergence == Some((r + fin_partition(p)) as usize)
        },
{
    lemma_avant_periodes(seed, p);
    lemma_run_from(avant_periodes(seed, p), 1, p);
}

/// Once the last period has checked for agreement, a run that ends in
/// agreement has recorded its convergence.
proof fn lemma_run_accord(st: SimState, t: nat, p: Params)
    requires
        run_from(st, t, p).ok,
        1 <= t <= p.max_periodes + 1,
        t == p.max_periodes + 1 ==> (valeur_commune_spec(st.etat, st.actifs, Cote::Tous) is Some
            ==> st.conv is Some),
    ensures
        valeur_commune_spec(run_from(st, t, p).etat, run_from(st, t, p).actifs, Cote::Tous) is Some
            ==> run_from(st, t, p).conv is Some,
    decreases p.max_periodes + 1 - t,
{
    if t <= p.max_periodes {
        assert(st.ok);
        let st1 = periode_spec(st, t, p);
        if st1.conv is None {
            lemma_run_accord(st1, t + 1, p);
        }
    }
}

/// Agreement is never missed: every period ends with the convergence
/// check, so a run of at least one period that ends in agreement reports
/// a convergence period.
pub proof fn law_accord_implique_convergence(seed: u64, p: Params)
    requires
        sim_final(seed, p).ok,
        p.max_periodes >= 1,
    ensures
        resultat_spec(seed, p).accord ==> resultat_spec(seed, p).periode_convergence is Some,
{
    lemma_run_accord(avant_periodes(seed, p), 1, p);
}

/// When all active agents agree, so do those of any side that has one.
proof fn lemma_valeur_commune_cote(etat: Seq<Etat>, actifs: Seq<bool>, c: Cote)
    requires
        valeur_commune_spec(etat, actifs, Cote::Tous) is Some,
        valeur_commune_spec(etat, actifs, c) is Some,
    ensures
        valeur_commune_spec(etat, actifs, c) == valeur_commune_spec(etat, actifs, Cote::Tous),
{
    let i0 = choose|i: int| 0 <= i < N && actifs[i] && selectionne(Cote::Tous, i);
    let i1 = choose|i: int| 0 <= i < N && actifs[i] && selectionne(c, i);
    assert(selectionne(Cote::Tous, i1));
    assert(etat[i1].0 == etat[i0].0);
}

/// A divergence recorded at the end of the partition rules out convergence
/// up to then.
proof fn lemma_run_divergence(st: SimState, t: nat, p: Params)
    requires
        st.conv is None,
        t >= 1,
        st.divergence ==> t > fin_partition(p),
    ensures
        run_from(st, t, p).divergence ==> (run_from(st, t, p).conv matches Some(c) ==> c
            > fin_partition(p)),
    decreases p.max_periodes + 1 - t,
{
    if st.ok && t <= p.max_periodes {
        let st0 = livrer_spec(retrait_programme(st, t, p), t);
        let e = SimState { nouveaux: Seq::new(N as nat, |d: int| None), ..st0 };
        lemma_emettre_cadre(e, 0, t, p);
        let a = appliquer_spec(emettre_rest(e, 0, t, p));
        let dv = divergence_spec(a, t, p);
        if dv.divergence && !st.divergence && valeur_commune_spec(a.etat, a.actifs, Cote::Tous) is Some {
            lemma_valeur_commune_cote(a.etat, a.actifs, Cote::Gauche);
            lemma_valeur_commune_cote(a.etat, a.actifs, Cote::Droite);
        }
        let st1 = periode_spec(st, t, p);
        if st1.conv is None {
            lemma_run_divergence(st1, t + 1, p);
        }
    }
}

/// A real divergence delays convergence past the partition: when the two
/// halves had settled on different values as the partition ended, the run
/// had not converged by then.
pub proof fn law_divergence_retarde_convergence(seed: u64, p: Params)
    ensures
        resultat_spec(seed, p).divergence_reelle ==> (resultat_spec(seed, p).periode_convergence matches Some(
            c,
        ) ==> c > fin_partition(p)),
{
    lemma_avant_periodes(seed, p);
    lemma_run_divergence(avant_periodes(seed, p), 1, p);
}

proof fn lemma_avant_periodes(seed: u64, p: Params)
    ensures
        avant_periodes(seed, p).conv is None,
        avant_periodes(seed, p).refusion is None,
        !avant_periodes(seed, p).divergence,
{
    lemma_init_cadre(etat_initial(seed), 0);
}

/// `max_gauche` is the largest value among the left cells.
proof fn lemma_max_gauche(etat: Seq<Etat>, i: nat)
    requires
        i <= etat.len(),
    ensures
        max_gauche(etat, i) is Some <==> exists|x: int| 0 <= x < i && gauche(x),
        max_gauche(etat, i) matches Some(v) ==> {
            &&& forall|x: int| 0 <= x < i && gauche(x) ==> #[trigger] etat[x].0 <= v
            &&& exists|x: int| 0 <= x < i && gauche(x) && etat[x].0 == v
        },
    decreases i,
{
    if i > 0 {
        lemma_max_gauche(etat, (i - 1) as nat);
        if exists|x: int| 0 <= x < i && gauche(x) {
            if !gauche(i - 1) {
                let x = choose|x: int| 0 <= x < i && gauche(x);
                assert(x < i - 1);
            }
        }
    }
}

/// Forcing a divergence leaves the largest value in the left half only:
/// the left cells keep their states, one of them holds the left maximum,
/// and every right cell ends strictly below it.
pub proof fn law_forcer_maximum_a_gauche(st: SimState)
    requires
        st.etat.len() == N,
        max_gauche(st.etat, N as nat) != Some(i32::MIN),
    ensures
        ({
            let f = forcer_spec(st).etat;
            let v = max_gauche(st.etat, N as nat).unwrap();
            &&& f.len() == N
            &&& forall|x: int| 0 <= x < N && gauche(x) ==> #[trigger] f[x] == st.etat[x]
            &&& exists|x: int| 0 <= x < N && gauche(x) && #[trigger] f[x].0 == v
            &&& forall|x: int| 0 <= x < N && !gauche(x) ==> #[trigger] f[x].0 < v
        }),
{
    lemma_max_gauche(st.etat, N as nat);
    assert(gauche(0));
    let v = max_gauche(st.etat, N as nat).unwrap();
    let f = forcer_spec(st).etat;
    let x = choose|x: int| 0 <= x < N && gauche(x) && st.etat[x].0 == v;
    assert(f[x].0 == v);
}

/// What a period leaves alone outside removal: delivery, emission, merge and
/// the checks change neither the active agents nor a recorded convergence.
proof fn lemma_periode_cadre(st: SimState, t: nat, p: Params)
    ensures
        ({
            let st0 = retrait_programme(st, t, p);
            let r = periode_spec(st, t, p);
            let a = appliquer_spec(
                emettre_rest(SimState { nouveaux: Seq::new(N as nat, |d: int| None), ..livrer_spec(st0, t) }, 0, t, p),
            );
            &&& r.actifs == st0.actifs
            &&& r.ok ==> st0.ok
            &&& a.actifs == st0.actifs
            &&& a.conv == st.conv
            &&& r == convergence_spec(divergence_spec(a, t, p), t, p)
        }),
{
    let st0 = retrait_programme(st, t, p);
    let e = SimState { nouveaux: Seq::new(N as nat, |d: int| None), ..livrer_spec(st0, t) };
    lemma_emettre_cadre(e, 0, t, p);
}

/// A scheduled removal happens once, in its own period: every other period
/// leaves the set of active agents as it was.
pub proof fn law_retrait_une_fois(st: SimState, t: nat, p: Params)
    requires
        p.retrait == 0 || p.t_retrait != Some(t as usize),
    ensures
        periode_spec(st, t, p).actifs == st.actifs,
{
    lemma_periode_cadre(st, t, p);
}

/// Every period ends with the agreement check, partition or not: a period
/// that starts before convergence records convergence at that very period
/// exactly when it ends with all active agents agreeing.
pub proof fn law_convergence_au_premier_accord(st: SimState, t: nat, p: Params)
    requires
        st.conv is None,
    ensures
        ({
            let r = periode_spec(st, t, p);
            r.conv == if valeur_commune_spec(r.etat, r.actifs, Cote::Tous) is Some {
                Some(t as usize)
            } else {
                None
            }
        }),
{
    lemma_periode_cadre(st, t, p);
}

/// The active agents among the first `i`, as a set.
pub open spec fn ensemble_actifs(actifs: Seq<bool>, i: nat) -> Set<usize> {
    Set::new(|x: usize| x < i && actifs[x as int])
}

proof fn lemma_ensemble_actifs(actifs: Seq<bool>, i: nat)
    requires
        i <= actifs.len(),
        i <= N,
    ensures
        ensemble_actifs(actifs, i).finite(),
        ensemble_actifs(actifs, i).len() == nb_actifs(actifs, i),
    decreases i,
{
    if i == 0 {
        assert(ensemble_actifs(actifs, 0) =~= Set::empty());
    } else {
        lemma_ensemble_actifs(actifs, (i - 1) as nat);
        let a = ensemble_actifs(actifs, (i - 1) as nat);
        if actifs[i - 1] {
            assert(ensemble_actifs(actifs, i) =~= a.insert((i - 1) as usize));
        } else {
            assert(ensemble_actifs(actifs, i) =~= a);
        }
    }
}

/// Removing a sample of `k` of the active agents leaves `k` fewer active.
proof fn lemma_retirer_compte(st: SimState, pop: Seq<usize>, k: nat)
    requires
        retirer_spec(st, pop, k).ok,
        st.actifs.len() == N,
        k <= pop.len(),
        pop.len() <= N,
        pop.no_duplicates(),
        forall|t: int| 0 <= t < pop.len() ==> #[trigger] pop[t] < N && st.actifs[pop[t] as int],
    ensures
        retirer_spec(st, pop, k).actifs.len() == N,
        nb_actifs(retirer_spec(st, pop, k).actifs, N as nat) + k == nb_actifs(st.actifs, N as nat),
{
    broadcast use vstd::seq_lib::seq_to_set_is_finite;

    let r = retirer_spec(st, pop, k);
    assert(st.ok);
    lemma_sample_members(st.rng, pop, k);
    lemma_sample_distinct(st.rng, pop, k);
    let out = sample_spec(st.rng, pop, k).0;
    let a = ensemble_actifs(st.actifs, N as nat);
    let b = ensemble_actifs(r.actifs, N as nat);
    lemma_ensemble_actifs(st.actifs, N as nat);
    lemma_ensemble_actifs(r.actifs, N as nat);
    let o = out.to_set();
    out.unique_seq_to_set();
    assert forall|x: usize| o.contains(x) implies a.contains(x) by {
        assert(pop.contains(x));
        let t = choose|t: int| 0 <= t < pop.len() && pop[t] == x;
    }
    assert(b =~= a.difference(o));
    assert(a.intersect(o) =~= o);
    vstd::set_lib::lemma_set_difference_len(a, o);
}

/// The scheduled removal, in its own period, takes out `min(retrait, n - 1)`
/// of the `n` active agents.
pub proof fn law_retrait_programme(st: SimState, t: nat, p: Params)
    requires
        p.retrait > 0,
        p.t_retrait == Some(t as usize),
        st.actifs.len() == N,
        periode_spec(st, t, p).ok,
    ensures
        ({
            let n0 = nb_actifs(st.actifs, N as nat);
            let n1 = nb_actifs(periode_spec(st, t, p).actifs, N as nat);
            &&& periode_spec(st, t, p).actifs.len() == N
            &&& n1 == if n0 == 0 {
                0
            } else if p.retrait <= n0 - 1 {
                n0 - p.retrait
            } else {
                1
            }
        }),
{
    lemma_periode_cadre(st, t, p);
    let pop = liste_actifs(st.actifs, N as nat);
    lemma_liste_actifs(st.actifs, N as nat);
    let n0 = nb_actifs(st.actifs, N as nat);
    let k: nat = if pop.len() == 0 { 0 } else if p.retrait <= pop.len() - 1 {
        p.retrait as nat
    } else {
        (pop.len() - 1) as nat
    };
    assert(pop.no_duplicates()) by {
        assert forall|a: int, b: int| 0 <= a < pop.len() && 0 <= b < pop.len() && a != b implies pop[a]
            != pop[b] by {
            if a < b {
                assert(pop[a] < pop[b]);
            } else {
                assert(pop[b] < pop[a]);
            }
        }
    }
    lemma_retirer_compte(st, pop, k);
}

/// Number of agents a removal of `retrait` takes out of `N`.
pub open spec fn nb_retires(retrait: usize) -> nat {
    if retrait <= N - 1 {
        retrait as nat
    } else {
        (N - 1) as nat
    }
}

proof fn lemma_nb_tous(actifs: Seq<bool>, i: nat)
    requires
        i <= actifs.len(),
        forall|a: int| 0 <= a < i ==> #[trigger] actifs[a],
    ensures
        nb_actifs(actifs, i) == i,
    decreases i,
{
    if i > 0 {
        lemma_nb_tous(actifs, (i - 1) as nat);
    }
}

/// A removal at initialisation takes out `min(retrait, N - 1)` agents; with
/// none, all `N` agents start active.
pub proof fn law_retrait_initial(seed: u64, p: Params)
    requires
        avant_periodes(seed, p).ok,
    ensures
        avant_periodes(seed, p).actifs.len() == N,
        nb_actifs(avant_periodes(seed, p).actifs, N as nat) == if p.t_retrait is None {
            N - nb_retires(p.retrait)
        } else {
            N as int
        },
{
    let s0 = etat_initial(seed);
    lemma_init_cadre(s0, 0);
    let st1 = init_rest(s0, 0);
    assert forall|a: int| 0 <= a < N implies #[trigger] st1.actifs[a] by {
        assert(st1.actifs[a] == s0.actifs[a]);
    }
    lemma_nb_tous(st1.actifs, N as nat);
    if p.retrait > 0 && p.t_retrait is None {
        let pop = range_seq(N as nat);
        let k: nat = if p.retrait <= N - 1 { p.retrait as nat } else { (N - 1) as nat };
        let st2 = retirer_spec(st1, pop, k);
        assert(st2.ok);
        assert(pop.no_duplicates());
        lemma_retirer_compte(st1, pop, k);
    }
}

/// All agents active, or exactly `nb_retires(retrait)` removed; the latter
/// whenever the removal is at initialisation.
pub open spec fn taille_admise(st: SimState, p: Params) -> bool {
    let n = nb_actifs(st.actifs, N as nat);
    &&& st.actifs.len() == N
    &&& n == N || n == N - nb_retires(p.retrait)
    &&& p.t_retrait is None ==> n == N - nb_retires(p.retrait)
}

/// The removal invariant before period `t`: agents were removed only at
/// initialisation or in a scheduled period already past.
pub open spec fn taille_ok(st: SimState, t: nat, p: Params) -> bool {
    &&& taille_admise(st, p)
    &&& nb_actifs(st.actifs, N as nat) != N ==> (p.t_retrait is None || p.t_retrait.unwrap() < t)
}

proof fn lemma_run_taille(st: SimState, t: nat, p: Params)
    requires
        run_from(st, t, p).ok,
        t >= 1,
        taille_ok(st, t, p),
    ensures
        taille_admise(run_from(st, t, p), p),
    decreases p.max_periodes + 1 - t,
{
    if st.ok && t <= p.max_periodes {
        let st1 = periode_spec(st, t, p);
        assert(run_from(st1, t + 1, p).ok ==> st1.ok);
        assert(st1.ok);
        if p.retrait > 0 && p.t_retrait == Some(t as usize) {
            law_retrait_programme(st, t, p);
        } else {
            law_retrait_une_fois(st, t, p);
        }
        assert(taille_ok(st1, t + 1, p));
        if st1.conv is None {
            lemma_run_taille(st1, t + 1, p);
        }
    }
}

/// Removals happen once: a run ends with all `N` agents active or with
/// exactly `min(retrait, N - 1)` removed, and with that many removed
/// whenever the removal is at initialisation.
pub proof fn law_taille_finale(seed: u64, p: Params)
    requires
        sim_final(seed, p).ok,
    ensures
        resultat_spec(seed, p).taille_etat == N || resultat_spec(seed, p).taille_etat == N
            - nb_retires(p.retrait),
        p.t_retrait is None ==> resultat_spec(seed, p).taille_etat == N - nb_retires(p.retrait),
{
    let st = avant_periodes(seed, p);
    assert(run_from(st, 1, p).ok ==> st.ok);
    law_retrait_initial(seed, p);
    assert(taille_ok(st, 1, p));
    lemma_run_taille(st, 1, p);
    let f = sim_final(seed, p);
    lemma_nb_actifs(f.actifs, N as nat);
}

proof fn lemma_meme_cote_contains(v: Seq<usize>, i: usize, n: nat, j: usize)
    requires
        n <= v.len(),
    ensures
        meme_cote(v, i, n).contains(j) <==> v.subrange(0, n as int).contains(j) && gauche(j as int)
            == gauche(i as int),
    decreases n,
{
    if n > 0 {
        lemma_meme_cote_contains(v, i, (n - 1) as nat, j);
        let r = meme_cote(v, i, (n - 1) as nat);
        lemma_push_contains(r, v[n - 1], j);
        lemma_push_contains(v.subrange(0, n - 1), v[n - 1], j);
        assert(v.subrange(0, n as int) =~= v.subrange(0, n - 1).push(v[n - 1]));
    } else {
        assert(!v.subrange(0, 0).contains(j));
    }
}

/// The agents a sender may contact: its grid neighbours, restricted to its
/// own half while the partition lasts (up to period `max_periodes / 2`).
pub proof fn law_cibles(i: usize, t: nat, p: Params, j: usize)
    ensures
        cibles_spec(i, t, p).contains(j) <==> voisins_spec(i, GRID_W, GRID_H).contains(j) && (!(
        p.partition && t <= fin_partition(p)) || gauche(j as int) == gauche(i as int)),
{
    let v = voisins_spec(i, GRID_W, GRID_H);
    lemma_meme_cote_contains(v, i, v.len(), j);
    assert(v.subrange(0, v.len() as int) =~= v);
}

proof fn lemma_init_valeurs(st: SimState, n: nat)
    requires
        n <= N,
        st.etat.len() == n,
        forall|x: int| 0 <= x < n ==> 0 <= #[trigger] st.etat[x].0 <= 9 && st.etat[x].1 == 0,
        init_rest(st, n).ok,
    ensures
        init_rest(st, n).etat.len() == N,
        forall|x: int| 0 <= x < N ==> 0 <= #[trigger] init_rest(st, n).etat[x].0 <= 9 && init_rest(
            st,
            n,
        ).etat[x].1 == 0,
    decreases N - n,
{
    if n < N {
        assert(st.ok);
        let v = randbelow_value(st.rng, 10);
        let st1 = SimState {
            rng: skip(st.rng, randbelow_used(st.rng, 10)),
            etat: st.etat.push((v as i32, 0u32)),
            ok: randbelow_terminates(st.rng, 10),
            ..st
        };
        lemma_init_cadre(st1, n + 1);
        assert(init_rest(st1, n + 1).ok ==> st1.ok);
        lemma_randbelow_below(st.rng, 10);
        lemma_init_valeurs(st1, n + 1);
    }
}

/// Every agent starts with a value drawn in `0..=9` (`randint(0, 9)`) and
/// a logical clock at 0.
pub proof fn law_etats_initiaux(seed: u64)
    requires
        init_rest(etat_initial(seed), 0).ok,
    ensures
        init_rest(etat_initial(seed), 0).etat.len() == N,
        forall|x: int|
            0 <= x < N ==> 0 <= #[trigger] init_rest(etat_initial(seed), 0).etat[x].0 <= 9
                && init_rest(etat_initial(seed), 0).etat[x].1 == 0,
{
    lemma_init_valeurs(etat_initial(seed), 0);
}

/// Some agent is active.
pub open spec fn survivant(actifs: Seq<bool>) -> bool {
    exists|a: int| 0 <= a < N && actifs[a]
}

/// A sequence shorter than a duplicate-free one misses one of its entries.
proof fn lemma_pigeonhole(pop: Seq<usize>, out: Seq<usize>)
    requires
        pop.no_duplicates(),
        out.len() < pop.len(),
    ensures
        exists|t: int| 0 <= t < pop.len() && !out.contains(#[trigger] pop[t]),
{
    broadcast use vstd::seq_lib::seq_to_set_is_finite;

    if forall|t: int| 0 <= t < pop.len() ==> out.contains(#[trigger] pop[t]) {
        pop.unique_seq_to_set();
        out.lemma_cardinality_of_set();
        assert forall|x: usize| pop.to_set().contains(x) implies out.to_set().contains(x) by {
            let t = choose|t: int| 0 <= t < pop.len() && pop[t] == x;
            assert(out.contains(pop[t]));
        }
        vstd::set_lib::lemma_len_subset(pop.to_set(), out.to_set());
    }
}

/// The active agents listed by `liste_actifs`, in increasing order.
proof fn lemma_liste_actifs(actifs: Seq<bool>, i: nat)
    requires
        i <= actifs.len(),
        i <= N,
    ensures
        forall|t: int|
            0 <= t < liste_actifs(actifs, i).len() ==> #[trigger] liste_actifs(actifs, i)[t] < i
                && actifs[liste_actifs(actifs, i)[t] as int],
        forall|a: int, b: int|
            0 <= a < b < liste_actifs(actifs, i).len() ==> #[trigger] liste_actifs(actifs, i)[a]
                < #[trigger] liste_actifs(actifs, i)[b],
        (exists|a: int| 0 <= a < i && actifs[a]) ==> liste_actifs(actifs, i).len() > 0,
        liste_actifs(actifs, i).len() <= i,
        liste_actifs(actifs, i).len() == nb_actifs(actifs, i),
    decreases i,
{
    if i > 0 {
        let r = liste_actifs(actifs, (i - 1) as nat);
        lemma_liste_actifs(actifs, (i - 1) as nat);
        if actifs[i - 1] {
            let r2 = r.push((i - 1) as usize);
            assert(liste_actifs(actifs, i) == r2);
            assert forall|t: int| 0 <= t < r2.len() implies #[trigger] r2[t] < i && actifs[r2[t] as int] by {
                if t < r.len() {
                    assert(r2[t] == r[t]);
                }
            }
            assert forall|a: int, b: int| 0 <= a < b < r2.len() implies #[trigger] r2[a] < #[trigger] r2[b] by {
                assert(r2[a] == r[a]);
                if b < r.len() {
                    assert(r2[b] == r[b]);
                }
            }
        } else {
            if exists|a: int| 0 <= a < i && actifs[a] {
                let a = choose|a: int| 0 <= a < i && actifs[a];
                assert(a < i - 1);
            }
        }
    }
}

/// A removal of fewer agents than there are active ones leaves one active.
proof fn lemma_retirer_survivant(st: SimState, pop: Seq<usize>, k: nat)
    requires
        retirer_spec(st, pop, k).ok,
        st.actifs.len() == N,
        k < pop.len(),
        pop.len() <= N,
        forall|a: int, b: int| 0 <= a < b < pop.len() ==> #[trigger] pop[a] < #[trigger] pop[b],
        forall|t: int| 0 <= t < pop.len() ==> #[trigger] pop[t] < N && st.actifs[pop[t] as int],
    ensures
        survivant(retirer_spec(st, pop, k).actifs),
        retirer_spec(st, pop, k).actifs.len() == N,
{
    lemma_sample_members(st.rng, pop, k);
    let out = sample_spec(st.rng, pop, k).0;
    assert(pop.no_duplicates()) by {
        assert forall|a: int, b: int| 0 <= a < pop.len() && 0 <= b < pop.len() && a != b implies pop[a]
            != pop[b] by {
            if a < b {
                assert(pop[a] < pop[b]);
            } else {
                assert(pop[b] < pop[a]);
            }
        }
    }
    lemma_pigeonhole(pop, out);
    let t = choose|t: int| 0 <= t < pop.len() && !out.contains(#[trigger] pop[t]);
    assert(retirer_spec(st, pop, k).actifs[pop[t] as int]);
}

/// A period leaves some agent active.
proof fn lemma_periode_survivant(st: SimState, t: nat, p: Params)
    requires
        periode_spec(st, t, p).ok,
        st.actifs.len() == N,
        survivant(st.actifs),
    ensures
        survivant(periode_spec(st, t, p).actifs),
        periode_spec(st, t, p).actifs.len() == N,
{
    let st0 = retrait_programme(st, t, p);
    if p.retrait > 0 && p.t_retrait == Some(t as usize) {
        let pop = liste_actifs(st.actifs, N as nat);
        lemma_liste_actifs(st.actifs, N as nat);
        let k: nat = if pop.len() == 0 { 0 } else if p.retrait <= pop.len() - 1 {
            p.retrait as nat
        } else {
            (pop.len() - 1) as nat
        };
        lemma_retirer_survivant(st, pop, k);
    }
    let st1 = SimState { nouveaux: Seq::new(N as nat, |d: int| None), ..livrer_spec(st0, t) };
    lemma_emettre_cadre(st1, 0, t, p);
}

/// Every period of a run leaves some agent active.
proof fn lemma_run_survivant(st: SimState, t: nat, p: Params)
    requires
        run_from(st, t, p).ok,
        st.actifs.len() == N,
        survivant(st.actifs),
    ensures
        survivant(run_from(st, t, p).actifs),
        run_from(st, t, p).actifs.len() == N,
    decreases p.max_periodes + 1 - t,
{
    if st.ok && t <= p.max_periodes && t != 0 {
        let st1 = periode_spec(st, t, p);
        assert(run_from(st1, t + 1, p).ok ==> st1.ok);
        assert(st1.ok);
        lemma_periode_survivant(st, t, p);
        if st1.conv is None {
            lemma_run_survivant(st1, t + 1, p);
        }
    }
}

proof fn lemma_nb_actifs(actifs: Seq<bool>, i: nat)
    requires
        i <= actifs.len(),
    ensures
        nb_actifs(actifs, i) <= i,
        (exists|a: int| 0 <= a < i && actifs[a]) ==> nb_actifs(actifs, i) >= 1,
    decreases i,
{
    if i > 0 {
        lemma_nb_actifs(actifs, (i - 1) as nat);
    }
}

/// Removals never take the last active agent: a run ends with between one
/// and `N` active agents.
pub proof fn law_au_moins_un_actif(seed: u64, p: Params)
    requires
        sim_final(seed, p).ok,
    ensures
        1 <= resultat_spec(seed, p).taille_etat <= N,
{
    let st0 = etat_initial(seed);
    lemma_init_cadre(st0, 0);
    let st1 = init_rest(st0, 0);
    assert(st1.actifs[0]);
    let st2 = if p.retrait > 0 && p.t_retrait is None {
        let pop = range_seq(N as nat);
        let k: nat = if p.retrait <= N - 1 { p.retrait as nat } else { (N - 1) as nat };
        lemma_retirer_survivant(st1, pop, k);
        retirer_spec(st1, pop, k)
    } else {
        st1
    };
    let st3 = avant_periodes(seed, p);
    assert(st3.actifs == st2.actifs);
    lemma_run_survivant(st3, 1, p);
    let f = sim_final(seed, p);
    lemma_nb_actifs(f.actifs, N as nat);
}

/// A sound state has counted at most `u64::MAX` messages.
pub open spec fn compte_borne(st: SimState) -> bool {
    st.ok ==> st.messages <= u64::MAX
}

proof fn lemma_copies_borne(st: SimState, i: usize, d: usize, c: nat, t: nat, p: Params)
    requires
        compte_borne(st),
    ensures
        compte_borne(copies_rest(st, i, d, c, t, p)),
    decreases p.duplication - c,
{
    if st.ok && c < p.duplication {
        lemma_copies_borne(envoi(st, i, d, t, p), i, d, c + 1, t, p);
    }
}

proof fn lemma_dests_borne(st: SimState, i: usize, dests: Seq<usize>, k: nat, t: nat, p: Params)
    requires
        compte_borne(st),
    ensures
        compte_borne(dests_rest(st, i, dests, k, t, p)),
    decreases dests.len() - k,
{
    if st.ok && k < dests.len() {
        lemma_copies_borne(st, i, dests[k as int], 0, t, p);
        lemma_dests_borne(copies_rest(st, i, dests[k as int], 0, t, p), i, dests, k + 1, t, p);
    }
}

proof fn lemma_emettre_borne(st: SimState, i: nat, t: nat, p: Params)
    requires
        compte_borne(st),
    ensures
        compte_borne(emettre_rest(st, i, t, p)),
    decreases N - i,
{
    if st.ok && i < N {
        if st.actifs[i as int] {
            let c = cibles_spec(i as usize, t, p);
            if c.len() > 0 {
                let k = nb_dests(c.len());
                let picked = sample_spec(st.rng, c, k);
                lemma_dests_borne(
                    SimState { rng: picked.1, ok: sample_terminates(st.rng, c.len(), k), ..st },
                    i as usize,
                    picked.0,
                    0,
                    t,
                    p,
                );
            }
        }
        lemma_emettre_borne(emettre_agent(st, i as usize, t, p), i + 1, t, p);
    }
}

proof fn lemma_run_borne(st: SimState, t: nat, p: Params)
    requires
        compte_borne(st),
    ensures
        compte_borne(run_from(st, t, p)),
    decreases p.max_periodes + 1 - t,
{
    if st.ok && t <= p.max_periodes && t != 0 {
        let st0 = retrait_programme(st, t, p);
        let st1 = SimState { nouveaux: Seq::new(N as nat, |d: int| None), ..livrer_spec(st0, t) };
        lemma_emettre_borne(st1, 0, t, p);
        let st2 = periode_spec(st, t, p);
        if st2.conv is None {
            lemma_run_borne(st2, t + 1, p);
        }
    }
}

/// The message counter never wraps: a run that completes has sent at most
/// `u64::MAX` messages, and its outcome reports exactly how many.
pub proof fn law_messages_exacts(seed: u64, p: Params)
    requires
        sim_final(seed, p).ok,
    ensures
        sim_final(seed, p).messages <= u64::MAX,
        resultat_spec(seed, p).messages == sim_final(seed, p).messages,
{
    lemma_init_cadre(etat_initial(seed), 0);
    lemma_run_borne(avant_periodes(seed, p), 1, p);
}

/// Runs the simulation seeded with `seed`: the outcome of the run that
/// `resultat_spec` describes, the random draws being taken in a fixed order.
pub fn simuler(seed: u64, p: &Params) -> (r: Resultat)
    requires
        sim_final(seed, *p).ok,
    ensures
        r == resultat_spec(seed, *p),
{
    let rng = PyRandom::new(seed);
    let mut actifs: Vec<bool> = Vec::new();
    let mut en_vol: Vec<Vec<(usize, Etat)>> = Vec::new();
    let mut nouveaux: Vec<Option<Etat>> = Vec::new();
    let mut i: usize = 0;
    while i < N
        invariant
            i <= N,
            actifs@.len() == i,
            en_vol@.len() == i,
            nouveaux@.len() == i,
            forall|x: int| 0 <= x < i ==> #[trigger] actifs@[x],
            forall|x: int| 0 <= x < i ==> #[trigger] en_vol@[x]@ == Seq::<(usize, Etat)>::empty(),
            forall|x: int| 0 <= x < i ==> #[trigger] nouveaux@[x] is None,
        decreases N - i,
    {
        actifs.push(true);
        en_vol.push(Vec::new());
        nouveaux.push(None);
        i += 1;
    }
    let mut sim = Simulation {
        rng,
        etat: Vec::new(),
        actifs,
        en_vol,
        nouveaux,
        messages: 0,
        divergence: false,
        conv: None,
        refusion: None,
    };
    let ghost total = sim_final(seed, *p);
    proof {
        assert(sim.modele().en_vol =~= etat_initial(seed).en_vol);
        assert(sim.modele() =~= etat_initial(seed));
    }
    sim.tirer_valeurs();
    if p.retrait > 0 && p.t_retrait.is_none() {
        let mut pop: Vec<usize> = Vec::new();
        let mut j: usize = 0;
        while j < N
            invariant
                j <= N,
                pop@ == range_seq(j as nat),
            decreases N - j,
        {
            pop.push(j);
            proof {
                assert(pop@ =~= range_seq((j + 1) as nat));
            }
            j += 1;
        }
        let k = if p.retrait <= N - 1 {
            p.retrait
        } else {
            N - 1
        };
        sim.retirer(&pop, k);
    }
    if p.forcer_divergence && p.partition {
        sim.forcer();
    }
    assert(sim.modele() == avant_periodes(seed, *p));
    let mut t: usize = 1;
    let mut fini = p.max_periodes == 0;
    while !fini
        invariant
            sim.wf(),
            sim.etat@.len() == N,
            total.ok,
            fini ==> sim.modele() == total,
            !fini ==> run_from(sim.modele(), t as nat, *p) == total && 1 <= t <= p.max_periodes,
        decreases (if fini { 0 } else { p.max_periodes + 1 - t }),
    {
        let ghost cur = sim.modele();
        assert(run_from(periode_spec(cur, t as nat, *p), (t + 1) as nat, *p).ok ==> periode_spec(
            cur,
            t as nat,
            *p,
        ).ok);
        sim.periode(t, p);
        if sim.conv.is_some() {
            fini = true;
        } else if t == p.max_periodes {
            fini = true;
        } else {
            t += 1;
        }
    }
    let accord = sim.valeur_commune(Cote::Tous).is_some();
    let taille = sim.nb_actifs();
    Resultat {
        periode_convergence: sim.conv,
        accord,
        messages: sim.messages,
        taille_etat: taille,
        periode_refusion: sim.refusion,
        divergence_reelle: sim.divergence,
    }
}

/// The neighbours agent `i` may contact at period `t`.
fn cibles(i: usize, t: usize, p: &Params) -> (r: Vec<usize>)
    requires
        i < N,
    ensures
        r@ == cibles_spec(i, t as nat, *p),
        forall|x: int| 0 <= x < r@.len() ==> #[trigger] r@[x] < N,
{
    let v = voisins(i, GRID_W, GRID_H);
    proof {
        crate::sim::law_voisins_in_grid(i, GRID_W, GRID_H);
    }
    if p.partition && t <= p.max_periodes / 2 {
        let mut r: Vec<usize> = Vec::new();
        let mut k: usize = 0;
        while k < v.len()
            invariant
                k <= v@.len(),
                i < N,
                forall|x: int| 0 <= x < v@.len() ==> #[trigger] v@[x] < N,
                r@ == meme_cote(v@, i, k as nat),
                forall|x: int| 0 <= x < r@.len() ==> #[trigger] r@[x] < N,
            decreases v@.len() - k,
        {
            if gauche_exec(v[k]) == gauche_exec(i) {
                r.push(v[k]);
            }
            k += 1;
        }
        r
    } else {
        v
    }
}

/// The running state of a simulation.
struct Simulation {
    rng: PyRandom,
    etat: Vec<Etat>,
    actifs: Vec<bool>,
    en_vol: Vec<Vec<(usize, Etat)>>,
    nouveaux: Vec<Option<Etat>>,
    messages: u64,
    divergence: bool,
    conv: Option<usize>,
    refusion: Option<usize>,
}

fn gauche_exec(i: usize) -> (r: bool)
    ensures
        r == gauche(i as int),
{
    i % 6 < 3
}

fn selectionne_exec(c: &Cote, i: usize) -> (r: bool)
    ensures
        r == selectionne(*c, i as int),
{
    match c {
        Cote::Tous => true,
        Cote::Gauche => gauche_exec(i),
        Cote::Droite => !gauche_exec(i),
    }
}

impl Simulation {
    /// The run state this simulation stands for.
    spec fn modele(&self) -> SimState {
        SimState {
            rng: self.rng@,
            etat: self.etat@,
            actifs: self.actifs@,
            en_vol: self.en_vol@.map_values(|q: Vec<(usize, Etat)>| q@),
            nouveaux: self.nouveaux@,
            messages: self.messages as nat,
            divergence: self.divergence,
            conv: self.conv,
            refusion: self.refusion,
            ok: true,
        }
    }

    spec fn wf(&self) -> bool {
        &&& self.actifs@.len() == N
        &&& self.en_vol@.len() == N
        &&& self.nouveaux@.len() == N
    }

    /// Draws the initial values: agent `i` gets `(randint(0, 9), 0)`.
    fn tirer_valeurs(&mut self)
        requires
            old(self).etat@.len() == 0,
            init_rest(old(self).modele(), 0).ok,
        ensures
            final(self).modele() == init_rest(old(self).modele(), 0),
            final(self).etat@.len() == N,
            forall|x: int| 0 <= x < N ==> 0 <= #[trigger] final(self).etat@[x].0 <= 9,
            final(self).actifs == old(self).actifs,
            final(self).en_vol == old(self).en_vol,
            final(self).nouveaux == old(self).nouveaux,
    {
        let ghost total = init_rest(self.modele(), 0);
        let mut i: usize = 0;
        while i < N
            invariant
                i <= N,
                init_rest(self.modele(), i as nat) == total,
                total.ok,
                self.etat@.len() == i,
                forall|x: int| 0 <= x < i ==> 0 <= #[trigger] self.etat@[x].0 <= 9,
                self.actifs == old(self).actifs,
                self.en_vol == old(self).en_vol,
                self.nouveaux == old(self).nouveaux,
            decreases N - i,
        {
            let ghost cur = self.modele();
            let ghost next = SimState {
                rng: skip(cur.rng, randbelow_used(cur.rng, 10)),
                etat: cur.etat.push((randbelow_value(cur.rng, 10) as i32, 0u32)),
                ok: randbelow_terminates(cur.rng, 10),
                ..cur
            };
            assert(init_rest(cur, i as nat) == init_rest(next, (i + 1) as nat));
            assert(init_rest(next, (i + 1) as nat).ok ==> next.ok);
            let v = self.rng.randint(0, 9);
            self.etat.push((v as i32, 0u32));
            proof {
                assert(self.modele() =~= next);
            }
            i += 1;
        }
    }

    /// Removes `sample(pop, k)` from the active agents.
    fn retirer(&mut self, pop: &Vec<usize>, k: usize)
        requires
            old(self).wf(),
            k <= pop@.len(),
            forall|x: int| 0 <= x < pop@.len() ==> #[trigger] pop@[x] < N,
            retirer_spec(old(self).modele(), pop@, k as nat).ok,
        ensures
            final(self).wf(),
            final(self).modele() == retirer_spec(old(self).modele(), pop@, k as nat),
            final(self).etat == old(self).etat,
    {
        let ghost cur = self.modele();
        let picked = self.rng.sample(pop.as_slice(), k);
        let ghost old_actifs = self.actifs@;
        let ghost rng_after = self.rng@;
        let mut j: usize = 0;
        while j < picked.len()
            invariant
                j <= picked@.len(),
                self.rng@ == rng_after,
                self.etat == old(self).etat,
                self.en_vol == old(self).en_vol,
                self.nouveaux == old(self).nouveaux,
                self.messages == old(self).messages,
                self.divergence == old(self).divergence,
                self.conv == old(self).conv,
                self.refusion == old(self).refusion,
                self.actifs@.len() == N,
                old_actifs.len() == N,
                forall|x: int| 0 <= x < pop@.len() ==> #[trigger] pop@[x] < N,
                exists|idx: Seq<int>| crate::sample::drawn_without_replacement(idx, pop@, picked@),
                self.actifs@ == Seq::new(
                    N as nat,
                    |x: int| old_actifs[x] && !picked@.take(j as int).contains(x as usize),
                ),
            decreases picked@.len() - j,
        {
            let x = picked[j];
            proof {
                let idx = choose|idx: Seq<int>| crate::sample::drawn_without_replacement(idx, pop@, picked@);
                assert(0 <= idx[j as int] < pop@.len());
            }
            self.actifs.set(x, false);
            proof {
                assert(picked@.take(j + 1) =~= picked@.take(j as int).push(x));
                assert forall|y: int| 0 <= y < N implies #[trigger] self.actifs@[y] == (old_actifs[y]
                    && !picked@.take(j + 1).contains(y as usize)) by {
                    lemma_push_contains(picked@.take(j as int), x, y as usize);
                }
                assert(self.actifs@ =~= Seq::new(
                    N as nat,
                    |y: int| old_actifs[y] && !picked@.take(j + 1).contains(y as usize),
                ));
            }
            j += 1;
        }
        proof {
            assert(picked@.take(picked@.len() as int) =~= picked@);
            assert(self.modele() =~= retirer_spec(cur, pop@, k as nat));
        }
    }

    /// Caps the right half strictly below the maximum of the left half.
    fn forcer(&mut self)
        requires
            old(self).etat@.len() == N,
            forall|x: int| 0 <= x < N ==> 0 <= #[trigger] old(self).etat@[x].0 <= 9,
        ensures
            final(self).modele() == forcer_spec(old(self).modele()),
            final(self).etat@.len() == N,
            final(self).rng == old(self).rng,
            final(self).actifs == old(self).actifs,
            final(self).en_vol == old(self).en_vol,
            final(self).nouveaux == old(self).nouveaux,
    {
        let ghost e0 = self.etat@;
        let mut m: Option<i32> = None;
        let mut i: usize = 0;
        while i < N
            invariant
                i <= N,
                self.etat@ == e0,
                e0.len() == N,
                forall|x: int| 0 <= x < N ==> 0 <= #[trigger] e0[x].0 <= 9,
                m == max_gauche(e0, i as nat),
                m matches Some(v) ==> 0 <= v <= 9,
            decreases N - i,
        {
            if gauche_exec(i) {
                let v = self.etat[i].0;
                m = match m {
                    None => Some(v),
                    Some(a) => Some(if a >= v { a } else { v }),
                };
            }
            i += 1;
        }
        let mg: i32 = match m {
            Some(v) => v,
            None => 0,
        };
        let mut x: usize = 0;
        while x < N
            invariant
                x <= N,
                self.etat@.len() == N,
                e0.len() == N,
                0 <= mg <= 9,
                mg == (match max_gauche(e0, N as nat) {
                    Some(v) => v,
                    None => 0,
                }),
                forall|y: int| x <= y < N ==> #[trigger] self.etat@[y] == e0[y],
                forall|y: int|
                    0 <= y < x ==> #[trigger] self.etat@[y] == (if gauche(y) {
                        e0[y]
                    } else {
                        ((if e0[y].0 <= mg - 1 { e0[y].0 as int } else { mg - 1 }) as i32, 0u32)
                    }),
                self.rng == old(self).rng,
                self.actifs == old(self).actifs,
                self.en_vol == old(self).en_vol,
                self.nouveaux == old(self).nouveaux,
                self.messages == old(self).messages,
                self.divergence == old(self).divergence,
                self.conv == old(self).conv,
                self.refusion == old(self).refusion,
            decreases N - x,
        {
            if !gauche_exec(x) {
                let v = self.etat[x].0;
                let nv = if v <= mg - 1 {
                    v
                } else {
                    mg - 1
                };
                self.etat.set(x, (nv, 0u32));
            }
            x += 1;
        }
        assert(self.modele() =~= forcer_spec(old(self).modele()));
    }

    /// Merges the messages that have arrived by period `t`.
    fn livrer(&mut self, t: usize)
        requires
            old(self).wf(),
            old(self).etat@.len() == N,
        ensures
            final(self).wf(),
            final(self).etat@.len() == N,
            final(self).modele() == livrer_spec(old(self).modele(), t as nat),
            final(self).actifs == old(self).actifs,
            final(self).nouveaux == old(self).nouveaux,
            final(self).rng == old(self).rng,
    {
        let ghost cur = self.modele();
        let mut d: usize = 0;
        while d < N
            invariant
                d <= N,
                self.wf(),
                self.etat@.len() == N,
                cur.etat.len() == N,
                cur.en_vol.len() == N,
                forall|y: int| d <= y < N ==> #[trigger] self.etat@[y] == cur.etat[y],
                forall|y: int| d <= y < N ==> #[trigger] self.en_vol@[y]@ == cur.en_vol[y],
                forall|y: int|
                    0 <= y < d ==> #[trigger] self.etat@[y] == livre(cur.etat[y], cur.en_vol[y], t as nat),
                forall|y: int|
                    0 <= y < d ==> #[trigger] self.en_vol@[y]@ == en_attente(cur.en_vol[y], t as nat),
                self.rng@ == cur.rng,
                self.actifs == old(self).actifs,
                self.nouveaux == old(self).nouveaux,
                self.messages == old(self).messages,
                self.divergence == old(self).divergence,
                self.conv == old(self).conv,
                self.refusion == old(self).refusion,
                self.rng == old(self).rng,
            decreases N - d,
        {
            let ghost q = cur.en_vol[d as int];
            let mut e = self.etat[d];
            let mut restants: Vec<(usize, Etat)> = Vec::new();
            let qlen = self.en_vol[d].len();
            let mut k: usize = 0;
            assert(q.take(0) =~= Seq::<(usize, Etat)>::empty());
            while k < qlen
                invariant
                    k <= qlen,
                    qlen == q.len(),
                    d < N,
                    self.en_vol@.len() == N,
                    self.en_vol@[d as int]@ == q,
                    e == livre(cur.etat[d as int], q.take(k as int), t as nat),
                    restants@ == en_attente(q.take(k as int), t as nat),
                decreases qlen - k,
            {
                let (ta, v) = self.en_vol[d][k];
                proof {
                    assert(q.take(k + 1).drop_last() =~= q.take(k as int));
                    assert(q.take(k + 1).last() == q[k as int]);
                }
                if ta <= t {
                    e = fusion(Some(e), Some(v)).unwrap();
                } else {
                    restants.push((ta, v));
                }
                k += 1;
            }
            assert(q.take(qlen as int) =~= q);
            self.etat.set(d, e);
            self.en_vol.set(d, restants);
            d += 1;
        }
        proof {
            assert(self.en_vol@.map_values(|q: Vec<(usize, Etat)>| q@) =~= Seq::new(
                cur.en_vol.len(),
                |y: int| en_attente(cur.en_vol[y], t as nat),
            ));
            assert(self.modele() =~= livrer_spec(cur, t as nat));
        }
    }

    /// Merges the states received during the period.
    fn appliquer(&mut self)
        requires
            old(self).wf(),
            old(self).etat@.len() == N,
        ensures
            final(self).wf(),
            final(self).etat@.len() == N,
            final(self).modele() == appliquer_spec(old(self).modele()),
            final(self).actifs == old(self).actifs,
    {
        let ghost cur = self.modele();
        let mut d: usize = 0;
        while d < N
            invariant
                d <= N,
                self.wf(),
                self.etat@.len() == N,
                cur.etat.len() == N,
                cur.nouveaux.len() == N,
                self.nouveaux@ == cur.nouveaux,
                forall|y: int| d <= y < N ==> #[trigger] self.etat@[y] == cur.etat[y],
                forall|y: int|
                    0 <= y < d ==> #[trigger] self.etat@[y] == (match cur.nouveaux[y] {
                        Some(v) => fus(cur.etat[y], v),
                        None => cur.etat[y],
                    }),
                self.rng == old(self).rng,
                self.actifs == old(self).actifs,
                self.en_vol == old(self).en_vol,
                self.messages == old(self).messages,
                self.divergence == old(self).divergence,
                self.conv == old(self).conv,
                self.refusion == old(self).refusion,
            decreases N - d,
        {
            match self.nouveaux[d] {
                Some(v) => {
                    let e = fusion(Some(self.etat[d]), Some(v)).unwrap();
                    self.etat.set(d, e);
                },
                None => {},
            }
            d += 1;
        }
        assert(self.modele() =~= appliquer_spec(cur));
    }

    /// Indices of the active agents, in increasing order.
    fn liste_actifs(&self) -> (r: Vec<usize>)
        requires
            self.actifs@.len() == N,
        ensures
            r@ == liste_actifs(self.actifs@, N as nat),
            forall|x: int| 0 <= x < r@.len() ==> #[trigger] r@[x] < N,
    {
        let mut r: Vec<usize> = Vec::new();
        let mut i: usize = 0;
        while i < N
            invariant
                i <= N,
                self.actifs@.len() == N,
                r@ == liste_actifs(self.actifs@, i as nat),
                forall|x: int| 0 <= x < r@.len() ==> #[trigger] r@[x] < i,
            decreases N - i,
        {
            if self.actifs[i] {
                r.push(i);
            }
            i += 1;
        }
        r
    }

    /// Number of active agents.
    fn nb_actifs(&self) -> (r: usize)
        requires
            self.actifs@.len() == N,
        ensures
            r == nb_actifs(self.actifs@, N as nat),
    {
        let mut r: usize = 0;
        let mut i: usize = 0;
        while i < N
            invariant
                i <= N,
                self.actifs@.len() == N,
                r == nb_actifs(self.actifs@, i as nat),
                r <= i,
            decreases N - i,
        {
            if self.actifs[i] {
                r += 1;
            }
            i += 1;
        }
        r
    }

    /// One copy of the message from `i` to `d` at period `t`.
    fn envoi(&mut self, i: usize, d: usize, t: usize, p: &Params)
        requires
            old(self).wf(),
            old(self).etat@.len() == N,
            i < N,
            d < N,
            envoi(old(self).modele(), i, d, t as nat, *p).ok,
        ensures
            final(self).wf(),
            final(self).etat == old(self).etat,
            final(self).actifs == old(self).actifs,
            final(self).modele() == envoi(old(self).modele(), i, d, t as nat, *p),
    {
        let ghost cur = self.modele();
        self.messages = self.messages + 1;
        let m = self.rng.random_mantissa();
        if m < p.seuil_perte {
            assert(self.modele() =~= envoi(cur, i, d, t as nat, *p));
            return;
        }
        let e = self.etat[i];
        if p.latence > 0 {
            self.en_vol[d].push((t + p.latence, e));
            assert(self.en_vol@.map_values(|q: Vec<(usize, Etat)>| q@) =~= cur.en_vol.update(
                d as int,
                cur.en_vol[d as int].push(((t + p.latence) as usize, e)),
            ));
        } else {
            let nv = fusion(self.nouveaux[d], Some(e));
            self.nouveaux.set(d, nv);
        }
        assert(self.modele() =~= envoi(cur, i, d, t as nat, *p));
    }

    /// All the copies of the message from `i` to `d` at period `t`.
    fn copies(&mut self, i: usize, d: usize, t: usize, p: &Params)
        requires
            old(self).wf(),
            old(self).etat@.len() == N,
            i < N,
            d < N,
            copies_rest(old(self).modele(), i, d, 0, t as nat, *p).ok,
        ensures
            final(self).wf(),
            final(self).etat == old(self).etat,
            final(self).actifs == old(self).actifs,
            final(self).modele() == copies_rest(old(self).modele(), i, d, 0, t as nat, *p),
    {
        let ghost total = copies_rest(self.modele(), i, d, 0, t as nat, *p);
        let mut c: usize = 0;
        while c < p.duplication
            invariant
                self.wf(),
                self.etat@.len() == N,
                i < N,
                d < N,
                c <= p.duplication,
                copies_rest(self.modele(), i, d, c as nat, t as nat, *p) == total,
                total.ok,
                self.etat == old(self).etat,
                self.actifs == old(self).actifs,
            decreases p.duplication - c,
        {
            let ghost cur = self.modele();
            assert(copies_rest(envoi(cur, i, d, t as nat, *p), i, d, (c + 1) as nat, t as nat, *p).ok
                ==> envoi(cur, i, d, t as nat, *p).ok);
            self.envoi(i, d, t, p);
            c += 1;
        }
    }

    /// The messages from `i` to each of `dests` at period `t`.
    fn vers(&mut self, i: usize, dests: &Vec<usize>, t: usize, p: &Params)
        requires
            old(self).wf(),
            old(self).etat@.len() == N,
            i < N,
            forall|x: int| 0 <= x < dests@.len() ==> #[trigger] dests@[x] < N,
            dests_rest(old(self).modele(), i, dests@, 0, t as nat, *p).ok,
        ensures
            final(self).wf(),
            final(self).etat == old(self).etat,
            final(self).actifs == old(self).actifs,
            final(self).modele() == dests_rest(old(self).modele(), i, dests@, 0, t as nat, *p),
    {
        let ghost total = dests_rest(self.modele(), i, dests@, 0, t as nat, *p);
        let mut k: usize = 0;
        while k < dests.len()
            invariant
                self.wf(),
                self.etat@.len() == N,
                i < N,
                k <= dests@.len(),
                forall|x: int| 0 <= x < dests@.len() ==> #[trigger] dests@[x] < N,
                dests_rest(self.modele(), i, dests@, k as nat, t as nat, *p) == total,
                total.ok,
                self.etat == old(self).etat,
                self.actifs == old(self).actifs,
            decreases dests@.len() - k,
        {
            let ghost cur = self.modele();
            let d = dests[k];
            assert(dests_rest(
                copies_rest(cur, i, d, 0, t as nat, *p),
                i,
                dests@,
                (k + 1) as nat,
                t as nat,
                *p,
            ).ok ==> copies_rest(cur, i, d, 0, t as nat, *p).ok);
            self.copies(i, d, t, p);
            k += 1;
        }
    }

    /// Emission by agent `i` at period `t`.
    fn emettre_agent(&mut self, i: usize, t: usize, p: &Params)
        requires
            old(self).wf(),
            old(self).etat@.len() == N,
            i < N,
            emettre_agent(old(self).modele(), i, t as nat, *p).ok,
        ensures
            final(self).wf(),
            final(self).etat == old(self).etat,
            final(self).actifs == old(self).actifs,
            final(self).modele() == emettre_agent(old(self).modele(), i, t as nat, *p),
    {
        let ghost cur = self.modele();
        if !self.actifs[i] {
            return;
        }
        let c = cibles(i, t, p);
        if c.len() == 0 {
            return;
        }
        let k = if FANOUT <= c.len() {
            FANOUT
        } else {
            c.len()
        };
        let dests = self.rng.sample(c.as_slice(), k);
        proof {
            let idx = choose|idx: Seq<int>| crate::sample::drawn_without_replacement(idx, c@, dests@);
            assert forall|x: int| 0 <= x < dests@.len() implies #[trigger] dests@[x] < N by {
                assert(0 <= idx[x] < c@.len());
            }
            let mid = SimState {
                rng: sample_spec(cur.rng, c@, k as nat).1,
                ok: sample_terminates(cur.rng, c@.len(), k as nat),
                ..cur
            };
            assert(self.modele() =~= mid);
        }
        self.vers(i, &dests, t, p);
    }

    /// Emission by every agent at period `t`.
    fn emettre(&mut self, t: usize, p: &Params)
        requires
            old(self).wf(),
            old(self).etat@.len() == N,
            emettre_rest(old(self).modele(), 0, t as nat, *p).ok,
        ensures
            final(self).wf(),
            final(self).etat == old(self).etat,
            final(self).actifs == old(self).actifs,
            final(self).modele() == emettre_rest(old(self).modele(), 0, t as nat, *p),
    {
        let ghost total = emettre_rest(self.modele(), 0, t as nat, *p);
        let mut i: usize = 0;
        while i < N
            invariant
                self.wf(),
                self.etat@.len() == N,
                i <= N,
                emettre_rest(self.modele(), i as nat, t as nat, *p) == total,
                total.ok,
                self.etat == old(self).etat,
                self.actifs == old(self).actifs,
            decreases N - i,
        {
            let ghost cur = self.modele();
            assert(emettre_rest(emettre_agent(cur, i, t as nat, *p), (i + 1) as nat, t as nat, *p).ok
                ==> emettre_agent(cur, i, t as nat, *p).ok);
            self.emettre_agent(i, t, p);
            i += 1;
        }
    }

    /// One period `t`.
    fn periode(&mut self, t: usize, p: &Params)
        requires
            old(self).wf(),
            old(self).etat@.len() == N,
            periode_spec(old(self).modele(), t as nat, *p).ok,
        ensures
            final(self).wf(),
            final(self).etat@.len() == N,
            final(self).modele() == periode_spec(old(self).modele(), t as nat, *p),
    {
        let ghost cur = self.modele();
        let programme = match p.t_retrait {
            Some(x) => x == t,
            None => false,
        };
        if p.retrait > 0 && programme {
            let pop = self.liste_actifs();
            let k = if pop.len() == 0 {
                0
            } else if p.retrait <= pop.len() - 1 {
                p.retrait
            } else {
                pop.len() - 1
            };
            self.retirer(&pop, k);
        }
        assert(self.modele() == retrait_programme(cur, t as nat, *p));
        self.livrer(t);
        let ghost st1 = self.modele();
        let mut nouveaux: Vec<Option<Etat>> = Vec::new();
        while nouveaux.len() < N
            invariant
                nouveaux@.len() <= N,
                forall|x: int| 0 <= x < nouveaux@.len() ==> #[trigger] nouveaux@[x] is None,
            decreases N - nouveaux@.len(),
        {
            nouveaux.push(None);
        }
        self.nouveaux = nouveaux;
        assert(self.modele() =~= (SimState { nouveaux: Seq::new(N as nat, |d: int| None), ..st1 }));
        self.emettre(t, p);
        self.appliquer();
        if p.partition && t == p.max_periodes / 2 {
            let g = self.valeur_commune(Cote::Gauche);
            let d = self.valeur_commune(Cote::Droite);
            match (g, d) {
                (Some(a), Some(b)) => {
                    if a != b {
                        self.divergence = true;
                    }
                },
                _ => {},
            }
        }
        let ghost st3 = self.modele();
        if self.valeur_commune(Cote::Tous).is_some() {
            self.conv = Some(t);
            if p.partition && self.divergence && t > p.max_periodes / 2 {
                self.refusion = Some(t - p.max_periodes / 2);
            }
        }
        assert(self.modele() =~= convergence_spec(st3, t as nat, *p));
    }

    /// The value shared by the active agents that `c` selects.
    fn valeur_commune(&self, c: Cote) -> (r: Option<i32>)
        requires
            self.etat@.len() == N,
            self.actifs@.len() == N,
        ensures
            r == valeur_commune_spec(self.etat@, self.actifs@, c),
    {
        let ghost etat = self.etat@;
        let ghost actifs = self.actifs@;
        let mut valeurs: HashSet<i32> = HashSet::new();
        let mut premiere: Option<i32> = None;
        let mut i: usize = 0;
        while i < N
            invariant
                i <= N,
                etat == self.etat@,
                actifs == self.actifs@,
                etat.len() == N,
                actifs.len() == N,
                valeurs@.finite(),
                forall|v: i32| #[trigger] valeurs@.contains(v) <==> exists|j: int|
                    0 <= j < i && actifs[j] && #[trigger] selectionne(c, j) && etat[j].0 == v,
                premiere is None <==> !(exists|j: int|
                    0 <= j < i && actifs[j] && #[trigger] selectionne(c, j)),
                premiere matches Some(v) ==> valeurs@.contains(v),
            decreases N - i,
        {
            if self.actifs[i] && selectionne_exec(&c, i) {
                let v = self.etat[i].0;
                valeurs.insert(v);
                if premiere.is_none() {
                    premiere = Some(v);
                }
                proof {
                    assert(selectionne(c, i as int));
                }
            }
            i += 1;
        }
        proof {
            if exists|j: int| 0 <= j < N && actifs[j] && selectionne(c, j) {
                let i0 = choose|j: int| 0 <= j < N && actifs[j] && selectionne(c, j);
                let p = premiere.unwrap();
                assert(valeurs@.contains(etat[i0].0));
                if forall|j: int|
                    0 <= j < N && actifs[j] && selectionne(c, j) ==> #[trigger] etat[j].0 == etat[i0].0 {
                    assert(valeurs@ =~= Set::empty().insert(p)) by {
                        let jp = choose|j: int| 0 <= j < N && actifs[j] && selectionne(c, j) && etat[j].0 == p;
                    }
                } else {
                    let j1 = choose|j: int|
                        !(0 <= j < N && actifs[j] && selectionne(c, j) ==> #[trigger] etat[j].0 == etat[i0].0);
                    assert(valeurs@.contains(etat[j1].0));
                    let deux = Set::empty().insert(etat[i0].0).insert(etat[j1].0);
                    assert(deux.len() == 2);
                    vstd::set_lib::lemma_len_subset(deux, valeurs@);
                }
            } else {
                assert(valeurs@ =~= Set::empty());
            }
        }
        if valeurs.len() == 1 {
            premiere
        } else {
            None
        }
    }
}

} // verus!
