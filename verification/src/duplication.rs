//! Copies of a message change only the message count: with no loss and no
//! removal, a run with `d` copies per message reaches the same states as a
//! run with one copy, and sends `d` times as many messages.

use vstd::prelude::*;
use crate::sim::{etat_le, fusion_spec, law_fusion_upper_bound, Etat, N};
use crate::sample::{lemma_sample_all, lemma_sample_members, sample_spec, sample_terminates};
use crate::sim::{law_voisins_in_grid, voisins_spec, GRID_H, GRID_W};
use crate::simulation::{
    appliquer_spec, avant_periodes, cibles_spec, copies_rest, dests_rest, emettre_agent,
    emettre_rest, en_attente, envoi, etat_initial, law_messages_exacts, lemma_copies_cadre,
    lemma_dests_cadre, lemma_init_cadre, lemma_push_contains, livre, livrer_spec, meme_cote,
    nb_dests, periode_spec, resultat_spec, retrait_programme, run_from, sim_final, Params,
    SimState,
};

verus! {

/// Two queues hold the same messages.
pub open spec fn memes_messages(q1: Seq<(usize, Etat)>, q2: Seq<(usize, Etat)>) -> bool {
    forall|m: (usize, Etat)| q1.contains(m) <==> q2.contains(m)
}

/// Delivering a queue yields the largest of the state and the arrived
/// messages.
proof fn lemma_livre_max(e: Etat, q: Seq<(usize, Etat)>, t: nat)
    ensures
        livre(e, q, t) == e || exists|m: (usize, Etat)| q.contains(m) && m.0 <= t && livre(e, q, t) == m.1,
        etat_le(e, livre(e, q, t)),
        forall|m: (usize, Etat)| q.contains(m) && m.0 <= t ==> etat_le(m.1, livre(e, q, t)),
    decreases q.len(),
{
    if q.len() > 0 {
        let q0 = q.drop_last();
        lemma_livre_max(e, q0, t);
        let e1 = livre(e, q0, t);
        law_fusion_upper_bound(e1, q.last().1);
        assert(q.contains(q.last())) by {
            assert(q[q.len() - 1] == q.last());
        }
        assert forall|m: (usize, Etat)| q0.contains(m) implies q.contains(m) by {
            let k = choose|k: int| 0 <= k < q0.len() && q0[k] == m;
            assert(q[k] == m);
        }
        assert forall|m: (usize, Etat)| q.contains(m) implies m == q.last() || q0.contains(m) by {
            let k = choose|k: int| 0 <= k < q.len() && q[k] == m;
            if k < q.len() - 1 {
                assert(q0[k] == m);
            }
        }
    }
}

/// Delivery depends only on which messages a queue holds.
pub proof fn lemma_livre_memes(e: Etat, q1: Seq<(usize, Etat)>, q2: Seq<(usize, Etat)>, t: nat)
    requires
        memes_messages(q1, q2),
    ensures
        livre(e, q1, t) == livre(e, q2, t),
{
    lemma_livre_max(e, q1, t);
    lemma_livre_max(e, q2, t);
}

/// The messages still in flight are those not arrived.
pub proof fn lemma_en_attente(q: Seq<(usize, Etat)>, t: nat, m: (usize, Etat))
    ensures
        en_attente(q, t).contains(m) <==> q.contains(m) && m.0 > t,
    decreases q.len(),
{
    if q.len() > 0 {
        let q0 = q.drop_last();
        lemma_en_attente(q0, t, m);
        lemma_push_contains(en_attente(q0, t), q.last(), m);
        lemma_push_contains(q0, q.last(), m);
        assert(q =~= q0.push(q.last()));
    }
}

/// The message agent `i` sends at period `t`.
pub open spec fn message(st: SimState, i: usize, t: nat, p: Params) -> (usize, Etat) {
    ((t + p.latence) as usize, st.etat[i as int])
}

/// Some destination from position `k` on is `y`.
pub open spec fn vise(dests: Seq<usize>, k: nat, y: int) -> bool {
    exists|a: int| k <= a < dests.len() && dests[a] as int == y
}

/// The copies of a message to `x` from copy `c` on, when nothing is lost.
proof fn lemma_copies_effet(st: SimState, i: usize, x: usize, c: nat, t: nat, p: Params)
    requires
        copies_rest(st, i, x, c, t, p).ok,
        c <= p.duplication,
        st.nouveaux.len() == N,
        st.en_vol.len() == N,
        x < N,
        p.seuil_perte == 0,
    ensures
        ({
            let r = copies_rest(st, i, x, c, t, p);
            let sent = c < p.duplication;
            &&& r.messages == st.messages + (p.duplication - c)
            &&& r.en_vol.len() == N
            &&& r.nouveaux.len() == N
            &&& r.etat == st.etat
            &&& forall|y: int, m: (usize, Etat)|
                0 <= y < N ==> (#[trigger] r.en_vol[y].contains(m) <==> st.en_vol[y].contains(m) || (
                sent && y == x && p.latence > 0 && m == message(st, i, t, p)))
            &&& forall|y: int|
                0 <= y < N ==> #[trigger] r.nouveaux[y] == (if sent && y == x && p.latence == 0 {
                    fusion_spec(st.nouveaux[y], Some(st.etat[i as int]))
                } else {
                    st.nouveaux[y]
                })
        }),
    decreases p.duplication - c,
{
    lemma_copies_cadre(st, i, x, c, t, p);
    if c < p.duplication {
        assert(st.ok);
        let st1 = envoi(st, i, x, t, p);
        assert(copies_rest(st1, i, x, c + 1, t, p).ok ==> st1.ok);
        lemma_copies_effet(st1, i, x, c + 1, t, p);
        let msg = message(st, i, t, p);
        if p.latence > 0 {
            assert forall|y: int, m: (usize, Etat)| 0 <= y < N implies (#[trigger] st1.en_vol[y].contains(m)
                <==> st.en_vol[y].contains(m) || (y == x && m == msg)) by {
                if y == x {
                    lemma_push_contains(st.en_vol[y], msg, m);
                }
            }
        }
    }
}

/// The messages to `dests[k..]`, when nothing is lost.
proof fn lemma_dests_effet(st: SimState, i: usize, dests: Seq<usize>, k: nat, t: nat, p: Params)
    requires
        dests_rest(st, i, dests, k, t, p).ok,
        k <= dests.len(),
        forall|a: int| 0 <= a < dests.len() ==> #[trigger] dests[a] < N,
        p.duplication >= 1,
        st.nouveaux.len() == N,
        st.en_vol.len() == N,
        p.seuil_perte == 0,
    ensures
        ({
            let r = dests_rest(st, i, dests, k, t, p);
            &&& r.messages == st.messages + (dests.len() - k) * p.duplication
            &&& r.en_vol.len() == N
            &&& r.nouveaux.len() == N
            &&& r.etat == st.etat
            &&& forall|y: int, m: (usize, Etat)|
                0 <= y < N ==> (#[trigger] r.en_vol[y].contains(m) <==> st.en_vol[y].contains(m) || (
                p.latence > 0 && m == message(st, i, t, p) && vise(dests, k, y)))
            &&& forall|y: int|
                0 <= y < N ==> #[trigger] r.nouveaux[y] == (if p.latence == 0 && vise(dests, k, y) {
                    fusion_spec(st.nouveaux[y], Some(st.etat[i as int]))
                } else {
                    st.nouveaux[y]
                })
        }),
    decreases dests.len() - k,
{
    lemma_dests_cadre(st, i, dests, k, t, p);
    if k < dests.len() {
        assert(st.ok);
        let x = dests[k as int];
        let st1 = copies_rest(st, i, x, 0, t, p);
        assert(dests_rest(st1, i, dests, k + 1, t, p).ok ==> st1.ok);
        lemma_copies_effet(st, i, x, 0, t, p);
        lemma_dests_effet(st1, i, dests, k + 1, t, p);
        assert(p.duplication + (dests.len() - k - 1) * p.duplication == (dests.len() - k)
            * p.duplication) by (nonlinear_arith);
        assert forall|y: int| 0 <= y < N implies vise(dests, k, y) == (x as int == y || vise(
            dests,
            k + 1,
            y,
        )) by {
            if vise(dests, k, y) && x as int != y {
                let a = choose|a: int| k <= a < dests.len() && dests[a] as int == y;
                assert(a != k);
                assert(vise(dests, k + 1, y));
            }
            if x as int == y {
                assert(dests[k as int] as int == y);
            }
        }
    } else {
        assert forall|y: int| 0 <= y < N implies !vise(dests, k, y) by {}
    }
}

/// The parameters `p` with `d` copies of each message.
pub open spec fn dupliquer(p: Params, d: usize) -> Params {
    Params { duplication: d, ..p }
}

/// Two states agree on everything but the generator, the queues hold the
/// same messages, and the second has sent `d` times as many messages.
pub open spec fn relies(a: SimState, b: SimState, d: nat) -> bool {
    &&& a.etat == b.etat
    &&& a.etat.len() == N
    &&& a.actifs == b.actifs
    &&& a.actifs.len() == N
    &&& a.nouveaux == b.nouveaux
    &&& a.en_vol.len() == N
    &&& b.en_vol.len() == N
    &&& forall|y: int| 0 <= y < N ==> memes_messages(#[trigger] a.en_vol[y], b.en_vol[y])
    &&& a.divergence == b.divergence
    &&& a.conv == b.conv
    &&& a.refusion == b.refusion
    &&& b.messages == d * a.messages
}

proof fn lemma_meme_cote(v: Seq<usize>, i: usize, n: nat)
    requires
        n <= v.len(),
        forall|b: int| 0 <= b < n ==> #[trigger] v[b] < N,
    ensures
        meme_cote(v, i, n).len() <= n,
        forall|a: int| 0 <= a < meme_cote(v, i, n).len() ==> #[trigger] meme_cote(v, i, n)[a] < N,
    decreases n,
{
    if n > 0 {
        lemma_meme_cote(v, i, (n - 1) as nat);
    }
}

/// The neighbours an agent may contact: at most four cells of the grid.
pub(crate) proof fn lemma_cibles(i: usize, t: nat, p: Params)
    requires
        i < N,
    ensures
        cibles_spec(i, t, p).len() <= 4,
        forall|a: int| 0 <= a < cibles_spec(i, t, p).len() ==> #[trigger] cibles_spec(i, t, p)[a] < N,
{
    let v = voisins_spec(i, GRID_W, GRID_H);
    law_voisins_in_grid(i, GRID_W, GRID_H);
    assert(v.len() <= 4);
    lemma_meme_cote(v, i, v.len());
}

/// Emission by an active agent with somewhere to send, when nothing is
/// lost: every neighbour it may contact gets one message per copy.
pub(crate) proof fn lemma_agent_effet(st: SimState, i: usize, t: nat, p: Params)
    requires
        emettre_agent(st, i, t, p).ok,
        i < N,
        st.actifs[i as int],
        cibles_spec(i, t, p).len() > 0,
        st.nouveaux.len() == N,
        st.en_vol.len() == N,
        p.seuil_perte == 0,
        p.duplication >= 1,
    ensures
        ({
            let r = emettre_agent(st, i, t, p);
            let c = cibles_spec(i, t, p);
            &&& r.messages == st.messages + c.len() * p.duplication
            &&& r.en_vol.len() == N
            &&& r.nouveaux.len() == N
            &&& r.etat == st.etat
            &&& r.actifs == st.actifs
            &&& r.divergence == st.divergence
            &&& r.conv == st.conv
            &&& r.refusion == st.refusion
            &&& forall|y: int, m: (usize, Etat)|
                0 <= y < N ==> (#[trigger] r.en_vol[y].contains(m) <==> st.en_vol[y].contains(m) || (
                p.latence > 0 && m == message(st, i, t, p) && c.contains(y as usize)))
            &&& forall|y: int|
                0 <= y < N ==> #[trigger] r.nouveaux[y] == (if p.latence == 0 && c.contains(y as usize) {
                    fusion_spec(st.nouveaux[y], Some(st.etat[i as int]))
                } else {
                    st.nouveaux[y]
                })
        }),
{
    let c = cibles_spec(i, t, p);
    assert(st.ok);
    lemma_cibles(i, t, p);
    let k = nb_dests(c.len());
    assert(k == c.len());
    let pa = sample_spec(st.rng, c, k);
    let am = SimState { rng: pa.1, ok: sample_terminates(st.rng, c.len(), k), ..st };
    assert(dests_rest(am, i, pa.0, 0, t, p).ok ==> am.ok);
    lemma_sample_all(st.rng, c);
    lemma_sample_members(st.rng, c, k);
    assert forall|x: int| 0 <= x < pa.0.len() implies #[trigger] pa.0[x] < N by {
        assert(pa.0.contains(pa.0[x]));
        assert(c.contains(pa.0[x]));
        let z = choose|z: int| 0 <= z < c.len() && c[z] == pa.0[x];
        assert(c[z] < N);
    }
    lemma_dests_effet(am, i, pa.0, 0, t, p);
    lemma_dests_cadre(am, i, pa.0, 0, t, p);
    assert forall|y: int| 0 <= y < N implies vise(pa.0, 0, y) == c.contains(y as usize) by {
        let yu = y as usize;
        if vise(pa.0, 0, y) {
            let x = choose|x: int| 0 <= x < pa.0.len() && pa.0[x] as int == y;
            assert(pa.0.contains(yu));
        }
        if c.contains(yu) {
            assert(pa.0.contains(yu));
            let z = choose|z: int| 0 <= z < pa.0.len() && pa.0[z] == yu;
        }
    }
}

/// Emission by one agent keeps two related states related.
proof fn lemma_agent_relie(a: SimState, b: SimState, i: nat, t: nat, p: Params, d: usize)
    requires
        relies(a, b, d as nat),
        a.nouveaux.len() == N,
        i < N,
        emettre_agent(a, i as usize, t, p).ok,
        emettre_agent(b, i as usize, t, dupliquer(p, d)).ok,
        p.seuil_perte == 0,
        p.duplication == 1,
        d >= 1,
    ensures
        relies(emettre_agent(a, i as usize, t, p), emettre_agent(b, i as usize, t, dupliquer(p, d)), d as nat),
        emettre_agent(a, i as usize, t, p).nouveaux.len() == N,
{
    let q = dupliquer(p, d);
    let iu = i as usize;
    let c = cibles_spec(iu, t, p);
    assert(cibles_spec(iu, t, q) == c);
    assert(a.ok);
    assert(b.ok);
    if a.actifs[i as int] && c.len() > 0 {
        lemma_agent_effet(a, iu, t, p);
        lemma_agent_effet(b, iu, t, q);
        let ra = emettre_agent(a, iu, t, p);
        let rb = emettre_agent(b, iu, t, q);
        assert(rb.messages == d * ra.messages) by (nonlinear_arith)
            requires
                b.messages == d * a.messages,
                ra.messages == a.messages + c.len() * 1,
                rb.messages == b.messages + c.len() * d,
        ;
        assert(ra.nouveaux =~= rb.nouveaux);
    }
}

/// Emission by agents `i..N` keeps two related states related.
proof fn lemma_emettre_relie(a: SimState, b: SimState, i: nat, t: nat, p: Params, d: usize)
    requires
        relies(a, b, d as nat),
        a.nouveaux.len() == N,
        emettre_rest(a, i, t, p).ok,
        emettre_rest(b, i, t, dupliquer(p, d)).ok,
        p.seuil_perte == 0,
        p.duplication == 1,
        d >= 1,
    ensures
        relies(emettre_rest(a, i, t, p), emettre_rest(b, i, t, dupliquer(p, d)), d as nat),
    decreases N - i,
{
    let q = dupliquer(p, d);
    if i < N {
        assert(a.ok);
        assert(b.ok);
        let a1 = emettre_agent(a, i as usize, t, p);
        let b1 = emettre_agent(b, i as usize, t, q);
        assert(emettre_rest(a1, i + 1, t, p).ok ==> a1.ok);
        assert(emettre_rest(b1, i + 1, t, q).ok ==> b1.ok);
        lemma_agent_relie(a, b, i, t, p, d);
        lemma_emettre_relie(a1, b1, i + 1, t, p, d);
    }
}

/// A period keeps two related states related.
proof fn lemma_periode_relie(a: SimState, b: SimState, t: nat, p: Params, d: usize)
    requires
        relies(a, b, d as nat),
        periode_spec(a, t, p).ok,
        periode_spec(b, t, dupliquer(p, d)).ok,
        p.seuil_perte == 0,
        p.retrait == 0,
        p.duplication == 1,
        d >= 1,
    ensures
        relies(periode_spec(a, t, p), periode_spec(b, t, dupliquer(p, d)), d as nat),
{
    let q = dupliquer(p, d);
    assert(retrait_programme(a, t, p) == a);
    assert(retrait_programme(b, t, q) == b);
    let la = livrer_spec(a, t);
    let lb = livrer_spec(b, t);
    assert forall|y: int| 0 <= y < N implies memes_messages(#[trigger] la.en_vol[y], lb.en_vol[y]) by {
        assert forall|m: (usize, Etat)| la.en_vol[y].contains(m) <==> lb.en_vol[y].contains(m) by {
            lemma_en_attente(a.en_vol[y], t, m);
            lemma_en_attente(b.en_vol[y], t, m);
        }
    }
    assert forall|y: int| 0 <= y < N implies #[trigger] la.etat[y] == lb.etat[y] by {
        lemma_livre_memes(a.etat[y], a.en_vol[y], b.en_vol[y], t);
    }
    assert(la.etat =~= lb.etat);
    let ea = SimState { nouveaux: Seq::new(N as nat, |x: int| None), ..la };
    let eb = SimState { nouveaux: Seq::new(N as nat, |x: int| None), ..lb };
    assert(relies(ea, eb, d as nat));
    lemma_emettre_relie(ea, eb, 0, t, p, d);
    let ra = emettre_rest(ea, 0, t, p);
    let rb = emettre_rest(eb, 0, t, q);
    assert(appliquer_spec(ra).etat =~= appliquer_spec(rb).etat);
}

/// A run from period `t` on keeps two related states related.
proof fn lemma_run_relie(a: SimState, b: SimState, t: nat, p: Params, d: usize)
    requires
        relies(a, b, d as nat),
        run_from(a, t, p).ok,
        run_from(b, t, dupliquer(p, d)).ok,
        p.seuil_perte == 0,
        p.retrait == 0,
        p.duplication == 1,
        d >= 1,
    ensures
        relies(run_from(a, t, p), run_from(b, t, dupliquer(p, d)), d as nat),
    decreases p.max_periodes + 1 - t,
{
    let q = dupliquer(p, d);
    if a.ok && t <= p.max_periodes && t != 0 {
        assert(b.ok);
        let a1 = periode_spec(a, t, p);
        let b1 = periode_spec(b, t, q);
        assert(run_from(a1, t + 1, p).ok ==> a1.ok);
        assert(run_from(b1, t + 1, q).ok ==> b1.ok);
        lemma_periode_relie(a, b, t, p, d);
        if a1.conv is None {
            lemma_run_relie(a1, b1, t + 1, p, d);
        }
    } else {
        assert(b.ok || !a.ok);
    }
}

/// Copies of messages change only the message count: with no loss and no
/// removal, a run with `d` copies of each message ends like the run with
/// one copy (same convergence, agreement, active agents, divergence and
/// re-merge delay) and sends `d` times as many messages.
pub proof fn law_duplication(seed: u64, p: Params, d: usize)
    requires
        p.seuil_perte == 0,
        p.retrait == 0,
        p.duplication == 1,
        d >= 1,
        sim_final(seed, p).ok,
        sim_final(seed, dupliquer(p, d)).ok,
    ensures
        ({
            let a = resultat_spec(seed, p);
            let b = resultat_spec(seed, dupliquer(p, d));
            &&& b.periode_convergence == a.periode_convergence
            &&& b.accord == a.accord
            &&& b.taille_etat == a.taille_etat
            &&& b.periode_refusion == a.periode_refusion
            &&& b.divergence_reelle == a.divergence_reelle
            &&& b.messages == d * a.messages
        }),
{
    let q = dupliquer(p, d);
    let st = avant_periodes(seed, p);
    assert(avant_periodes(seed, q) == st);
    let s0 = etat_initial(seed);
    lemma_init_cadre(s0, 0);
    assert(run_from(st, 1, p).ok ==> st.ok);
    assert(st.messages == 0);
    assert(st.etat.len() == N);
    assert(relies(st, st, d as nat));
    lemma_run_relie(st, st, 1, p, d);
    let fa = sim_final(seed, p);
    let fb = sim_final(seed, q);
    assert(fa.etat == fb.etat && fa.actifs == fb.actifs);
    law_messages_exacts(seed, p);
    law_messages_exacts(seed, q);
    assert(fa.messages <= fb.messages) by (nonlinear_arith)
        requires
            fb.messages == d * fa.messages,
            d >= 1,
    ;
}

} // verus!
