use consensus_rs::{simuler, Params};

/// `ceil(perte * 2**53)`, the loss threshold on the 53-bit draw.
fn seuil(perte: f64) -> u64 {
    (perte * 9_007_199_254_740_992.0).ceil() as u64
}

#[test]
fn t1_converge_sans_perte() {
    let r = simuler(1001, &Params::default());
    assert!(r.accord, "T1 doit converger sans perte");
    assert_eq!(r.taille_etat, 30);
}

#[test]
fn t8_retrait_avant_convergence() {
    let p = Params {
        retrait: 3,
        t_retrait: Some(3),
        ..Default::default()
    };
    let r = simuler(1001, &p);
    assert_eq!(r.taille_etat, 30, "convergence avant t=3 : retrait non appliqué");
}

#[test]
fn retrait_a_l_initialisation() {
    let p = Params {
        retrait: 3,
        t_retrait: None,
        ..Default::default()
    };
    let r = simuler(1001, &p);
    assert_eq!(r.taille_etat, 27, "3 agents retirés sur 30");
}

#[test]
fn parametres_par_defaut() {
    let p = Params::default();
    assert_eq!(p.seuil_perte, 0);
    assert_eq!(p.duplication, 1);
    assert_eq!(p.retrait, 0);
    assert!(!p.partition);
    assert_eq!(p.max_periodes, 200);
    assert_eq!(p.latence, 0);
    assert_eq!(p.t_retrait, None);
    assert!(!p.forcer_divergence);
}

#[test]
fn convergence_implique_accord() {
    for seed in [1_u64, 7, 42, 1001] {
        let r = simuler(seed, &Params::default());
        if let Some(t) = r.periode_convergence {
            assert!(r.accord);
            assert!(t >= 1 && t <= 200);
        }
        assert!(r.messages > 0);
    }
}

#[test]
fn zero_periode_ne_simule_rien() {
    let p = Params {
        max_periodes: 0,
        ..Default::default()
    };
    let r = simuler(1001, &p);
    assert_eq!(r.periode_convergence, None);
    assert_eq!(r.messages, 0);
    assert_eq!(r.taille_etat, 30);
    assert_eq!(r.periode_refusion, None);
}

#[test]
fn perte_totale_bloque_la_diffusion() {
    let p = Params {
        seuil_perte: seuil(1.0),
        max_periodes: 10,
        ..Default::default()
    };
    let r = simuler(1001, &p);
    assert_eq!(r.periode_convergence, None);
    assert!(!r.accord);
    assert!(r.messages > 0);
}

#[test]
fn retrait_plafonne_a_n_moins_un() {
    let p = Params {
        retrait: 100,
        t_retrait: None,
        ..Default::default()
    };
    let r = simuler(1001, &p);
    assert_eq!(r.taille_etat, 1);
    assert!(r.accord);
    assert_eq!(r.periode_convergence, Some(1));
}

#[test]
fn partition_forcee_diverge_puis_refusionne() {
    let p = Params {
        partition: true,
        forcer_divergence: true,
        max_periodes: 40,
        ..Default::default()
    };
    let r = simuler(1001, &p);
    assert!(r.divergence_reelle);
    let t = r.periode_convergence.expect("re-fusion après la partition");
    assert!(t > 20);
    assert_eq!(r.periode_refusion, Some(t - 20));
    assert!(r.accord);
}

#[test]
fn latence_retarde_la_convergence() {
    let sans = simuler(1001, &Params::default());
    let p = Params {
        latence: 2,
        ..Default::default()
    };
    let avec = simuler(1001, &p);
    assert!(avec.accord);
    assert!(avec.periode_convergence.unwrap() >= sans.periode_convergence.unwrap());
}

#[test]
fn duplication_multiplie_les_messages() {
    let p = Params {
        duplication: 2,
        max_periodes: 1,
        ..Default::default()
    };
    let un = simuler(5, &Params { max_periodes: 1, ..Default::default() });
    let deux = simuler(5, &p);
    assert_eq!(deux.messages, 2 * un.messages);
}

#[test]
fn simulation_deterministe() {
    let p = Params {
        seuil_perte: seuil(0.3),
        duplication: 2,
        latence: 1,
        ..Default::default()
    };
    assert_eq!(simuler(2026, &p), simuler(2026, &p));
}

#[test]
fn duplication_ne_change_que_le_nombre_de_messages() {
    for latence in [0usize, 2] {
        let p = Params {
            latence,
            ..Default::default()
        };
        let un = simuler(1001, &p);
        let trois = simuler(1001, &Params { duplication: 3, ..p });
        assert_eq!(trois.periode_convergence, un.periode_convergence);
        assert_eq!(trois.accord, un.accord);
        assert_eq!(trois.taille_etat, un.taille_etat);
        assert_eq!(trois.periode_refusion, un.periode_refusion);
        assert_eq!(trois.divergence_reelle, un.divergence_reelle);
        assert_eq!(trois.messages, 3 * un.messages);
    }
}

#[test]
fn convergence_garantie_en_neuf_periodes() {
    for seed in [0_u64, 1, 7, 42, 1001, 2026] {
        for duplication in [1usize, 2] {
            let p = Params {
                duplication,
                max_periodes: 9,
                ..Default::default()
            };
            let r = simuler(seed, &p);
            let t = r.periode_convergence.expect("converge dans le diamètre de la grille");
            assert!(t >= 1 && t <= 9);
            assert!(r.accord);
        }
    }
}

#[test]
fn accord_implique_convergence() {
    for seed in [3_u64, 1001] {
        for max_periodes in [1usize, 2, 5] {
            let p = Params {
                max_periodes,
                ..Default::default()
            };
            let r = simuler(seed, &p);
            assert_eq!(r.accord, r.periode_convergence.is_some());
        }
    }
}

#[test]
fn divergence_retarde_la_convergence() {
    let p = Params {
        partition: true,
        forcer_divergence: true,
        max_periodes: 12,
        ..Default::default()
    };
    let r = simuler(7, &p);
    assert!(r.divergence_reelle);
    if let Some(t) = r.periode_convergence {
        assert!(t > 6);
    }
}

#[test]
fn trafic_par_periode() {
    let r = simuler(1001, &Params::default());
    let t = r.periode_convergence.expect("converge") as u64;
    assert_eq!(r.messages, 98 * t);
    let p = Params {
        seuil_perte: seuil(1.0),
        duplication: 2,
        max_periodes: 10,
        ..Default::default()
    };
    let r = simuler(1001, &p);
    assert_eq!(r.periode_convergence, None);
    assert_eq!(r.messages, 98 * 2 * 10);
}
