use consensus_rs::{fusion, voisins};

#[test]
fn voisins_coin() {
    assert_eq!(voisins(0, 6, 5), vec![1, 6]);
}

#[test]
fn voisins_centre() {
    assert_eq!(voisins(7, 6, 5), vec![6, 8, 1, 13]);
}

#[test]
fn voisins_coin_oppose() {
    assert_eq!(voisins(29, 6, 5), vec![28, 23]);
}

#[test]
fn voisins_bord_droit() {
    assert_eq!(voisins(11, 6, 5), vec![10, 5, 17]);
}

#[test]
fn voisins_symetriques_sur_la_grille() {
    for i in 0..30 {
        for j in voisins(i, 6, 5) {
            assert!(j < 30 && j != i);
            assert!(voisins(j, 6, 5).contains(&i));
        }
    }
}

#[test]
fn voisins_grille_d_une_case() {
    assert!(voisins(0, 1, 1).is_empty());
}

#[test]
fn fusion_est_commutative() {
    let a = Some((3, 1));
    let b = Some((5, 0));
    assert_eq!(fusion(a, b), fusion(b, a));
}

#[test]
fn fusion_est_idempotente() {
    let a = Some((3, 1));
    assert_eq!(fusion(a, a), a);
}

#[test]
fn fusion_est_associative() {
    let a = Some((3, 1));
    let b = Some((5, 0));
    let c = Some((1, 9));
    assert_eq!(fusion(fusion(a, b), c), fusion(a, fusion(b, c)));
}

#[test]
fn fusion_none_est_neutre() {
    let a = Some((3, 1));
    assert_eq!(fusion(None, a), a);
    assert_eq!(fusion(a, None), a);
}

#[test]
fn fusion_horloge_departage_les_egalites() {
    assert_eq!(fusion(Some((4, 1)), Some((4, 7))), Some((4, 7)));
    assert_eq!(fusion(Some((-2, 9)), Some((1, 0))), Some((1, 0)));
    assert_eq!(fusion(None, None), None);
}

#[test]
fn fusion_independante_de_l_ordre_et_des_doublons() {
    let etats = [(3, 1), (5, 0), (1, 9), (5, 2), (-4, 7)];
    let plie = |q: &[(i32, u32)]| q.iter().fold(None, |acc, &e| fusion(acc, Some(e)));
    let reference = plie(&etats);
    assert_eq!(reference, Some((5, 2)));
    let permute = [(1, 9), (5, 2), (-4, 7), (3, 1), (5, 0)];
    assert_eq!(plie(&permute), reference);
    let doublons = [(5, 0), (5, 2), (3, 1), (5, 2), (1, 9), (-4, 7), (3, 1)];
    assert_eq!(plie(&doublons), reference);
}
