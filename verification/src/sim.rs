//! Semilattice merge of agent states and the grid neighbourhood.
//!
//! The merge is the maximum on the pair `(value, logical clock)` in
//! lexicographic order; `None` stands for an agent without information.
//! Being commutative, associative and idempotent, it makes the final state
//! independent of message order, loss and duplication.

use vstd::prelude::*;
use vstd::arithmetic::div_mod::{
    lemma_div_pos_is_pos, lemma_fundamental_div_mod, lemma_fundamental_div_mod_converse,
    lemma_mod_bound,
};

verus! {

/// Width of the grid.
pub const GRID_W: usize = 6;

/// Height of the grid.
pub const GRID_H: usize = 5;

/// Number of agents.
pub const N: usize = 30;

/// Number of neighbours contacted per period.
pub const FANOUT: usize = 6;

/// State of an agent: `(value, logical clock)`.
pub type Etat = (i32, u32);

/// Lexicographic order on states: `a <= b`.
pub open spec fn etat_le(a: Etat, b: Etat) -> bool {
    a.0 < b.0 || (a.0 == b.0 && a.1 <= b.1)
}

/// The merge, as a mathematical function.
pub open spec fn fusion_spec(a: Option<Etat>, b: Option<Etat>) -> Option<Etat> {
    match (a, b) {
        (None, x) => x,
        (x, None) => x,
        (Some(x), Some(y)) => Some(if etat_le(y, x) { x } else { y }),
    }
}

/// Semilattice merge: the lexicographic maximum of `(value, clock)`;
/// `None` is the neutral element.
pub fn fusion(a: Option<Etat>, b: Option<Etat>) -> (r: Option<Etat>)
    ensures
        r == fusion_spec(a, b),
{
    match (a, b) {
        (None, x) => x,
        (x, None) => x,
        (Some(x), Some(y)) => {
            if x.0 > y.0 || (x.0 == y.0 && x.1 >= y.1) {
                Some(x)
            } else {
                Some(y)
            }
        },
    }
}

/// The merge is commutative: `a ⊔ b = b ⊔ a`.
pub proof fn law_fusion_commutative(a: Option<Etat>, b: Option<Etat>)
    ensures
        fusion_spec(a, b) == fusion_spec(b, a),
{
}

/// The merge is associative: `(a ⊔ b) ⊔ c = a ⊔ (b ⊔ c)`.
pub proof fn law_fusion_associative(a: Option<Etat>, b: Option<Etat>, c: Option<Etat>)
    ensures
        fusion_spec(fusion_spec(a, b), c) == fusion_spec(a, fusion_spec(b, c)),
{
}

/// The merge is idempotent: `a ⊔ a = a`.
pub proof fn law_fusion_idempotent(a: Option<Etat>)
    ensures
        fusion_spec(a, a) == a,
{
}

/// `None` is neutral on both sides.
pub proof fn law_fusion_none_neutral(a: Option<Etat>)
    ensures
        fusion_spec(None, a) == a,
        fusion_spec(a, None) == a,
{
}

/// The merge is an upper bound of both arguments, and is one of them.
pub proof fn law_fusion_upper_bound(x: Etat, y: Etat)
    ensures
        fusion_spec(Some(x), Some(y)) == Some(x) || fusion_spec(Some(x), Some(y)) == Some(y),
        etat_le(x, fusion_spec(Some(x), Some(y)).unwrap()),
        etat_le(y, fusion_spec(Some(x), Some(y)).unwrap()),
{
}

/// Merging, in order, the states of `q` into `acc`.
pub open spec fn fusion_fold(acc: Option<Etat>, q: Seq<Etat>) -> Option<Etat>
    decreases q.len(),
{
    if q.len() == 0 {
        acc
    } else {
        fusion_spec(fusion_fold(acc, q.drop_last()), Some(q.last()))
    }
}

/// The folded merge is the largest of `acc` and the states of `q`.
proof fn lemma_fusion_fold_max(acc: Option<Etat>, q: Seq<Etat>)
    ensures
        fusion_fold(acc, q) is None <==> acc is None && q.len() == 0,
        fusion_fold(acc, q) matches Some(m) ==> {
            &&& acc == Some(m) || q.contains(m)
            &&& acc matches Some(a) ==> etat_le(a, m)
            &&& forall|x: Etat| q.contains(x) ==> etat_le(x, m)
        },
    decreases q.len(),
{
    if q.len() > 0 {
        let q0 = q.drop_last();
        lemma_fusion_fold_max(acc, q0);
        assert(q.contains(q.last())) by {
            assert(q[q.len() - 1] == q.last());
        }
        assert forall|x: Etat| q0.contains(x) implies q.contains(x) by {
            let t = choose|t: int| 0 <= t < q0.len() && q0[t] == x;
            assert(q[t] == x);
        }
        assert forall|x: Etat| q.contains(x) implies x == q.last() || q0.contains(x) by {
            let t = choose|t: int| 0 <= t < q.len() && q[t] == x;
            if t < q.len() - 1 {
                assert(q0[t] == x);
            }
        }
    }
}

/// The merge of a sequence of states depends only on which states it holds:
/// neither their order nor their repetition matters.
pub proof fn law_fusion_order_independent(acc: Option<Etat>, q1: Seq<Etat>, q2: Seq<Etat>)
    requires
        forall|x: Etat| q1.contains(x) <==> q2.contains(x),
    ensures
        fusion_fold(acc, q1) == fusion_fold(acc, q2),
{
    lemma_fusion_fold_max(acc, q1);
    lemma_fusion_fold_max(acc, q2);
    if q1.len() == 0 && q2.len() > 0 {
        assert(q2.contains(q2[0]));
    }
    if q2.len() == 0 && q1.len() > 0 {
        assert(q1.contains(q1[0]));
    }
}

/// The 4-connected neighbours of cell `i` on a grid `w` wide and `h` high,
/// in the order left, right, up, down.
pub open spec fn voisins_spec(i: usize, w: usize, h: usize) -> Seq<usize> {
    let x = i % w;
    let y = i / w;
    (if x > 0 { seq![(i - 1) as usize] } else { Seq::empty() })
        + (if x + 1 < w { seq![(i + 1) as usize] } else { Seq::empty() })
        + (if y > 0 { seq![(i - w) as usize] } else { Seq::empty() })
        + (if y + 1 < h { seq![(i + w) as usize] } else { Seq::empty() })
}

/// The coordinates of a cell never exceed its index.
proof fn lemma_cell_coordinates(i: int, w: int)
    requires
        0 <= i,
        0 < w,
    ensures
        i == w * (i / w) + i % w,
        0 <= i % w < w,
        0 <= i / w,
        i % w <= i,
        i / w > 0 ==> w <= i,
{
    lemma_fundamental_div_mod(i, w);
    lemma_mod_bound(i, w);
    lemma_div_pos_is_pos(i, w);
    assert(i / w > 0 ==> w * (i / w) >= w) by (nonlinear_arith)
        requires
            0 < w,
    ;
}

/// 4-connected neighbourhood on a `w × h` grid.
pub fn voisins(i: usize, w: usize, h: usize) -> (out: Vec<usize>)
    requires
        w > 0,
        h > 0,
        i % w + 1 < w ==> i + 1 <= usize::MAX,
        i / w + 1 < h ==> i + w <= usize::MAX,
    ensures
        out@ == voisins_spec(i, w, h),
{
    let x = i % w;
    let y = i / w;
    proof {
        lemma_cell_coordinates(i as int, w as int);
    }
    let mut out: Vec<usize> = Vec::new();
    if x > 0 {
        out.push(i - 1);
    }
    if x < w - 1 {
        out.push(i + 1);
    }
    if y > 0 {
        out.push(i - w);
    }
    if y < h - 1 {
        out.push(i + w);
    }
    out
}

/// Cell `i` sits at column `x` and row `y`.
proof fn lemma_cell_at(i: int, w: int, x: int, y: int)
    requires
        0 < w,
        0 <= x < w,
        i == y * w + x,
    ensures
        i % w == x,
        i / w == y,
{
    lemma_fundamental_div_mod_converse(i, w, y, x);
}

proof fn lemma_grid_cell(i: int, w: int, h: int)
    requires
        0 < w,
        0 < h,
        0 <= i < w * h,
    ensures
        0 <= i % w < w,
        0 <= i / w < h,
        i == (i / w) * w + i % w,
{
    lemma_fundamental_div_mod(i, w);
    lemma_mod_bound(i, w);
    lemma_div_pos_is_pos(i, w);
    assert((i / w) * w == w * (i / w)) by (nonlinear_arith);
    assert(i / w < h) by (nonlinear_arith)
        requires
            0 < w,
            i == w * (i / w) + i % w,
            0 <= i % w,
            i < w * h,
    ;
}

/// A concatenation holds what either part holds.
pub proof fn lemma_concat_contains(a: Seq<usize>, b: Seq<usize>, z: usize)
    ensures
        (a + b).contains(z) <==> a.contains(z) || b.contains(z),
{
    if (a + b).contains(z) {
        let t = choose|t: int| 0 <= t < (a + b).len() && (a + b)[t] == z;
        if t < a.len() {
            assert(a[t] == z);
        } else {
            assert(b[t - a.len()] == z);
        }
    }
    if a.contains(z) {
        let t = choose|t: int| 0 <= t < a.len() && a[t] == z;
        assert((a + b)[t] == z);
    }
    if b.contains(z) {
        let t = choose|t: int| 0 <= t < b.len() && b[t] == z;
        assert((a + b)[a.len() + t] == z);
    }
}

proof fn lemma_opt_contains(c: bool, e: usize, z: usize)
    ensures
        (if c { seq![e] } else { Seq::<usize>::empty() }).contains(z) <==> c && z == e,
{
    if c && z == e {
        assert(seq![e][0] == z);
    }
}

/// Which cells the neighbourhood holds.
pub proof fn lemma_voisins_contains(i: usize, w: usize, h: usize, z: usize)
    ensures
        voisins_spec(i, w, h).contains(z) <==> {
            let x = i % w;
            let y = i / w;
            ||| x > 0 && z == (i - 1) as usize
            ||| x + 1 < w && z == (i + 1) as usize
            ||| y > 0 && z == (i - w) as usize
            ||| y + 1 < h && z == (i + w) as usize
        },
{
    let x = i % w;
    let y = i / w;
    let a = if x > 0 { seq![(i - 1) as usize] } else { Seq::<usize>::empty() };
    let b = if x + 1 < w { seq![(i + 1) as usize] } else { Seq::<usize>::empty() };
    let c = if y > 0 { seq![(i - w) as usize] } else { Seq::<usize>::empty() };
    let d = if y + 1 < h { seq![(i + w) as usize] } else { Seq::<usize>::empty() };
    lemma_concat_contains(a + b + c, d, z);
    lemma_concat_contains(a + b, c, z);
    lemma_concat_contains(a, b, z);
    lemma_opt_contains(x > 0, (i - 1) as usize, z);
    lemma_opt_contains(x + 1 < w, (i + 1) as usize, z);
    lemma_opt_contains(y > 0, (i - w) as usize, z);
    lemma_opt_contains(y + 1 < h, (i + w) as usize, z);
}

/// The grid neighbours of a cell of the grid are cells of the grid,
/// different from it.
pub proof fn law_voisins_in_grid(i: usize, w: usize, h: usize)
    requires
        w > 0,
        h > 0,
        i < w * h,
        w * h <= usize::MAX,
    ensures
        forall|t: int|
            0 <= t < voisins_spec(i, w, h).len() ==> #[trigger] voisins_spec(i, w, h)[t] < w * h
                && voisins_spec(i, w, h)[t] != i,
{
    lemma_grid_cell(i as int, w as int, h as int);
    let x = (i % w) as int;
    let y = (i / w) as int;
    assert(y + 1 < h ==> i + w < w * h) by (nonlinear_arith)
        requires
            i == y * w + x,
            x < w,
            0 <= y,
    ;
    assert(y > 0 ==> i >= w) by (nonlinear_arith)
        requires
            i == y * w + x,
            0 <= x,
    ;
    assert(x + 1 < w ==> i + 1 < w * h) by (nonlinear_arith)
        requires
            i == y * w + x,
            x < w,
            0 <= y < h,
    ;
    assert forall|t: int| 0 <= t < voisins_spec(i, w, h).len() implies #[trigger] voisins_spec(
        i,
        w,
        h,
    )[t] < w * h && voisins_spec(i, w, h)[t] != i by {
        let z = voisins_spec(i, w, h)[t];
        assert(voisins_spec(i, w, h).contains(z));
        lemma_voisins_contains(i, w, h, z);
    }
}

/// The neighbourhood relation is symmetric on the cells of the grid.
pub proof fn law_voisins_symmetric(i: usize, j: usize, w: usize, h: usize)
    requires
        w > 0,
        h > 0,
        i < w * h,
        j < w * h,
        w * h <= usize::MAX,
    ensures
        voisins_spec(i, w, h).contains(j) <==> voisins_spec(j, w, h).contains(i),
{
    if voisins_spec(i, w, h).contains(j) {
        lemma_voisin_back(i, j, w, h);
    }
    if voisins_spec(j, w, h).contains(i) {
        lemma_voisin_back(j, i, w, h);
    }
}

proof fn lemma_voisin_back(i: usize, j: usize, w: usize, h: usize)
    requires
        w > 0,
        h > 0,
        i < w * h,
        j < w * h,
        w * h <= usize::MAX,
        voisins_spec(i, w, h).contains(j),
    ensures
        voisins_spec(j, w, h).contains(i),
{
    lemma_grid_cell(i as int, w as int, h as int);
    let x = (i % w) as int;
    let y = (i / w) as int;
    lemma_voisins_contains(i, w, h, j);
    lemma_voisins_contains(j, w, h, i);
    assert((y - 1) * w == y * w - w && (y + 1) * w == y * w + w) by (nonlinear_arith);
    assert(y + 1 < h ==> i + w < w * h) by (nonlinear_arith)
        requires
            i == y * w + x,
            x < w,
            0 <= y,
    ;
    assert(y > 0 ==> i >= w) by (nonlinear_arith)
        requires
            i == y * w + x,
            0 <= x,
    ;
    if x > 0 && j == i - 1 {
        lemma_cell_at(j as int, w as int, x - 1, y);
    } else if x + 1 < w && j == i + 1 {
        lemma_cell_at(j as int, w as int, x + 1, y);
    } else if y > 0 && j == i - w {
        lemma_cell_at(j as int, w as int, x, y - 1);
    } else {
        lemma_cell_at(j as int, w as int, x, y + 1);
    }
}

} // verus!
