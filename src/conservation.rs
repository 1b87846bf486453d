//! Conservation of total probability: the ring operations of Z[ω], finite
//! sums, and the fact that every column operator is unitary up to its scale.
use vstd::prelude::*;

use crate::amplitude::{
    Cyclo, Entry, Surd, norm_sq, cyclo_add, cyclo_one, cyclo_zero, entry_mul, entry_times, omega_pow,
    lemma_two_pow_add, sqrt2_pow, times_omega, times_sqrt2, two_pow,
};
use crate::gate::{Gate, gate_matrix, mat2, unit};
use crate::grid::Grid;
use crate::measure::{
    lemma_norm_sq_facts, lemma_norm_total_mono, prob_bound, lemma_project_bound, marginal_model, marginal_upto, project, rows_valid, surd_add,
};
use crate::operator::{
    Mat, assemble, column_model, controlled, entries_within, factor_at, gate_of,
    identity2, is_square, kron, lemma_gate_matrix_shape, lemma_index_split, scalar_one,
};
use crate::state::{all_fit, apply_op, basis_zero, evolve, fits_through, row_sum, state_model};

verus! {

/// The product in Z[ω], with ω⁴ = −1.
pub open spec fn cmul(x: Cyclo, y: Cyclo) -> Cyclo {
    (
        x.0 * y.0 - x.1 * y.3 - x.2 * y.2 - x.3 * y.1,
        x.0 * y.1 + x.1 * y.0 - x.2 * y.3 - x.3 * y.2,
        x.0 * y.2 + x.1 * y.1 + x.2 * y.0 - x.3 * y.3,
        x.0 * y.3 + x.1 * y.2 + x.2 * y.1 + x.3 * y.0,
    )
}

/// Complex conjugation: ω ↦ ω⁻¹ = −ω³.
pub open spec fn conj(x: Cyclo) -> Cyclo {
    (x.0, -x.3, -x.2, -x.1)
}

/// The integer n as an element of Z[ω].
pub open spec fn scalar(n: int) -> Cyclo {
    (n, 0, 0, 0)
}

/// f(0) + … + f(n − 1).
pub open spec fn csum(n: nat, f: spec_fn(int) -> Cyclo) -> Cyclo
    decreases n,
{
    if n == 0 {
        cyclo_zero()
    } else {
        cyclo_add(csum((n - 1) as nat, f), f(n - 1))
    }
}

proof fn lemma_cmul_comm(x: Cyclo, y: Cyclo)
    ensures
        cmul(x, y) == cmul(y, x),
{
    assert(x.0 * y.0 == y.0 * x.0 && x.1 * y.3 == y.3 * x.1 && x.2 * y.2 == y.2 * x.2 && x.3 * y.1 == y.1 * x.3)
        by (nonlinear_arith);
    assert(x.0 * y.1 == y.1 * x.0 && x.1 * y.0 == y.0 * x.1 && x.2 * y.3 == y.3 * x.2 && x.3 * y.2 == y.2 * x.3)
        by (nonlinear_arith);
    assert(x.0 * y.2 == y.2 * x.0 && x.1 * y.1 == y.1 * x.1 && x.2 * y.0 == y.0 * x.2 && x.3 * y.3 == y.3 * x.3)
        by (nonlinear_arith);
    assert(x.0 * y.3 == y.3 * x.0 && x.1 * y.2 == y.2 * x.1 && x.2 * y.1 == y.1 * x.2 && x.3 * y.0 == y.0 * x.3)
        by (nonlinear_arith);
}

proof fn lemma_cmul_add_right(c: Cyclo, x: Cyclo, y: Cyclo)
    ensures
        cmul(c, cyclo_add(x, y)) == cyclo_add(cmul(c, x), cmul(c, y)),
{
    let (c0, c1, c2, c3) = c;
    let (x0, x1, x2, x3) = x;
    let (y0, y1, y2, y3) = y;
    assert(c0 * (x0 + y0) == c0 * x0 + c0 * y0 && c0 * (x1 + y1) == c0 * x1 + c0 * y1 && c0 * (x2 + y2)
        == c0 * x2 + c0 * y2 && c0 * (x3 + y3) == c0 * x3 + c0 * y3) by (nonlinear_arith);
    assert(c1 * (x0 + y0) == c1 * x0 + c1 * y0 && c1 * (x1 + y1) == c1 * x1 + c1 * y1 && c1 * (x2 + y2)
        == c1 * x2 + c1 * y2 && c1 * (x3 + y3) == c1 * x3 + c1 * y3) by (nonlinear_arith);
    assert(c2 * (x0 + y0) == c2 * x0 + c2 * y0 && c2 * (x1 + y1) == c2 * x1 + c2 * y1 && c2 * (x2 + y2)
        == c2 * x2 + c2 * y2 && c2 * (x3 + y3) == c2 * x3 + c2 * y3) by (nonlinear_arith);
    assert(c3 * (x0 + y0) == c3 * x0 + c3 * y0 && c3 * (x1 + y1) == c3 * x1 + c3 * y1 && c3 * (x2 + y2)
        == c3 * x2 + c3 * y2 && c3 * (x3 + y3) == c3 * x3 + c3 * y3) by (nonlinear_arith);
}

proof fn lemma_cmul_assoc(x: Cyclo, y: Cyclo, z: Cyclo)
    ensures
        cmul(cmul(x, y), z) == cmul(x, cmul(y, z)),
{
    let (x0, x1, x2, x3) = x;
    let (y0, y1, y2, y3) = y;
    let (z0, z1, z2, z3) = z;
    let xy0 = x0 * y0 - x1 * y3 - x2 * y2 - x3 * y1;
    let xy1 = x0 * y1 + x1 * y0 - x2 * y3 - x3 * y2;
    let xy2 = x0 * y2 + x1 * y1 + x2 * y0 - x3 * y3;
    let xy3 = x0 * y3 + x1 * y2 + x2 * y1 + x3 * y0;
    let yz0 = y0 * z0 - y1 * z3 - y2 * z2 - y3 * z1;
    let yz1 = y0 * z1 + y1 * z0 - y2 * z3 - y3 * z2;
    let yz2 = y0 * z2 + y1 * z1 + y2 * z0 - y3 * z3;
    let yz3 = y0 * z3 + y1 * z2 + y2 * z1 + y3 * z0;
    vstd::arithmetic::mul::lemma_mul_is_associative(x0, y0, z0);
    vstd::arithmetic::mul::lemma_mul_is_associative(x0, y0, z1);
    vstd::arithmetic::mul::lemma_mul_is_associative(x0, y0, z2);
    vstd::arithmetic::mul::lemma_mul_is_associative(x0, y0, z3);
    vstd::arithmetic::mul::lemma_mul_is_associative(x0, y1, z0);
    vstd::arithmetic::mul::lemma_mul_is_associative(x0, y1, z1);
    vstd::arithmetic::mul::lemma_mul_is_associative(x0, y1, z2);
    vstd::arithmetic::mul::lemma_mul_is_associative(x0, y1, z3);
    vstd::arithmetic::mul::lemma_mul_is_associative(x0, y2, z0);
    vstd::arithmetic::mul::lemma_mul_is_associative(x0, y2, z1);
    vstd::arithmetic::mul::lemma_mul_is_associative(x0, y2, z2);
    vstd::arithmetic::mul::lemma_mul_is_associative(x0, y2, z3);
    vstd::arithmetic::mul::lemma_mul_is_associative(x0, y3, z0);
    vstd::arithmetic::mul::lemma_mul_is_associative(x0, y3, z1);
    vstd::arithmetic::mul::lemma_mul_is_associative(x0, y3, z2);
    vstd::arithmetic::mul::lemma_mul_is_associative(x0, y3, z3);
    vstd::arithmetic::mul::lemma_mul_is_associative(x1, y0, z0);
    vstd::arithmetic::mul::lemma_mul_is_associative(x1, y0, z1);
    vstd::arithmetic::mul::lemma_mul_is_associative(x1, y0, z2);
    vstd::arithmetic::mul::lemma_mul_is_associative(x1, y0, z3);
    vstd::arithmetic::mul::lemma_mul_is_associative(x1, y1, z0);
    vstd::arithmetic::mul::lemma_mul_is_associative(x1, y1, z1);
    vstd::arithmetic::mul::lemma_mul_is_associative(x1, y1, z2);
    vstd::arithmetic::mul::lemma_mul_is_associative(x1, y1, z3);
    vstd::arithmetic::mul::lemma_mul_is_associative(x1, y2, z0);
    vstd::arithmetic::mul::lemma_mul_is_associative(x1, y2, z1);
    vstd::arithmetic::mul::lemma_mul_is_associative(x1, y2, z2);
    vstd::arithmetic::mul::lemma_mul_is_associative(x1, y2, z3);
    vstd::arithmetic::mul::lemma_mul_is_associative(x1, y3, z0);
    vstd::arithmetic::mul::lemma_mul_is_associative(x1, y3, z1);
    vstd::arithmetic::mul::lemma_mul_is_associative(x1, y3, z2);
    vstd::arithmetic::mul::lemma_mul_is_associative(x1, y3, z3);
    vstd::arithmetic::mul::lemma_mul_is_associative(x2, y0, z0);
    vstd::arithmetic::mul::lemma_mul_is_associative(x2, y0, z1);
    vstd::arithmetic::mul::lemma_mul_is_associative(x2, y0, z2);
    vstd::arithmetic::mul::lemma_mul_is_associative(x2, y0, z3);
    vstd::arithmetic::mul::lemma_mul_is_associative(x2, y1, z0);
    vstd::arithmetic::mul::lemma_mul_is_associative(x2, y1, z1);
    vstd::arithmetic::mul::lemma_mul_is_associative(x2, y1, z2);
    vstd::arithmetic::mul::lemma_mul_is_associative(x2, y1, z3);
    vstd::arithmetic::mul::lemma_mul_is_associative(x2, y2, z0);
    vstd::arithmetic::mul::lemma_mul_is_associative(x2, y2, z1);
    vstd::arithmetic::mul::lemma_mul_is_associative(x2, y2, z2);
    vstd::arithmetic::mul::lemma_mul_is_associative(x2, y2, z3);
    vstd::arithmetic::mul::lemma_mul_is_associative(x2, y3, z0);
    vstd::arithmetic::mul::lemma_mul_is_associative(x2, y3, z1);
    vstd::arithmetic::mul::lemma_mul_is_associative(x2, y3, z2);
    vstd::arithmetic::mul::lemma_mul_is_associative(x2, y3, z3);
    vstd::arithmetic::mul::lemma_mul_is_associative(x3, y0, z0);
    vstd::arithmetic::mul::lemma_mul_is_associative(x3, y0, z1);
    vstd::arithmetic::mul::lemma_mul_is_associative(x3, y0, z2);
    vstd::arithmetic::mul::lemma_mul_is_associative(x3, y0, z3);
    vstd::arithmetic::mul::lemma_mul_is_associative(x3, y1, z0);
    vstd::arithmetic::mul::lemma_mul_is_associative(x3, y1, z1);
    vstd::arithmetic::mul::lemma_mul_is_associative(x3, y1, z2);
    vstd::arithmetic::mul::lemma_mul_is_associative(x3, y1, z3);
    vstd::arithmetic::mul::lemma_mul_is_associative(x3, y2, z0);
    vstd::arithmetic::mul::lemma_mul_is_associative(x3, y2, z1);
    vstd::arithmetic::mul::lemma_mul_is_associative(x3, y2, z2);
    vstd::arithmetic::mul::lemma_mul_is_associative(x3, y2, z3);
    vstd::arithmetic::mul::lemma_mul_is_associative(x3, y3, z0);
    vstd::arithmetic::mul::lemma_mul_is_associative(x3, y3, z1);
    vstd::arithmetic::mul::lemma_mul_is_associative(x3, y3, z2);
    vstd::arithmetic::mul::lemma_mul_is_associative(x3, y3, z3);
    assert(xy0 * z0 == (x0 * y0) * z0 - (x1 * y3) * z0 - (x2 * y2) * z0 - (x3 * y1) * z0) by (nonlinear_arith)
        requires
            xy0 == x0 * y0 - x1 * y3 - x2 * y2 - x3 * y1,
    ;
    assert(xy0 * z1 == (x0 * y0) * z1 - (x1 * y3) * z1 - (x2 * y2) * z1 - (x3 * y1) * z1) by (nonlinear_arith)
        requires
            xy0 == x0 * y0 - x1 * y3 - x2 * y2 - x3 * y1,
    ;
    assert(xy0 * z2 == (x0 * y0) * z2 - (x1 * y3) * z2 - (x2 * y2) * z2 - (x3 * y1) * z2) by (nonlinear_arith)
        requires
            xy0 == x0 * y0 - x1 * y3 - x2 * y2 - x3 * y1,
    ;
    assert(xy0 * z3 == (x0 * y0) * z3 - (x1 * y3) * z3 - (x2 * y2) * z3 - (x3 * y1) * z3) by (nonlinear_arith)
        requires
            xy0 == x0 * y0 - x1 * y3 - x2 * y2 - x3 * y1,
    ;
    assert(xy1 * z0 == (x0 * y1) * z0 + (x1 * y0) * z0 - (x2 * y3) * z0 - (x3 * y2) * z0) by (nonlinear_arith)
        requires
            xy1 == x0 * y1 + x1 * y0 - x2 * y3 - x3 * y2,
    ;
    assert(xy1 * z1 == (x0 * y1) * z1 + (x1 * y0) * z1 - (x2 * y3) * z1 - (x3 * y2) * z1) by (nonlinear_arith)
        requires
            xy1 == x0 * y1 + x1 * y0 - x2 * y3 - x3 * y2,
    ;
    assert(xy1 * z2 == (x0 * y1) * z2 + (x1 * y0) * z2 - (x2 * y3) * z2 - (x3 * y2) * z2) by (nonlinear_arith)
        requires
            xy1 == x0 * y1 + x1 * y0 - x2 * y3 - x3 * y2,
    ;
    assert(xy1 * z3 == (x0 * y1) * z3 + (x1 * y0) * z3 - (x2 * y3) * z3 - (x3 * y2) * z3) by (nonlinear_arith)
        requires
            xy1 == x0 * y1 + x1 * y0 - x2 * y3 - x3 * y2,
    ;
    assert(xy2 * z0 == (x0 * y2) * z0 + (x1 * y1) * z0 + (x2 * y0) * z0 - (x3 * y3) * z0) by (nonlinear_arith)
        requires
            xy2 == x0 * y2 + x1 * y1 + x2 * y0 - x3 * y3,
    ;
    assert(xy2 * z1 == (x0 * y2) * z1 + (x1 * y1) * z1 + (x2 * y0) * z1 - (x3 * y3) * z1) by (nonlinear_arith)
        requires
            xy2 == x0 * y2 + x1 * y1 + x2 * y0 - x3 * y3,
    ;
    assert(xy2 * z2 == (x0 * y2) * z2 + (x1 * y1) * z2 + (x2 * y0) * z2 - (x3 * y3) * z2) by (nonlinear_arith)
        requires
            xy2 == x0 * y2 + x1 * y1 + x2 * y0 - x3 * y3,
    ;
    assert(xy2 * z3 == (x0 * y2) * z3 + (x1 * y1) * z3 + (x2 * y0) * z3 - (x3 * y3) * z3) by (nonlinear_arith)
        requires
            xy2 == x0 * y2 + x1 * y1 + x2 * y0 - x3 * y3,
    ;
    assert(xy3 * z0 == (x0 * y3) * z0 + (x1 * y2) * z0 + (x2 * y1) * z0 + (x3 * y0) * z0) by (nonlinear_arith)
        requires
            xy3 == x0 * y3 + x1 * y2 + x2 * y1 + x3 * y0,
    ;
    assert(xy3 * z1 == (x0 * y3) * z1 + (x1 * y2) * z1 + (x2 * y1) * z1 + (x3 * y0) * z1) by (nonlinear_arith)
        requires
            xy3 == x0 * y3 + x1 * y2 + x2 * y1 + x3 * y0,
    ;
    assert(xy3 * z2 == (x0 * y3) * z2 + (x1 * y2) * z2 + (x2 * y1) * z2 + (x3 * y0) * z2) by (nonlinear_arith)
        requires
            xy3 == x0 * y3 + x1 * y2 + x2 * y1 + x3 * y0,
    ;
    assert(xy3 * z3 == (x0 * y3) * z3 + (x1 * y2) * z3 + (x2 * y1) * z3 + (x3 * y0) * z3) by (nonlinear_arith)
        requires
            xy3 == x0 * y3 + x1 * y2 + x2 * y1 + x3 * y0,
    ;
    assert(x0 * yz0 == x0 * (y0 * z0) - x0 * (y1 * z3) - x0 * (y2 * z2) - x0 * (y3 * z1)) by (nonlinear_arith)
        requires
            yz0 == y0 * z0 - y1 * z3 - y2 * z2 - y3 * z1,
    ;
    assert(x0 * yz1 == x0 * (y0 * z1) + x0 * (y1 * z0) - x0 * (y2 * z3) - x0 * (y3 * z2)) by (nonlinear_arith)
        requires
            yz1 == y0 * z1 + y1 * z0 - y2 * z3 - y3 * z2,
    ;
    assert(x0 * yz2 == x0 * (y0 * z2) + x0 * (y1 * z1) + x0 * (y2 * z0) - x0 * (y3 * z3)) by (nonlinear_arith)
        requires
            yz2 == y0 * z2 + y1 * z1 + y2 * z0 - y3 * z3,
    ;
    assert(x0 * yz3 == x0 * (y0 * z3) + x0 * (y1 * z2) + x0 * (y2 * z1) + x0 * (y3 * z0)) by (nonlinear_arith)
        requires
            yz3 == y0 * z3 + y1 * z2 + y2 * z1 + y3 * z0,
    ;
    assert(x1 * yz0 == x1 * (y0 * z0) - x1 * (y1 * z3) - x1 * (y2 * z2) - x1 * (y3 * z1)) by (nonlinear_arith)
        requires
            yz0 == y0 * z0 - y1 * z3 - y2 * z2 - y3 * z1,
    ;
    assert(x1 * yz1 == x1 * (y0 * z1) + x1 * (y1 * z0) - x1 * (y2 * z3) - x1 * (y3 * z2)) by (nonlinear_arith)
        requires
            yz1 == y0 * z1 + y1 * z0 - y2 * z3 - y3 * z2,
    ;
    assert(x1 * yz2 == x1 * (y0 * z2) + x1 * (y1 * z1) + x1 * (y2 * z0) - x1 * (y3 * z3)) by (nonlinear_arith)
        requires
            yz2 == y0 * z2 + y1 * z1 + y2 * z0 - y3 * z3,
    ;
    assert(x1 * yz3 == x1 * (y0 * z3) + x1 * (y1 * z2) + x1 * (y2 * z1) + x1 * (y3 * z0)) by (nonlinear_arith)
        requires
            yz3 == y0 * z3 + y1 * z2 + y2 * z1 + y3 * z0,
    ;
    assert(x2 * yz0 == x2 * (y0 * z0) - x2 * (y1 * z3) - x2 * (y2 * z2) - x2 * (y3 * z1)) by (nonlinear_arith)
        requires
            yz0 == y0 * z0 - y1 * z3 - y2 * z2 - y3 * z1,
    ;
    assert(x2 * yz1 == x2 * (y0 * z1) + x2 * (y1 * z0) - x2 * (y2 * z3) - x2 * (y3 * z2)) by (nonlinear_arith)
        requires
            yz1 == y0 * z1 + y1 * z0 - y2 * z3 - y3 * z2,
    ;
    assert(x2 * yz2 == x2 * (y0 * z2) + x2 * (y1 * z1) + x2 * (y2 * z0) - x2 * (y3 * z3)) by (nonlinear_arith)
        requires
            yz2 == y0 * z2 + y1 * z1 + y2 * z0 - y3 * z3,
    ;
    assert(x2 * yz3 == x2 * (y0 * z3) + x2 * (y1 * z2) + x2 * (y2 * z1) + x2 * (y3 * z0)) by (nonlinear_arith)
        requires
            yz3 == y0 * z3 + y1 * z2 + y2 * z1 + y3 * z0,
    ;
    assert(x3 * yz0 == x3 * (y0 * z0) - x3 * (y1 * z3) - x3 * (y2 * z2) - x3 * (y3 * z1)) by (nonlinear_arith)
        requires
            yz0 == y0 * z0 - y1 * z3 - y2 * z2 - y3 * z1,
    ;
    assert(x3 * yz1 == x3 * (y0 * z1) + x3 * (y1 * z0) - x3 * (y2 * z3) - x3 * (y3 * z2)) by (nonlinear_arith)
        requires
            yz1 == y0 * z1 + y1 * z0 - y2 * z3 - y3 * z2,
    ;
    assert(x3 * yz2 == x3 * (y0 * z2) + x3 * (y1 * z1) + x3 * (y2 * z0) - x3 * (y3 * z3)) by (nonlinear_arith)
        requires
            yz2 == y0 * z2 + y1 * z1 + y2 * z0 - y3 * z3,
    ;
    assert(x3 * yz3 == x3 * (y0 * z3) + x3 * (y1 * z2) + x3 * (y2 * z1) + x3 * (y3 * z0)) by (nonlinear_arith)
        requires
            yz3 == y0 * z3 + y1 * z2 + y2 * z1 + y3 * z0,
    ;
    assert(cmul(x, y) == (xy0, xy1, xy2, xy3));
    assert(cmul(y, z) == (yz0, yz1, yz2, yz3));
}

proof fn lemma_neg_mul(a: int, b: int)
    ensures
        (-a) * b == -(a * b),
        a * (-b) == -(a * b),
        (-a) * (-b) == a * b,
{
    assert((-a) * b == -(a * b)) by (nonlinear_arith);
    assert(a * (-b) == -(a * b)) by (nonlinear_arith);
    assert((-a) * (-b) == a * b) by (nonlinear_arith);
}

proof fn lemma_conj_mul(x: Cyclo, y: Cyclo)
    ensures
        conj(cmul(x, y)) == cmul(conj(x), conj(y)),
{
    let (x0, x1, x2, x3) = x;
    let (y0, y1, y2, y3) = y;
    lemma_neg_mul(x0, y0);
    lemma_neg_mul(x0, y1);
    lemma_neg_mul(x0, y2);
    lemma_neg_mul(x0, y3);
    lemma_neg_mul(x1, y0);
    lemma_neg_mul(x1, y1);
    lemma_neg_mul(x1, y2);
    lemma_neg_mul(x1, y3);
    lemma_neg_mul(x2, y0);
    lemma_neg_mul(x2, y1);
    lemma_neg_mul(x2, y2);
    lemma_neg_mul(x2, y3);
    lemma_neg_mul(x3, y0);
    lemma_neg_mul(x3, y1);
    lemma_neg_mul(x3, y2);
    lemma_neg_mul(x3, y3);
}

proof fn lemma_csum_ext(n: nat, f: spec_fn(int) -> Cyclo, g: spec_fn(int) -> Cyclo)
    requires
        forall|i: int| 0 <= i < n ==> #[trigger] f(i) == g(i),
    ensures
        csum(n, f) == csum(n, g),
    decreases n,
{
    if n > 0 {
        lemma_csum_ext((n - 1) as nat, f, g);
    }
}

proof fn lemma_csum_add(n: nat, f: spec_fn(int) -> Cyclo, g: spec_fn(int) -> Cyclo, h: spec_fn(int) -> Cyclo)
    requires
        forall|i: int| 0 <= i < n ==> #[trigger] h(i) == cyclo_add(f(i), g(i)),
    ensures
        csum(n, h) == cyclo_add(csum(n, f), csum(n, g)),
    decreases n,
{
    if n > 0 {
        lemma_csum_add((n - 1) as nat, f, g, h);
    }
}

/// Σ c·f(i) = c · Σ f(i).
proof fn lemma_csum_scale(n: nat, c: Cyclo, f: spec_fn(int) -> Cyclo, g: spec_fn(int) -> Cyclo)
    requires
        forall|i: int| 0 <= i < n ==> #[trigger] g(i) == cmul(c, f(i)),
    ensures
        csum(n, g) == cmul(c, csum(n, f)),
    decreases n,
{
    if n > 0 {
        lemma_csum_scale((n - 1) as nat, c, f, g);
        lemma_cmul_add_right(c, csum((n - 1) as nat, f), f(n - 1));
        assert(g(n - 1) == cmul(c, f(n - 1)));
    } else {
        let (c0, c1, c2, c3) = c;
        assert(c0 * 0 == 0 && c1 * 0 == 0 && c2 * 0 == 0 && c3 * 0 == 0) by (nonlinear_arith);
    }
}

pub open spec fn row_of(f: spec_fn(int, int) -> Cyclo, i: int) -> spec_fn(int) -> Cyclo {
    |j: int| f(i, j)
}

pub open spec fn col_of(f: spec_fn(int, int) -> Cyclo, j: int) -> spec_fn(int) -> Cyclo {
    |i: int| f(i, j)
}

/// i ↦ Σ_{j < m} f(i, j).
pub open spec fn row_sums(f: spec_fn(int, int) -> Cyclo, m: nat) -> spec_fn(int) -> Cyclo {
    |i: int| csum(m, row_of(f, i))
}

/// j ↦ Σ_{i < n} f(i, j).
pub open spec fn col_sums(f: spec_fn(int, int) -> Cyclo, n: nat) -> spec_fn(int) -> Cyclo {
    |j: int| csum(n, col_of(f, j))
}

/// Σ_i Σ_j f(i, j) = Σ_j Σ_i f(i, j).
proof fn lemma_csum_swap(n: nat, m: nat, f: spec_fn(int, int) -> Cyclo)
    ensures
        csum(n, row_sums(f, m)) == csum(m, col_sums(f, n)),
    decreases n,
{
    if n > 0 {
        let n1 = (n - 1) as nat;
        lemma_csum_swap(n1, m, f);
        lemma_csum_add(m, col_sums(f, n1), row_of(f, n1 as int), col_sums(f, n));
    } else {
        lemma_csum_zero(m, col_sums(f, n));
    }
}

/// Σ_k g(k) = f(j) when g is f at j and zero elsewhere.
proof fn lemma_csum_delta(m: nat, j: int, v: Cyclo, g: spec_fn(int) -> Cyclo)
    requires
        0 <= j < m,
        forall|k: int| 0 <= k < m ==> #[trigger] g(k) == if k == j { v } else { cyclo_zero() },
    ensures
        csum(m, g) == v,
    decreases m,
{
    if j < m - 1 {
        lemma_csum_delta((m - 1) as nat, j, v, g);
    } else {
        lemma_csum_zero((m - 1) as nat, g);
    }
}

proof fn lemma_csum_zero(n: nat, f: spec_fn(int) -> Cyclo)
    requires
        forall|i: int| 0 <= i < n ==> #[trigger] f(i) == cyclo_zero(),
    ensures
        csum(n, f) == cyclo_zero(),
    decreases n,
{
    if n > 0 {
        lemma_csum_zero((n - 1) as nat, f);
    }
}

proof fn lemma_conj_csum(n: nat, f: spec_fn(int) -> Cyclo, g: spec_fn(int) -> Cyclo)
    requires
        forall|i: int| 0 <= i < n ==> #[trigger] g(i) == conj(f(i)),
    ensures
        conj(csum(n, f)) == csum(n, g),
    decreases n,
{
    if n > 0 {
        lemma_conj_csum((n - 1) as nat, f, g);
    }
}

proof fn lemma_rearrange(a: Cyclo, b: Cyclo, c: Cyclo, d: Cyclo)
    ensures
        cmul(cmul(a, b), cmul(c, d)) == cmul(cmul(b, d), cmul(a, c)),
{
    lemma_cmul_assoc(a, b, cmul(c, d));
    lemma_cmul_assoc(b, c, d);
    lemma_cmul_comm(b, c);
    lemma_cmul_assoc(c, b, d);
    lemma_cmul_assoc(a, c, cmul(b, d));
    lemma_cmul_comm(cmul(a, c), cmul(b, d));
}

proof fn lemma_omega_cmul(a: Cyclo, z: Cyclo)
    ensures
        times_omega(cmul(a, z)) == cmul(times_omega(a), z),
{
    let (a0, a1, a2, a3) = a;
    let (z0, z1, z2, z3) = z;
    assert(-(a0 * z3 + a1 * z2 + a2 * z1 + a3 * z0) == (-a3) * z0 - a0 * z3 - a1 * z2 - a2 * z1)
        by (nonlinear_arith);
    assert(a0 * z0 - a1 * z3 - a2 * z2 - a3 * z1 == (-a3) * z1 + a0 * z0 - a1 * z3 - a2 * z2)
        by (nonlinear_arith);
    assert(a0 * z1 + a1 * z0 - a2 * z3 - a3 * z2 == (-a3) * z2 + a0 * z1 + a1 * z0 - a2 * z3)
        by (nonlinear_arith);
    assert(a0 * z2 + a1 * z1 + a2 * z0 - a3 * z3 == (-a3) * z3 + a0 * z2 + a1 * z1 + a2 * z0)
        by (nonlinear_arith);
}

proof fn lemma_sqrt2_cmul(a: Cyclo, z: Cyclo)
    ensures
        times_sqrt2(cmul(a, z)) == cmul(times_sqrt2(a), z),
{
    let (a0, a1, a2, a3) = a;
    let (z0, z1, z2, z3) = z;
    assert((a1 - a3) * z0 == a1 * z0 - a3 * z0) by (nonlinear_arith);
    assert((a1 - a3) * z1 == a1 * z1 - a3 * z1) by (nonlinear_arith);
    assert((a1 - a3) * z2 == a1 * z2 - a3 * z2) by (nonlinear_arith);
    assert((a1 - a3) * z3 == a1 * z3 - a3 * z3) by (nonlinear_arith);
    assert((a0 + a2) * z0 == a0 * z0 + a2 * z0) by (nonlinear_arith);
    assert((a0 + a2) * z1 == a0 * z1 + a2 * z1) by (nonlinear_arith);
    assert((a0 + a2) * z2 == a0 * z2 + a2 * z2) by (nonlinear_arith);
    assert((a0 + a2) * z3 == a0 * z3 + a2 * z3) by (nonlinear_arith);
    assert((a1 + a3) * z0 == a1 * z0 + a3 * z0) by (nonlinear_arith);
    assert((a1 + a3) * z1 == a1 * z1 + a3 * z1) by (nonlinear_arith);
    assert((a1 + a3) * z2 == a1 * z2 + a3 * z2) by (nonlinear_arith);
    assert((a1 + a3) * z3 == a1 * z3 + a3 * z3) by (nonlinear_arith);
    assert((a2 - a0) * z0 == a2 * z0 - a0 * z0) by (nonlinear_arith);
    assert((a2 - a0) * z1 == a2 * z1 - a0 * z1) by (nonlinear_arith);
    assert((a2 - a0) * z2 == a2 * z2 - a0 * z2) by (nonlinear_arith);
    assert((a2 - a0) * z3 == a2 * z3 - a0 * z3) by (nonlinear_arith);
}

proof fn lemma_one_cmul(z: Cyclo)
    ensures
        cmul(cyclo_one(), z) == z,
        cmul(cyclo_zero(), z) == cyclo_zero(),
{
    let (z0, z1, z2, z3) = z;
    assert(1 * z0 == z0 && 1 * z1 == z1 && 1 * z2 == z2 && 1 * z3 == z3) by (nonlinear_arith);
    assert(0 * z0 == 0 && 0 * z1 == 0 && 0 * z2 == 0 && 0 * z3 == 0) by (nonlinear_arith);
}

proof fn lemma_omega_pow_cmul(z: Cyclo, p: nat)
    ensures
        omega_pow(z, p) == cmul(omega_pow(cyclo_one(), p), z),
    decreases p,
{
    if p == 0 {
        lemma_one_cmul(z);
    } else {
        lemma_omega_pow_cmul(z, (p - 1) as nat);
        lemma_omega_cmul(omega_pow(cyclo_one(), (p - 1) as nat), z);
    }
}

proof fn lemma_sqrt2_pow_cmul(a: Cyclo, z: Cyclo, m: nat)
    ensures
        sqrt2_pow(cmul(a, z), m) == cmul(sqrt2_pow(a, m), z),
    decreases m,
{
    if m > 0 {
        lemma_sqrt2_pow_cmul(a, z, (m - 1) as nat);
        lemma_sqrt2_cmul(sqrt2_pow(a, (m - 1) as nat), z);
    }
}

/// The value of an entry in Z[ω].
pub open spec fn ev(e: Entry) -> Cyclo {
    entry_times(e, cyclo_one())
}

/// An entry acts on an amplitude by multiplication with its value.
proof fn lemma_entry_times_is_cmul(e: Entry, z: Cyclo)
    ensures
        entry_times(e, z) == cmul(ev(e), z),
{
    match e {
        Entry::Zero => {
            lemma_one_cmul(z);
        },
        Entry::Unit { phase, sqrt2 } => {
            lemma_omega_pow_cmul(z, phase as nat);
            lemma_sqrt2_pow_cmul(omega_pow(cyclo_one(), phase as nat), z, sqrt2 as nat);
        },
    }
}

pub open spec fn amp_terms(row: Seq<Entry>, v: Seq<Cyclo>) -> spec_fn(int) -> Cyclo {
    |t: int| cmul(ev(row[t]), v[t])
}

proof fn lemma_row_sum_is_csum(row: Seq<Entry>, v: Seq<Cyclo>, j: nat)
    ensures
        row_sum(row, v, j) == csum(j, amp_terms(row, v)),
    decreases j,
{
    if j > 0 {
        lemma_row_sum_is_csum(row, v, (j - 1) as nat);
        lemma_entry_times_is_cmul(row[j - 1], v[j - 1]);
    }
}

/// (Σ_{j < n1} f) · (Σ_{k < n2} g) = Σ_j Σ_k F(j, k) where F(j, k) = f(j) · g(k).
proof fn lemma_product_of_sums(
    n1: nat,
    n2: nat,
    f: spec_fn(int) -> Cyclo,
    g: spec_fn(int) -> Cyclo,
    pf: spec_fn(int, int) -> Cyclo,
)
    requires
        forall|j: int, k: int| 0 <= j < n1 && 0 <= k < n2 ==> #[trigger] pf(j, k) == cmul(f(j), g(k)),
    ensures
        cmul(csum(n1, f), csum(n2, g)) == csum(n1, row_sums(pf, n2)),
{
    let sg = csum(n2, g);
    let left = |j: int| cmul(sg, f(j));
    lemma_csum_scale(n1, sg, f, left);
    lemma_cmul_comm(csum(n1, f), sg);
    assert forall|j: int| 0 <= j < n1 implies #[trigger] left(j) == row_sums(pf, n2)(j) by {
        lemma_cmul_comm(sg, f(j));
        lemma_csum_scale(n2, f(j), g, row_of(pf, j));
    }
    lemma_csum_ext(n1, left, row_sums(pf, n2));
}

/// The Gram entry Σ_i M[i][j] · conj(M[i][k]).
pub open spec fn gram_terms(m: Mat, j: int, k: int) -> spec_fn(int) -> Cyclo {
    |i: int| cmul(ev(m[i][j]), conj(ev(m[i][k])))
}

pub open spec fn gram(m: Mat, n: nat, j: int, k: int) -> Cyclo {
    csum(n, gram_terms(m, j, k))
}

/// (h, M) is unitary up to its scale: M·M† = 2^h·I, column by column.
pub open spec fn scaled_unitary(op: (nat, Mat), n: nat) -> bool {
    &&& is_square(op.1, n)
    &&& forall|j: int, k: int|
        0 <= j < n && 0 <= k < n ==> #[trigger] gram(op.1, n, j, k) == if j == k {
            scalar(two_pow(op.0) as int)
        } else {
            cyclo_zero()
        }
}

pub open spec fn norms(v: Seq<Cyclo>) -> spec_fn(int) -> Cyclo {
    |i: int| cmul(v[i], conj(v[i]))
}

/// Σ |v_i|², an element of Z[√2] written in Z[ω].
pub open spec fn total(v: Seq<Cyclo>) -> Cyclo {
    csum(v.len(), norms(v))
}

pub open spec fn pair_terms(row: Seq<Entry>, v: Seq<Cyclo>) -> spec_fn(int, int) -> Cyclo {
    |j: int, k: int| cmul(amp_terms(row, v)(j), conj(amp_terms(row, v)(k)))
}

pub open spec fn outer_terms(m: Mat, v: Seq<Cyclo>, n: nat) -> spec_fn(int, int) -> Cyclo {
    |i: int, j: int| csum(n, row_of(pair_terms(m[i], v), j))
}

pub open spec fn fixed_j_terms(m: Mat, v: Seq<Cyclo>, j: int) -> spec_fn(int, int) -> Cyclo {
    |i: int, k: int| pair_terms(m[i], v)(j, k)
}

/// An operator unitary up to its scale multiplies the total squared
/// magnitude by 2^h.
proof fn lemma_norm_scaled(op: (nat, Mat), st: (nat, Seq<Cyclo>), n: nat)
    requires
        scaled_unitary(op, n),
        st.1.len() == n,
    ensures
        total(apply_op(op, st).1) == cmul(scalar(two_pow(op.0) as int), total(st.1)),
{
    let m = op.1;
    let v = st.1;
    let a = apply_op(op, st).1;
    let c = scalar(two_pow(op.0) as int);
    // Each |a_i|² as a double sum.
    assert forall|i: int| 0 <= i < n implies #[trigger] norms(a)(i) == csum(n, row_sums(pair_terms(m[i], v), n)) by {
        lemma_row_sum_is_csum(m[i], v, n);
        let f = amp_terms(m[i], v);
        let g = |k: int| conj(f(k));
        lemma_conj_csum(n, f, g);
        lemma_product_of_sums(n, n, f, g, pair_terms(m[i], v));
    }
    let outer = outer_terms(m, v, n);
    assert forall|i: int| 0 <= i < n implies #[trigger] norms(a)(i) == row_sums(outer, n)(i) by {
        lemma_csum_ext(n, row_of(outer, i), row_sums(pair_terms(m[i], v), n));
    }
    lemma_csum_ext(n, norms(a), row_sums(outer, n));
    lemma_csum_swap(n, n, outer);
    // For each j: Σ_i Σ_k T(i, j, k) = Σ_k Σ_i T(i, j, k) = |v_j|² · 2^h.
    let last = |j: int| cmul(c, norms(v)(j));
    assert forall|j: int| 0 <= j < n implies #[trigger] col_sums(outer, n)(j) == last(j) by {
        let w = fixed_j_terms(m, v, j);
        assert forall|i: int| 0 <= i < n implies #[trigger] col_of(outer, j)(i) == row_sums(w, n)(i) by {
            lemma_csum_ext(n, row_of(w, i), row_of(pair_terms(m[i], v), j));
        }
        lemma_csum_ext(n, col_of(outer, j), row_sums(w, n));
        lemma_csum_swap(n, n, w);
        let inner = |k: int| if k == j { cmul(norms(v)(j), c) } else { cyclo_zero() };
        assert forall|k: int| 0 <= k < n implies #[trigger] col_sums(w, n)(k) == inner(k) by {
            let wjk = cmul(v[j], conj(v[k]));
            assert forall|i: int| 0 <= i < n implies #[trigger] col_of(w, k)(i) == cmul(wjk, gram_terms(m, j, k)(i)) by {
                let mij = ev(m[i][j]);
                let mik = ev(m[i][k]);
                lemma_conj_mul(mik, v[k]);
                lemma_rearrange(mij, v[j], conj(mik), conj(v[k]));
            }
            lemma_csum_scale(n, wjk, gram_terms(m, j, k), col_of(w, k));
            assert(gram(m, n, j, k) == if j == k { c } else { cyclo_zero() });
            if j != k {
                let (w0, w1, w2, w3) = wjk;
                assert(w0 * 0 == 0 && w1 * 0 == 0 && w2 * 0 == 0 && w3 * 0 == 0) by (nonlinear_arith);
            }
        }
        lemma_csum_delta(n, j, cmul(norms(v)(j), c), col_sums(w, n));
        lemma_cmul_comm(norms(v)(j), c);
    }
    lemma_csum_ext(n, col_sums(outer, n), last);
    lemma_csum_scale(n, c, norms(v), last);
}

pub open spec fn shift(f: spec_fn(int) -> Cyclo, p: int) -> spec_fn(int) -> Cyclo {
    |t: int| f(p + t)
}

proof fn lemma_csum_split(p: nat, q: nat, f: spec_fn(int) -> Cyclo)
    ensures
        csum(p + q, f) == cyclo_add(csum(p, f), csum(q, shift(f, p as int))),
    decreases q,
{
    if q > 0 {
        lemma_csum_split(p, (q - 1) as nat, f);
        assert((p + q - 1) as nat == p + (q - 1) as nat);
    }
}

pub open spec fn blocks(f: spec_fn(int) -> Cyclo, nb: nat) -> spec_fn(int) -> Cyclo {
    |i1: int| csum(nb, shift(f, i1 * nb))
}

/// Σ_{i < na·nb} f(i) = Σ_{i1 < na} Σ_{i2 < nb} f(i1·nb + i2).
proof fn lemma_csum_blocks(na: nat, nb: nat, f: spec_fn(int) -> Cyclo)
    ensures
        csum(na * nb, f) == csum(na, blocks(f, nb)),
    decreases na,
{
    if na > 0 {
        let n1 = (na - 1) as nat;
        lemma_csum_blocks(n1, nb, f);
        assert(n1 * nb + nb == na * nb) by (nonlinear_arith)
            requires
                n1 == na - 1,
        ;
        lemma_csum_split(n1 * nb, nb, f);
        assert(csum(na * nb, f) == cyclo_add(csum(n1 * nb, f), csum(nb, shift(f, (n1 * nb) as int))));
        assert(blocks(f, nb)(n1 as int) == csum(nb, shift(f, (n1 * nb) as int)));
    } else {
        assert(na * nb == 0) by (nonlinear_arith)
            requires
                na == 0,
        ;
    }
}

proof fn lemma_zero_products(x: Cyclo)
    ensures
        cmul(cyclo_zero(), x) == cyclo_zero(),
        cmul(x, cyclo_zero()) == cyclo_zero(),
{
    lemma_one_cmul(x);
    lemma_cmul_comm(x, cyclo_zero());
}

proof fn lemma_omega_pow_add(x: Cyclo, p: nat, q: nat)
    ensures
        omega_pow(x, p + q) == omega_pow(omega_pow(x, p), q),
    decreases q,
{
    if q > 0 {
        lemma_omega_pow_add(x, p, (q - 1) as nat);
        assert((p + q - 1) as nat == p + (q - 1) as nat);
    }
}

proof fn lemma_sqrt2_pow_add(x: Cyclo, p: nat, q: nat)
    ensures
        sqrt2_pow(x, p + q) == sqrt2_pow(sqrt2_pow(x, p), q),
    decreases q,
{
    if q > 0 {
        lemma_sqrt2_pow_add(x, p, (q - 1) as nat);
        assert((p + q - 1) as nat == p + (q - 1) as nat);
    }
}

proof fn lemma_omega_pow_period(x: Cyclo, r: nat)
    ensures
        omega_pow(x, r + 8) == omega_pow(x, r),
{
    lemma_omega_pow_add(x, r, 8);
    reveal_with_fuel(omega_pow, 9);
}

/// Unit values multiply as the monomials they stand for.
proof fn lemma_ev_mul(x: Entry, y: Entry)
    requires
        x.wf(),
        y.wf(),
    ensures
        ev(entry_mul(x, y)) == cmul(ev(x), ev(y)),
{
    match (x, y) {
        (Entry::Unit { phase: p, sqrt2: m }, Entry::Unit { phase: q, sqrt2: k }) => {
            let one = cyclo_one();
            let a = omega_pow(one, p as nat);
            let b = omega_pow(one, q as nat);
            // ω^((p + q) mod 8) = ω^p · ω^q
            lemma_omega_pow_add(one, p as nat, q as nat);
            lemma_omega_pow_cmul(a, q as nat);
            lemma_cmul_comm(b, a);
            if p + q >= 8 {
                lemma_omega_pow_period(one, (p + q - 8) as nat);
            }
            assert(omega_pow(one, ((p + q) % 8) as nat) == cmul(a, b));
            // √2^(m + k) applied to a·b
            lemma_sqrt2_pow_add(cmul(a, b), k as nat, m as nat);
            lemma_cmul_comm(a, b);
            lemma_sqrt2_pow_cmul(b, a, k as nat);
            let bk = sqrt2_pow(b, k as nat);
            lemma_cmul_comm(bk, a);
            lemma_sqrt2_pow_cmul(a, bk, m as nat);
            assert((m + k) as u8 as nat == k as nat + m as nat);
        },
        _ => {
            lemma_zero_products(ev(x));
            lemma_zero_products(ev(y));
            lemma_one_cmul(cyclo_one());
        },
    }
}

/// A Gram entry of A ⊗ B is the product of the Gram entries of A and B at
/// the split indices.
proof fn lemma_kron_gram(a: (nat, Mat), na: nat, b: (nat, Mat), nb: nat, ba: nat, bb: nat, j: int, kk: int)
    requires
        na >= 1,
        nb >= 1,
        is_square(a.1, na),
        is_square(b.1, nb),
        entries_within(a.1, ba),
        entries_within(b.1, bb),
        0 <= j < na * nb,
        0 <= kk < na * nb,
    ensures
        gram(kron(a, b).1, na * nb, j, kk) == cmul(
            gram(a.1, na, j / (nb as int), kk / (nb as int)),
            gram(b.1, nb, j % (nb as int), kk % (nb as int)),
        ),
{
    let km = kron(a, b).1;
    let nbi = nb as int;
    let j1 = j / nbi;
    let j2 = j % nbi;
    let k1 = kk / nbi;
    let k2 = kk % nbi;
    lemma_index_split(j, na as int, nbi);
    lemma_index_split(kk, na as int, nbi);
    let gt = gram_terms(km, j, kk);
    let ga = gram_terms(a.1, j1, k1);
    let gb = gram_terms(b.1, j2, k2);
    let f = |i1: int, i2: int| cmul(ga(i1), gb(i2));
    lemma_csum_blocks(na, nb, gt);
    assert forall|i1: int| 0 <= i1 < na implies #[trigger] blocks(gt, nb)(i1) == row_sums(f, nb)(i1) by {
        assert forall|i2: int| 0 <= i2 < nb implies #[trigger] shift(gt, i1 * nb)(i2) == row_of(f, i1)(i2) by {
            let i = i1 * nbi + i2;
            assert(0 <= i < na * nb) by (nonlinear_arith)
                requires
                    0 <= i1 < na,
                    0 <= i2 < nb,
                    i == i1 * nbi + i2,
                    nbi == nb,
            ;
            vstd::arithmetic::div_mod::lemma_fundamental_div_mod_converse(i, nbi, i1, i2);
            assert(a.1[i1].len() == na && b.1[i2].len() == nb);
            let x = a.1[i1][j1];
            let y = b.1[i2][j2];
            let u = a.1[i1][k1];
            let w = b.1[i2][k2];
            assert(x.wf() && u.wf() && y.wf() && w.wf());
            assert(km[i][j] == entry_mul(x, y));
            assert(km[i][kk] == entry_mul(u, w));
            lemma_ev_mul(x, y);
            lemma_ev_mul(u, w);
            lemma_conj_mul(ev(u), ev(w));
            lemma_rearrange(ev(x), ev(y), conj(ev(u)), conj(ev(w)));
            lemma_cmul_comm(cmul(ev(y), conj(ev(w))), cmul(ev(x), conj(ev(u))));
            assert(i1 * nb == i1 * nbi);
        }
        lemma_csum_ext(nb, shift(gt, i1 * nb), row_of(f, i1));
    }
    lemma_csum_ext(na, blocks(gt, nb), row_sums(f, nb));
    lemma_product_of_sums(na, nb, ga, gb, f);
}

proof fn lemma_kron_unitary(a: (nat, Mat), na: nat, b: (nat, Mat), nb: nat, ba: nat, bb: nat)
    requires
        na >= 1,
        nb >= 1,
        scaled_unitary(a, na),
        scaled_unitary(b, nb),
        entries_within(a.1, ba),
        entries_within(b.1, bb),
    ensures
        scaled_unitary(kron(a, b), na * nb),
{
    let km = kron(a, b);
    let n = na * nb;
    let nbi = nb as int;
    assert(is_square(km.1, n));
    assert forall|j: int, kk: int| 0 <= j < n && 0 <= kk < n implies #[trigger] gram(km.1, n, j, kk) == if j
        == kk {
        scalar(two_pow(km.0) as int)
    } else {
        cyclo_zero()
    } by {
        lemma_kron_gram(a, na, b, nb, ba, bb, j, kk);
        lemma_index_split(j, na as int, nbi);
        lemma_index_split(kk, na as int, nbi);
        let ga = gram(a.1, na, j / nbi, kk / nbi);
        let gb = gram(b.1, nb, j % nbi, kk % nbi);
        if j == kk {
            lemma_two_pow_add(a.0, b.0);
            let x = two_pow(a.0) as int;
            let y = two_pow(b.0) as int;
            assert(cmul(scalar(x), scalar(y)) == scalar(x * y)) by {
                assert(x * 0 == 0 && 0 * y == 0 && 0 * 0 == 0) by (nonlinear_arith);
            }
        } else {
            vstd::arithmetic::div_mod::lemma_fundamental_div_mod(j, nbi);
            vstd::arithmetic::div_mod::lemma_fundamental_div_mod(kk, nbi);
            if j / nbi != kk / nbi {
                lemma_zero_products(gb);
            } else {
                assert(j % nbi != kk % nbi);
                lemma_zero_products(ga);
            }
        }
    }
}

proof fn lemma_csum2(f: spec_fn(int) -> Cyclo)
    ensures
        csum(2, f) == cyclo_add(f(0), f(1)),
{
    reveal_with_fuel(csum, 3);
}

proof fn lemma_unit_values()
    ensures
        ev(unit(0)) == (1int, 0int, 0int, 0int),
        ev(unit(1)) == (0int, 1int, 0int, 0int),
        ev(unit(2)) == (0int, 0int, 1int, 0int),
        ev(unit(4)) == (-1int, 0int, 0int, 0int),
        ev(unit(6)) == (0int, 0int, -1int, 0int),
        ev(Entry::Zero) == cyclo_zero(),
{
    reveal_with_fuel(omega_pow, 7);
}

/// A 2×2 matrix (s, [[p, q], [r, t]]) whose Gram entries are as given.
proof fn lemma_two_by_two(s: nat, p: Entry, q: Entry, r: Entry, t: Entry)
    requires
        cyclo_add(cmul(ev(p), conj(ev(p))), cmul(ev(r), conj(ev(r)))) == scalar(two_pow(s) as int),
        cyclo_add(cmul(ev(q), conj(ev(q))), cmul(ev(t), conj(ev(t)))) == scalar(two_pow(s) as int),
        cyclo_add(cmul(ev(p), conj(ev(q))), cmul(ev(r), conj(ev(t)))) == cyclo_zero(),
        cyclo_add(cmul(ev(q), conj(ev(p))), cmul(ev(t), conj(ev(r)))) == cyclo_zero(),
    ensures
        scaled_unitary((s, mat2(p, q, r, t)), 2),
{
    let m = mat2(p, q, r, t);
    assert forall|j: int, k: int| 0 <= j < 2 && 0 <= k < 2 implies #[trigger] gram(m, 2, j, k) == if j == k {
        scalar(two_pow(s) as int)
    } else {
        cyclo_zero()
    } by {
        lemma_csum2(gram_terms(m, j, k));
    }
}

proof fn lemma_literal_products()
    ensures
        cmul((1int, 0int, 0int, 0int), conj((1int, 0int, 0int, 0int))) == scalar(1),
        cmul((0int, 1int, 0int, 0int), conj((0int, 1int, 0int, 0int))) == scalar(1),
        cmul((0int, 0int, 1int, 0int), conj((0int, 0int, 1int, 0int))) == scalar(1),
        cmul((-1int, 0int, 0int, 0int), conj((-1int, 0int, 0int, 0int))) == scalar(1),
        cmul((0int, 0int, -1int, 0int), conj((0int, 0int, -1int, 0int))) == scalar(1),
        cmul((1int, 0int, 0int, 0int), conj((-1int, 0int, 0int, 0int))) == scalar(-1),
        cmul((-1int, 0int, 0int, 0int), conj((1int, 0int, 0int, 0int))) == scalar(-1),
{
    assert(conj((1int, 0int, 0int, 0int)) == (1int, 0int, 0int, 0int));
    assert(cmul((1int, 0int, 0int, 0int), (1int, 0int, 0int, 0int)) == scalar(1));
    assert(conj((0int, 1int, 0int, 0int)) == (0int, 0int, 0int, -1int));
    assert(cmul((0int, 1int, 0int, 0int), (0int, 0int, 0int, -1int)) == scalar(1));
    assert(conj((0int, 0int, 1int, 0int)) == (0int, 0int, -1int, 0int));
    assert(cmul((0int, 0int, 1int, 0int), (0int, 0int, -1int, 0int)) == scalar(1));
    assert(conj((-1int, 0int, 0int, 0int)) == (-1int, 0int, 0int, 0int));
    assert(cmul((-1int, 0int, 0int, 0int), (-1int, 0int, 0int, 0int)) == scalar(1));
    assert(conj((0int, 0int, -1int, 0int)) == (0int, 0int, 1int, 0int));
    assert(cmul((0int, 0int, -1int, 0int), (0int, 0int, 1int, 0int)) == scalar(1));
    assert(conj((-1int, 0int, 0int, 0int)) == (-1int, 0int, 0int, 0int));
    assert(cmul((1int, 0int, 0int, 0int), (-1int, 0int, 0int, 0int)) == scalar(-1));
    assert(conj((1int, 0int, 0int, 0int)) == (1int, 0int, 0int, 0int));
    assert(cmul((-1int, 0int, 0int, 0int), (1int, 0int, 0int, 0int)) == scalar(-1));
}

proof fn lemma_gate_unitary(g: Gate)
    requires
        gate_matrix(g) is Some,
    ensures
        scaled_unitary(gate_matrix(g)->0, 2),
{
    lemma_unit_values();
    lemma_literal_products();
    reveal_with_fuel(two_pow, 2);
    let z = Entry::Zero;
    lemma_zero_products(ev(unit(0)));
    lemma_zero_products(ev(unit(1)));
    lemma_zero_products(ev(unit(2)));
    lemma_zero_products(ev(unit(4)));
    lemma_zero_products(ev(unit(6)));
    lemma_zero_products(cyclo_zero());
    lemma_zero_products(conj(ev(unit(0))));
    lemma_zero_products(conj(ev(unit(1))));
    lemma_zero_products(conj(ev(unit(2))));
    lemma_zero_products(conj(ev(unit(4))));
    lemma_zero_products(conj(ev(unit(6))));
    match g {
        Gate::X => lemma_two_by_two(0, z, unit(0), unit(0), z),
        Gate::Y => lemma_two_by_two(0, z, unit(6), unit(2), z),
        Gate::Z => lemma_two_by_two(0, unit(0), z, z, unit(4)),
        Gate::H => lemma_two_by_two(1, unit(0), unit(0), unit(0), unit(4)),
        Gate::S => lemma_two_by_two(0, unit(0), z, z, unit(2)),
        Gate::T => lemma_two_by_two(0, unit(0), z, z, unit(1)),
        _ => {},
    }
}

proof fn lemma_identity_unitary()
    ensures
        scaled_unitary(identity2(), 2),
{
    lemma_unit_values();
    lemma_literal_products();
    lemma_zero_products(ev(unit(0)));
    lemma_zero_products(cyclo_zero());
    lemma_zero_products(conj(ev(unit(0))));
    reveal_with_fuel(two_pow, 1);
    lemma_two_by_two(0, unit(0), Entry::Zero, Entry::Zero, unit(0));
}

proof fn lemma_csum4(f: spec_fn(int) -> Cyclo)
    ensures
        csum(4, f) == cyclo_add(cyclo_add(cyclo_add(f(0), f(1)), f(2)), f(3)),
{
    reveal_with_fuel(csum, 5);
}

proof fn lemma_add_zero(x: Cyclo)
    ensures
        cyclo_add(x, cyclo_zero()) == x,
        cyclo_add(cyclo_zero(), x) == x,
{
}

/// The facts about a 2×2 matrix unitary up to its scale that the
/// controlled factor's Gram entries need.
pub open spec fn two_by_two_facts(g: (nat, Mat)) -> bool {
    let m = g.1;
    let idv = ev(Entry::Unit { phase: 0, sqrt2: g.0 as u8 });
    let s = scalar(two_pow(g.0) as int);
    &&& cmul(idv, conj(idv)) == s
    &&& cyclo_add(cmul(ev(m[0][0]), conj(ev(m[0][0]))), cmul(ev(m[1][0]), conj(ev(m[1][0])))) == s
    &&& cyclo_add(cmul(ev(m[0][1]), conj(ev(m[0][1]))), cmul(ev(m[1][1]), conj(ev(m[1][1])))) == s
    &&& cyclo_add(cmul(ev(m[0][0]), conj(ev(m[0][1]))), cmul(ev(m[1][0]), conj(ev(m[1][1]))))
        == cyclo_zero()
    &&& cyclo_add(cmul(ev(m[0][1]), conj(ev(m[0][0]))), cmul(ev(m[1][1]), conj(ev(m[1][0]))))
        == cyclo_zero()
}

proof fn lemma_two_by_two_facts(g: (nat, Mat))
    requires
        scaled_unitary(g, 2),
        g.0 <= 1,
    ensures
        two_by_two_facts(g),
{
    let m = g.1;
    let idv = ev(Entry::Unit { phase: 0, sqrt2: g.0 as u8 });
    reveal_with_fuel(sqrt2_pow, 2);
    reveal_with_fuel(two_pow, 2);
    assert(cmul(idv, conj(idv)) == scalar(two_pow(g.0) as int)) by {
        lemma_literal_products();
        assert(cmul((0int, 1int, 0int, -1int), conj((0int, 1int, 0int, -1int))) == scalar(2));
    }
    lemma_csum2(gram_terms(m, 0, 0));
    lemma_csum2(gram_terms(m, 0, 1));
    lemma_csum2(gram_terms(m, 1, 0));
    lemma_csum2(gram_terms(m, 1, 1));
    assert(gram(m, 2, 0, 0) == scalar(two_pow(g.0) as int));
    assert(gram(m, 2, 1, 1) == scalar(two_pow(g.0) as int));
    assert(gram(m, 2, 0, 1) == cyclo_zero());
    assert(gram(m, 2, 1, 0) == cyclo_zero());
}

proof fn lemma_zero_facts(g: (nat, Mat))
    requires
        g.1.len() == 2,
        g.1[0].len() == 2,
        g.1[1].len() == 2,
    ensures
        forall|a: int, b: int| 0 <= a < 2 && 0 <= b < 2 ==> cmul(ev(#[trigger] g.1[a][b]), cyclo_zero()) == cyclo_zero()
            && cmul(cyclo_zero(), conj(ev(g.1[a][b]))) == cyclo_zero(),
        cmul(cyclo_zero(), cyclo_zero()) == cyclo_zero(),
        cmul(ev(Entry::Unit { phase: 0, sqrt2: g.0 as u8 }), cyclo_zero()) == cyclo_zero(),
        cmul(cyclo_zero(), conj(ev(Entry::Unit { phase: 0, sqrt2: g.0 as u8 }))) == cyclo_zero(),
        conj(cyclo_zero()) == cyclo_zero(),
        ev(Entry::Zero) == cyclo_zero(),
{
    let m = g.1;
    assert forall|a: int, b: int| 0 <= a < 2 && 0 <= b < 2 implies cmul(ev(#[trigger] m[a][b]), cyclo_zero())
        == cyclo_zero() && cmul(cyclo_zero(), conj(ev(m[a][b]))) == cyclo_zero() by {
        lemma_zero_products(ev(m[a][b]));
        lemma_zero_products(conj(ev(m[a][b])));
    }
    lemma_zero_products(cyclo_zero());
    lemma_zero_products(ev(Entry::Unit { phase: 0, sqrt2: g.0 as u8 }));
    lemma_zero_products(conj(ev(Entry::Unit { phase: 0, sqrt2: g.0 as u8 })));
}

#[verifier::spinoff_prover]
#[verifier::rlimit(50)]
proof fn lemma_controlled_gram(g: (nat, Mat), anti: bool, high: bool, j: int, k: int)
    requires
        g.1.len() == 2,
        g.1[0].len() == 2,
        g.1[1].len() == 2,
        two_by_two_facts(g),
        0 <= j < 4,
        0 <= k < 4,
    ensures
        gram(controlled(g, anti, high).1, 4, j, k) == if j == k {
            scalar(two_pow(g.0) as int)
        } else {
            cyclo_zero()
        },
{
    let c = controlled(g, anti, high);
    lemma_zero_facts(g);
    lemma_csum4(gram_terms(c.1, j, k));
    lemma_add_zero(scalar(two_pow(g.0) as int));
    lemma_add_zero(cyclo_zero());
    if j == 0 {
        if k == 0 {} else if k == 1 {} else if k == 2 {} else {}
    } else if j == 1 {
        if k == 0 {} else if k == 1 {} else if k == 2 {} else {}
    } else if j == 2 {
        if k == 0 {} else if k == 1 {} else if k == 2 {} else {}
    } else {
        if k == 0 {} else if k == 1 {} else if k == 2 {} else {}
    }
}

proof fn lemma_controlled_unitary(g: (nat, Mat), anti: bool, high: bool)
    requires
        scaled_unitary(g, 2),
        entries_within(g.1, 0),
        g.0 <= 1,
    ensures
        scaled_unitary(controlled(g, anti, high), 4),
        entries_within(controlled(g, anti, high).1, 1),
{
    let c = controlled(g, anti, high);
    let m = g.1;
    assert(m.len() == 2 && m[0].len() == 2 && m[1].len() == 2);
    lemma_two_by_two_facts(g);
    assert forall|j: int, k: int| 0 <= j < 4 && 0 <= k < 4 implies #[trigger] gram(c.1, 4, j, k) == if j == k {
        scalar(two_pow(c.0) as int)
    } else {
        cyclo_zero()
    } by {
        lemma_controlled_gram(g, anti, high, j, k);
    }
    assert forall|i: int, j: int| 0 <= i < c.1.len() && 0 <= j < c.1[i].len() implies (#[trigger] c.1[i][j]).wf()
        && c.1[i][j].sqrt2_of() <= 1 by {
        let ti = if high { i % 2 } else { i / 2 };
        let tj = if high { j % 2 } else { j / 2 };
        assert(0 <= ti < 2 && 0 <= tj < 2);
        assert(m[ti][tj].wf());
    }
}

proof fn lemma_kron_entries(a: (nat, Mat), na: nat, b: (nat, Mat), nb: nat, ba: nat, bb: nat)
    requires
        na >= 1,
        nb >= 1,
        is_square(a.1, na),
        is_square(b.1, nb),
        entries_within(a.1, ba),
        entries_within(b.1, bb),
        ba + bb <= 8,
    ensures
        entries_within(kron(a, b).1, ba + bb),
        is_square(kron(a, b).1, na * nb),
{
    let km = kron(a, b).1;
    assert forall|i: int, j: int| 0 <= i < km.len() && 0 <= j < km[i].len() implies (#[trigger] km[i][j]).wf()
        && km[i][j].sqrt2_of() <= ba + bb by {
        lemma_index_split(i, na as int, nb as int);
        lemma_index_split(j, na as int, nb as int);
        let nbi = nb as int;
        assert(a.1[i / nbi].len() == na && b.1[i % nbi].len() == nb);
        let x = a.1[i / nbi][j / nbi];
        let y = b.1[i % nbi][j % nbi];
        assert(x.wf() && x.sqrt2_of() <= ba);
        assert(y.wf() && y.sqrt2_of() <= bb);
    }
}

/// Every factor of a column is unitary up to its scale.
proof fn lemma_factor_unitary(col: Seq<Option<crate::gate::Cell>>, r: int)
    requires
        0 <= r < col.len(),
    ensures
        scaled_unitary(factor_at(col, r).0, two_pow(factor_at(col, r).1)),
        entries_within(factor_at(col, r).0.1, factor_at(col, r).1),
        factor_at(col, r).1 == 1 || factor_at(col, r).1 == 2,
{
    reveal_with_fuel(two_pow, 3);
    let (f, w) = factor_at(col, r);
    if gate_of(col[r]) is Some {
        let g = (col[r]->0).gate;
        lemma_gate_matrix_shape(g);
        lemma_gate_unitary(g);
        let gm = gate_of(col[r])->0;
        if w == 2 {
            lemma_controlled_unitary(gm, crate::operator::is_anti(col[r + 1]), false);
        } else {
            assert(entries_within(gm.1, 1));
        }
    } else if w == 2 {
        let g = (col[r + 1]->0).gate;
        lemma_gate_matrix_shape(g);
        lemma_gate_unitary(g);
        lemma_controlled_unitary(gate_of(col[r + 1])->0, crate::operator::is_anti(col[r]), true);
    } else {
        lemma_identity_unitary();
        let m = identity2().1;
        assert forall|i: int, j: int| 0 <= i < m.len() && 0 <= j < m[i].len() implies (#[trigger] m[i][j]).wf()
            && m[i][j].sqrt2_of() <= 1 by {
            assert(i == 0 || i == 1);
        }
    }
}

proof fn lemma_scalar_one_unitary()
    ensures
        scaled_unitary(scalar_one(), 1),
        entries_within(scalar_one().1, 0),
{
    let m = scalar_one().1;
    reveal_with_fuel(csum, 2);
    reveal_with_fuel(two_pow, 1);
    lemma_unit_values();
    lemma_literal_products();
    assert(gram(m, 1, 0, 0) == scalar(1));
}

proof fn lemma_assemble_unitary(col: Seq<Option<crate::gate::Cell>>, r: nat, acc: (nat, Mat))
    requires
        r <= col.len() <= 8,
        scaled_unitary(acc, two_pow(r)),
        entries_within(acc.1, r),
    ensures
        scaled_unitary(assemble(col, r, acc), two_pow(col.len())),
    decreases col.len() - r,
{
    if r < col.len() {
        lemma_factor_unitary(col, r as int);
        let (f, w) = factor_at(col, r as int);
        crate::amplitude::lemma_two_pow_pos(r);
        reveal_with_fuel(two_pow, 3);
        lemma_kron_unitary(acc, two_pow(r), f, two_pow(w), r, w);
        lemma_kron_entries(acc, two_pow(r), f, two_pow(w), r, w);
        assert(two_pow(r + w) == two_pow(r) * two_pow(w)) by {
            lemma_two_pow_add(r, w);
        }
        lemma_assemble_unitary(col, r + w, kron(acc, f));
    }
}

/// The operator of every column of a grid is unitary up to its scale.
proof fn lemma_column_unitary(g: Grid, c: int)
    requires
        g.wf(),
    ensures
        scaled_unitary(column_model(g.column_cells(c)), two_pow(g.rows as nat)),
{
    lemma_scalar_one_unitary();
    reveal_with_fuel(two_pow, 1);
    lemma_assemble_unitary(g.column_cells(c), 0, scalar_one());
}

proof fn lemma_total_basis(n: nat)
    requires
        n >= 1,
    ensures
        total(basis_zero(n)) == scalar(1),
{
    let v = basis_zero(n);
    lemma_literal_products();
    lemma_zero_products(cyclo_zero());
    assert forall|i: int| 0 <= i < n implies #[trigger] norms(v)(i) == if i == 0 {
        scalar(1)
    } else {
        cyclo_zero()
    } by {
    }
    lemma_csum_delta(n, 0, scalar(1), norms(v));
}

proof fn lemma_total_evolve(g: Grid, t: nat)
    requires
        g.wf(),
    ensures
        evolve(g, t).1.len() == two_pow(g.rows as nat),
        total(evolve(g, t).1) == scalar(two_pow(evolve(g, t).0) as int),
    decreases t,
{
    reveal_with_fuel(two_pow, 1);
    if t == 0 {
        crate::amplitude::lemma_two_pow_pos(g.rows as nat);
        lemma_total_basis(two_pow(g.rows as nat));
    } else {
        let prev = evolve(g, (t - 1) as nat);
        lemma_total_evolve(g, (t - 1) as nat);
        let op = column_model(g.column_cells(t - 1));
        lemma_column_unitary(g, t - 1);
        lemma_norm_scaled(op, prev, two_pow(g.rows as nat));
        lemma_two_pow_add(op.0, prev.0);
        let x = two_pow(op.0) as int;
        let y = two_pow(prev.0) as int;
        assert(cmul(scalar(x), scalar(y)) == scalar(x * y)) by {
            assert(x * 0 == 0 && 0 * y == 0 && 0 * 0 == 0) by (nonlinear_arith);
        }
    }
}

/// Σ_{i < n} |v_i|² in Z[√2].
pub open spec fn norm_total(v: Seq<Cyclo>, n: nat) -> Surd
    decreases n,
{
    if n == 0 {
        (0, 0)
    } else {
        surd_add(norm_total(v, (n - 1) as nat), norm_sq(v[n - 1]))
    }
}

proof fn lemma_norm_as_cmul(x: Cyclo)
    ensures
        cmul(x, conj(x)) == (norm_sq(x).0, norm_sq(x).1, 0int, -norm_sq(x).1),
{
    let (x0, x1, x2, x3) = x;
    lemma_neg_mul(x1, x1);
    lemma_neg_mul(x2, x2);
    lemma_neg_mul(x3, x3);
    lemma_neg_mul(x0, x3);
    lemma_neg_mul(x2, x1);
    lemma_neg_mul(x3, x2);
    lemma_neg_mul(x0, x2);
    lemma_neg_mul(x1, x3);
    lemma_neg_mul(x3, x1);
    lemma_neg_mul(x0, x1);
    lemma_neg_mul(x1, x2);
    lemma_neg_mul(x2, x3);
    assert(x1 * x0 == x0 * x1 && x2 * x1 == x1 * x2 && x3 * x2 == x2 * x3 && x2 * x0 == x0 * x2
        && x3 * x1 == x1 * x3 && x3 * x0 == x0 * x3) by (nonlinear_arith);
}

proof fn lemma_total_as_surd(v: Seq<Cyclo>, n: nat)
    ensures
        csum(n, norms(v)) == (norm_total(v, n).0, norm_total(v, n).1, 0int, -norm_total(v, n).1),
    decreases n,
{
    if n > 0 {
        lemma_total_as_surd(v, (n - 1) as nat);
        lemma_norm_as_cmul(v[n - 1]);
    }
}

/// Conservation of probability: at every column of every grid, the squared
/// magnitudes of the state's amplitudes sum to 2^scale (with no √2 part), so
/// the probabilities |amplitude|² / 2^scale sum to exactly 1.
pub proof fn law_probability_is_conserved(g: Grid, c: nat)
    requires
        g.wf(),
    ensures
        norm_total(state_model(g, c).1, state_model(g, c).1.len()) == (two_pow(state_model(g, c).0) as int, 0int),
{
    let v = state_model(g, c).1;
    lemma_total_evolve(g, c + 1);
    lemma_total_as_surd(v, v.len());
}

/// The sum of the first n entries of a sequence of Z[√2] values.
pub open spec fn surd_sum(m: Seq<Surd>, n: nat) -> Surd
    decreases n,
{
    if n == 0 {
        (0, 0)
    } else {
        surd_add(surd_sum(m, (n - 1) as nat), m[n - 1])
    }
}

proof fn lemma_surd_sum_update(m: Seq<Surd>, n: nat, j: int, d: Surd)
    requires
        0 <= j < n <= m.len(),
    ensures
        surd_sum(m.update(j, surd_add(m[j], d)), n) == surd_add(surd_sum(m, n), d),
    decreases n,
{
    if j < n - 1 {
        lemma_surd_sum_update(m, (n - 1) as nat, j, d);
    } else {
        lemma_surd_sum_same(m, m.update(j, surd_add(m[j], d)), (n - 1) as nat);
    }
}

proof fn lemma_surd_sum_same(a: Seq<Surd>, b: Seq<Surd>, n: nat)
    requires
        n <= a.len(),
        n <= b.len(),
        forall|i: int| 0 <= i < n ==> #[trigger] a[i] == b[i],
    ensures
        surd_sum(a, n) == surd_sum(b, n),
    decreases n,
{
    if n > 0 {
        lemma_surd_sum_same(a, b, (n - 1) as nat);
    }
}

proof fn lemma_marginal_sum(v: Seq<Cyclo>, rows: nat, measured: Seq<usize>, i: nat)
    requires
        i <= v.len(),
    ensures
        marginal_upto(v, rows, measured, i).len() == two_pow(measured.len()),
        surd_sum(marginal_upto(v, rows, measured, i), two_pow(measured.len())) == norm_total(v, i),
    decreases i,
{
    let k = two_pow(measured.len());
    if i == 0 {
        let z = marginal_upto(v, rows, measured, 0);
        assert forall|j: int| 0 <= j < k implies #[trigger] z[j] == (0int, 0int) by {
        }
        lemma_surd_sum_zero(z, k);
    } else {
        lemma_marginal_sum(v, rows, measured, (i - 1) as nat);
        let m = marginal_upto(v, rows, measured, (i - 1) as nat);
        let j = project((i - 1) as nat, rows, measured, measured.len());
        lemma_project_bound((i - 1) as nat, rows, measured, measured.len());
        lemma_surd_sum_update(m, k, j as int, norm_sq(v[i - 1]));
    }
}

proof fn lemma_surd_sum_zero(m: Seq<Surd>, n: nat)
    requires
        n <= m.len(),
        forall|j: int| 0 <= j < n ==> #[trigger] m[j] == (0int, 0int),
    ensures
        surd_sum(m, n) == (0int, 0int),
    decreases n,
{
    if n > 0 {
        lemma_surd_sum_zero(m, (n - 1) as nat);
    }
}

/// The marginal distribution over any measured rows of the state at any
/// column sums to 2^scale (with no √2 part): its probabilities sum to
/// exactly 1.
pub proof fn law_marginal_sums_to_one(g: Grid, c: nat, measured: Seq<usize>)
    requires
        g.wf(),
        rows_valid(measured, g.rows as nat),
    ensures
        surd_sum(
            marginal_model(state_model(g, c).1, g.rows as nat, measured),
            two_pow(measured.len()),
        ) == (two_pow(state_model(g, c).0) as int, 0int),
{
    let v = state_model(g, c).1;
    law_probability_is_conserved(g, c);
    lemma_marginal_sum(v, g.rows as nat, measured, v.len());
}

/// Every gate of the catalog is unitary up to its scale: for its matrix
/// M / √2^s, M · M† = 2^s · I.
pub proof fn law_gate_is_unitary(g: Gate)
    requires
        gate_matrix(g) is Some,
    ensures
        scaled_unitary(gate_matrix(g)->0, 2),
{
    lemma_gate_unitary(g);
}

/// Every column operator is unitary up to its scale, whatever the column
/// holds (paired or unpaired controls, measurement markers, empty cells):
/// for (h, M), the Gram entries Σ_i M[i][j] · conj(M[i][k]) are 2^h when
/// j == k and 0 otherwise.
pub proof fn law_column_operator_is_unitary(g: Grid, c: int)
    requires
        g.wf(),
    ensures
        scaled_unitary(column_model(g.column_cells(c)), two_pow(g.rows as nat)),
{
    lemma_column_unitary(g, c);
}

proof fn lemma_scale_mono(g: Grid, s: nat, t: nat)
    requires
        s <= t,
    ensures
        evolve(g, s).0 <= evolve(g, t).0,
    decreases t,
{
    if s < t {
        lemma_scale_mono(g, s, (t - 1) as nat);
    }
}

pub(crate) proof fn lemma_two_pow_124(n: nat)
    requires
        n <= 124,
    ensures
        two_pow(n) <= prob_bound(),
{
    crate::amplitude::lemma_two_pow_le(n, 124);
    reveal_with_fuel(two_pow, 32);
    assert(two_pow(31) == 0x8000_0000);
    lemma_two_pow_add(31, 31);
    lemma_two_pow_add(62, 62);
    let p = two_pow(62);
    assert(p == 0x4000_0000_0000_0000) by (nonlinear_arith)
        requires
            p == two_pow(31) * two_pow(31),
            two_pow(31) == 0x8000_0000,
    ;
    assert(two_pow(124) == prob_bound()) by (nonlinear_arith)
        requires
            two_pow(124) == p * p,
            p == 0x4000_0000_0000_0000,
    ;
}

proof fn lemma_coord_bound(x: int)
    requires
        x * x <= 0x1000_0000_0000_0000_0000_0000_0000_0000,
    ensures
        -0x4000_0000_0000_0000 <= x <= 0x4000_0000_0000_0000,
{
    assert(-0x4000_0000_0000_0000 <= x <= 0x4000_0000_0000_0000) by (nonlinear_arith)
        requires
            x * x <= 0x1000_0000_0000_0000_0000_0000_0000_0000,
    ;
}

/// A state whose scale is at most 124 has every coordinate within ±2^62:
/// each squared coordinate is at most the total squared magnitude 2^scale.
proof fn lemma_small_scale_fits(g: Grid, t: nat)
    requires
        g.wf(),
        t >= 1,
        evolve(g, t).0 <= 124,
    ensures
        all_fit(evolve(g, t).1),
        norm_total(evolve(g, t).1, evolve(g, t).1.len()).0 <= prob_bound(),
{
    let v = evolve(g, t).1;
    law_probability_is_conserved(g, (t - 1) as nat);
    lemma_two_pow_124(evolve(g, t).0);
    assert forall|i: int| 0 <= i < v.len() implies crate::amplitude::fits_i64(#[trigger] v[i]) by {
        lemma_norm_total_mono(v, i as nat, i as nat);
        lemma_norm_total_mono(v, (i + 1) as nat, v.len());
        lemma_norm_sq_facts(v[i]);
        lemma_coord_bound(v[i].0);
        lemma_coord_bound(v[i].1);
        lemma_coord_bound(v[i].2);
        lemma_coord_bound(v[i].3);
    }
}

/// Every state up to column t − 1 fits in 64 bits when the state there has
/// scale at most 124.
pub proof fn lemma_fits_when_scale_small(g: Grid, t: nat)
    requires
        g.wf(),
        evolve(g, t).0 <= 124,
    ensures
        fits_through(g, t),
{
    assert forall|s: nat| 1 <= s <= t implies all_fit(#[trigger] evolve(g, s).1) by {
        lemma_scale_mono(g, s, t);
        lemma_small_scale_fits(g, s);
    }
}

/// The total squared magnitude of a state of scale at most 124 is at most
/// 2^124.
pub proof fn lemma_total_when_scale_small(g: Grid, c: nat)
    requires
        g.wf(),
        state_model(g, c).0 <= 124,
    ensures
        norm_total(state_model(g, c).1, state_model(g, c).1.len()).0 <= prob_bound(),
        state_model(g, c).1.len() == two_pow(g.rows as nat),
{
    lemma_small_scale_fits(g, c + 1);
    lemma_total_evolve(g, c + 1);
}

proof fn lemma_assemble_scale(col: Seq<Option<crate::gate::Cell>>, r: nat, acc: (nat, Mat))
    requires
        r <= col.len(),
        acc.0 <= r,
    ensures
        assemble(col, r, acc).0 <= col.len(),
    decreases col.len() - r,
{
    if r < col.len() {
        let (f, w) = factor_at(col, r as int);
        if gate_of(col[r as int]) is Some {
            lemma_gate_matrix_shape((col[r as int]->0).gate);
        } else if w == 2 {
            lemma_gate_matrix_shape((col[r + 1 as int]->0).gate);
        }
        lemma_assemble_scale(col, r + w, kron(acc, f));
    }
}

proof fn lemma_evolve_scale(g: Grid, t: nat)
    requires
        g.wf(),
    ensures
        evolve(g, t).0 <= g.rows * t,
    decreases t,
{
    if t > 0 {
        lemma_evolve_scale(g, (t - 1) as nat);
        lemma_assemble_scale(g.column_cells(t - 1), 0, scalar_one());
        assert(g.rows * t == g.rows * (t - 1) + g.rows) by (nonlinear_arith);
    }
}

/// The number of columns whose operators shape the state at column c: those
/// up to c that the grid stores.
pub open spec fn columns_used(g: Grid, c: nat) -> nat {
    if c + 1 <= g.columns@.len() {
        c + 1
    } else {
        g.columns@.len() as nat
    }
}

/// Each column adds at most `rows` to the scale, and columns past the stored
/// ones add nothing.
pub proof fn lemma_scale_bound(g: Grid, c: nat)
    requires
        g.wf(),
    ensures
        state_model(g, c).0 <= g.rows * columns_used(g, c),
{
    let u = columns_used(g, c);
    lemma_evolve_scale(g, u);
    if u < c + 1 {
        lemma_total_evolve(g, u);
        crate::state::lemma_stable_beyond(g, u, c + 1);
    }
}

/// Conservation of probability for the states the evolver returns: while
/// rows × (columns used) ≤ 124 (an 8-row grid up to column 14, for
/// instance), every state up to column c fits in 64 bits, so
/// `get_state_of_column` returns it, and its squared magnitudes sum to
/// exactly 2^scale, i.e. its probabilities sum to 1.
pub proof fn law_returned_state_is_normalised(g: Grid, c: nat)
    requires
        g.wf(),
        g.rows * columns_used(g, c) <= 124,
    ensures
        fits_through(g, c + 1),
        norm_total(state_model(g, c).1, state_model(g, c).1.len()) == (two_pow(state_model(g, c).0) as int, 0int),
{
    lemma_scale_bound(g, c);
    lemma_fits_when_scale_small(g, c + 1);
    law_probability_is_conserved(g, c);
}

} // verus!
