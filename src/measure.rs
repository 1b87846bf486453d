//! Marginal distributions over measured rows, and their comparison with a
//! target distribution.
use vstd::prelude::*;

use crate::amplitude::{Amp, Cyclo, Surd, norm_sq, two_pow};
use crate::compare::{is_surd_negative, pow2, surd_negative};
use crate::conservation::norm_total;
use crate::grid::Grid;
use crate::state::{State, get_state_of_column, state_len, state_model};

verus! {

/// The value of row r in basis index i of a register of `rows` rows: bit
/// (rows − 1 − r) of i.
pub open spec fn row_bit(i: nat, rows: nat, r: nat) -> nat {
    (i / two_pow((rows - 1 - r) as nat)) % 2
}

/// The index over the first p measured rows: the bits of those rows read in
/// the given order, the first one most significant.
pub open spec fn project(i: nat, rows: nat, measured: Seq<usize>, p: nat) -> nat
    decreases p,
{
    if p == 0 {
        0
    } else {
        2 * project(i, rows, measured, (p - 1) as nat) + row_bit(i, rows, measured[p - 1] as nat)
    }
}

pub open spec fn surd_add(x: Surd, y: Surd) -> Surd {
    (x.0 + y.0, x.1 + y.1)
}

/// The squared magnitudes of the first i amplitudes, summed by projected
/// index.
pub open spec fn marginal_upto(v: Seq<Cyclo>, rows: nat, measured: Seq<usize>, i: nat) -> Seq<Surd>
    decreases i,
{
    if i == 0 {
        Seq::new(two_pow(measured.len()), |j: int| (0int, 0int))
    } else {
        let m = marginal_upto(v, rows, measured, (i - 1) as nat);
        let j = project((i - 1) as nat, rows, measured, measured.len()) as int;
        m.update(j, surd_add(m[j], norm_sq(v[i - 1])))
    }
}

/// The marginal distribution of a state over the measured rows: entry j is
/// the sum of |v[i]|² over the basis indices i that project to j.
pub open spec fn marginal_model(v: Seq<Cyclo>, rows: nat, measured: Seq<usize>) -> Seq<Surd> {
    marginal_upto(v, rows, measured, v.len())
}

/// A probability (rational + irrational·√2) / 2^scale, where the scale is
/// that of the distribution holding it.
#[derive(Clone, Copy, PartialEq, Eq, Structural, Debug)]
pub struct Prob {
    pub rational: i128,
    pub irrational: i128,
}

/// A marginal distribution: entry j is probs[j] / 2^scale.
pub struct Marginal {
    pub scale: u64,
    pub probs: Vec<Prob>,
}

pub open spec fn probs_view(v: Seq<Prob>) -> Seq<Surd> {
    Seq::new(v.len(), |i: int| (v[i].rational as int, v[i].irrational as int))
}

impl View for Marginal {
    type V = (nat, Seq<Surd>);

    open spec fn view(&self) -> (nat, Seq<Surd>) {
        (self.scale as nat, probs_view(self.probs@))
    }
}

/// The measured rows are rows of the register, and no more of them than it
/// has.
pub open spec fn rows_valid(measured: Seq<usize>, rows: nat) -> bool {
    measured.len() <= rows && forall|p: int| 0 <= p < measured.len() ==> #[trigger] measured[p] < rows
}

pub(crate) proof fn lemma_project_bound(i: nat, rows: nat, measured: Seq<usize>, p: nat)
    requires
        p <= measured.len(),
    ensures
        project(i, rows, measured, p) < two_pow(p),
    decreases p,
{
    if p > 0 {
        lemma_project_bound(i, rows, measured, (p - 1) as nat);
    }
}

/// Bound on the total squared magnitude of a state that the marginal
/// computation handles: 2^124.
pub open spec fn prob_bound() -> int {
    0x1000_0000_0000_0000_0000_0000_0000_0000
}

proof fn lemma_square_facts(x: int, y: int)
    ensures
        x * x >= 0,
        2 * (x * y) <= x * x + y * y,
        -(x * x + y * y) <= 2 * (x * y),
{
    assert(x * x >= 0) by (nonlinear_arith);
    assert((x - y) * (x - y) >= 0 && (x + y) * (x + y) >= 0) by (nonlinear_arith);
    assert((x - y) * (x - y) == x * x + y * y - 2 * (x * y)) by (nonlinear_arith);
    assert((x + y) * (x + y) == x * x + y * y + 2 * (x * y)) by (nonlinear_arith);
}

/// |x|² = P + Q·√2 has P ≥ 0, every squared coordinate at most P, and
/// |Q| ≤ P.
pub(crate) proof fn lemma_norm_sq_facts(x: Cyclo)
    ensures
        0 <= norm_sq(x).0,
        x.0 * x.0 <= norm_sq(x).0 && x.1 * x.1 <= norm_sq(x).0 && x.2 * x.2 <= norm_sq(x).0 && x.3
            * x.3 <= norm_sq(x).0,
        -norm_sq(x).0 <= norm_sq(x).1 <= norm_sq(x).0,
{
    lemma_square_facts(x.0, x.1);
    lemma_square_facts(x.1, x.2);
    lemma_square_facts(x.2, x.3);
    lemma_square_facts(x.3, x.0);
}

/// The squared magnitude of an amplitude numerator whose squared magnitude
/// is at most 2^124.
pub(crate) fn amp_norm(z: Amp) -> (r: Prob)
    requires
        norm_sq(z@).0 <= prob_bound(),
    ensures
        (r.rational as int, r.irrational as int) == norm_sq(z@),
        0 <= r.rational,
        -r.rational <= r.irrational <= r.rational,
{
    let a = z.a as i128;
    let b = z.b as i128;
    let c = z.c as i128;
    let d = z.d as i128;
    proof {
        lemma_norm_sq_facts(z@);
        lemma_square_facts(a as int, b as int);
        lemma_square_facts(b as int, c as int);
        lemma_square_facts(c as int, d as int);
        lemma_square_facts(d as int, a as int);
        assert(d * a == a * d) by (nonlinear_arith);
    }
    Prob { rational: a * a + b * b + c * c + d * d, irrational: a * b + b * c + c * d - d * a }
}

/// Index i projected onto the measured rows.
pub(crate) fn project_index(i: usize, rows: usize, measured: &Vec<usize>) -> (r: usize)
    requires
        1 <= rows <= 8,
        rows_valid(measured@, rows as nat),
    ensures
        r == project(i as nat, rows as nat, measured@, measured@.len()),
        r < two_pow(measured@.len()),
{
    let mut j: usize = 0;
    let mut p: usize = 0;
    while p < measured.len()
        invariant
            1 <= rows <= 8,
            rows_valid(measured@, rows as nat),
            p <= measured@.len(),
            j == project(i as nat, rows as nat, measured@, p as nat),
        decreases measured@.len() - p,
    {
        let row = measured[p];
        assert(row < rows);
        let div = state_len(rows - 1 - row);
        let bit = (i / div) % 2;
        proof {
            lemma_project_bound(i as nat, rows as nat, measured@, p as nat);
            crate::amplitude::lemma_two_pow_le(p as nat, 7);
            reveal_with_fuel(two_pow, 8);
        }
        j = 2 * j + bit;
        p = p + 1;
    }
    proof {
        lemma_project_bound(i as nat, rows as nat, measured@, measured@.len());
    }
    j
}

/// The marginal distribution of `state` over the measured rows, in the
/// state's scale: entry j sums |amplitude|² over the basis states whose
/// measured rows read j (the first measured row most significant).
pub fn marginal_distribution(state: &State, rows: usize, measured: &Vec<usize>) -> (r: Marginal)
    requires
        1 <= rows <= 8,
        state.amps@.len() == two_pow(rows as nat),
        rows_valid(measured@, rows as nat),
        norm_total(state@.1, state@.1.len()).0 <= prob_bound(),
    ensures
        r@ == (state@.0, marginal_model(state@.1, rows as nat, measured@)),
        r.probs@.len() == two_pow(measured@.len()),
        forall|j: int|
            0 <= j < r.probs@.len() ==> 0 <= (#[trigger] r.probs@[j]).rational <= prob_bound()
                && -prob_bound() <= r.probs@[j].irrational <= prob_bound(),
        forall|j: int|
            0 <= j < r.probs@.len() ==> (#[trigger] r.probs@[j]).rational <= norm_total(
                state@.1,
                state@.1.len(),
            ).0 && -norm_total(state@.1, state@.1.len()).0 <= r.probs@[j].irrational <= norm_total(
                state@.1,
                state@.1.len(),
            ).0,
{
    let k = measured.len();
    let size = state_len(k);
    let mut probs: Vec<Prob> = Vec::new();
    let mut q: usize = 0;
    while q < size
        invariant
            q <= size,
            probs@.len() == q,
            forall|j: int| 0 <= j < q ==> #[trigger] probs@[j] == (Prob { rational: 0, irrational: 0 }),
        decreases size - q,
    {
        probs.push(Prob { rational: 0, irrational: 0 });
        q = q + 1;
    }
    assert(probs_view(probs@) =~= marginal_upto(state@.1, rows as nat, measured@, 0));
    let n = state.amps.len();
    proof {
        crate::amplitude::lemma_two_pow_le(rows as nat, 8);
        reveal_with_fuel(two_pow, 9);
    }
    let mut i: usize = 0;
    while i < n
        invariant
            1 <= rows <= 8,
            n == state.amps@.len() == two_pow(rows as nat),
            n <= 256,
            rows_valid(measured@, rows as nat),
            k == measured@.len(),
            size == two_pow(k as nat),
            i <= n,
            probs@.len() == size,
            probs_view(probs@) == marginal_upto(state@.1, rows as nat, measured@, i as nat),
            norm_total(state@.1, n as nat).0 <= prob_bound(),
            forall|j: int|
                0 <= j < size ==> 0 <= (#[trigger] probs@[j]).rational <= norm_total(state@.1, i as nat).0
                    && -norm_total(state@.1, i as nat).0 <= probs@[j].irrational <= norm_total(
                    state@.1,
                    i as nat,
                ).0,
        decreases n - i,
    {
        let j = project_index(i, rows, measured);
        proof {
            lemma_norm_total_mono(state@.1, (i + 1) as nat, n as nat);
            lemma_norm_total_mono(state@.1, i as nat, i as nat);
            lemma_norm_sq_facts(state@.1[i as int]);
            assert(state@.1[i as int] == state.amps@[i as int]@);
        }
        let t = amp_norm(state.amps[i]);
        let old_p = probs[j];
        let updated = Prob {
            rational: old_p.rational + t.rational,
            irrational: old_p.irrational + t.irrational,
        };
        probs.set(j, updated);
        assert(probs_view(probs@) =~= marginal_upto(state@.1, rows as nat, measured@, (i + 1) as nat));
        i = i + 1;
    }
    Marginal { scale: state.scale, probs }
}

/// Squared magnitudes are never negative, so their running total only grows.
pub(crate) proof fn lemma_norm_total_mono(v: Seq<Cyclo>, i: nat, n: nat)
    requires
        i <= n,
    ensures
        0 <= norm_total(v, i).0 <= norm_total(v, n).0,
    decreases n,
{
    if n > 0 {
        lemma_norm_sq_facts(v[n - 1]);
        if i < n {
            lemma_norm_total_mono(v, i, (n - 1) as nat);
        } else {
            lemma_norm_total_mono(v, (n - 1) as nat, (n - 1) as nat);
        }
    }
}

/// A target distribution: entry j is weights[j] / 2^exponent.
pub struct Distribution {
    pub exponent: u32,
    pub weights: Vec<u64>,
}

impl View for Distribution {
    type V = (nat, Seq<u64>);

    open spec fn view(&self) -> (nat, Seq<u64>) {
        (self.exponent as nat, self.weights@)
    }
}

/// A tolerance numerator / 2^exponent.
pub struct Tolerance {
    pub numerator: u64,
    pub exponent: u32,
}

impl View for Tolerance {
    type V = (nat, nat);

    open spec fn view(&self) -> (nat, nat) {
        (self.numerator as nat, self.exponent as nat)
    }
}

/// The tolerance is at most 1, with an exponent of at most 124.
pub open spec fn tolerance_ok(t: (nat, nat)) -> bool {
    t.1 <= 124 && t.0 <= two_pow(t.1)
}

/// Every target entry is at most 1, with an exponent of at most 124.
pub open spec fn target_ok(d: (nat, Seq<u64>)) -> bool {
    d.0 <= 124 && forall|j: int| 0 <= j < d.1.len() ==> #[trigger] d.1[j] <= two_pow(d.0)
}

/// The standard tolerance, 4722366482869645 / 2^72: the largest k / 2^72 not
/// above 10⁻⁶.
pub open spec fn standard_tolerance() -> (nat, nat) {
    (4722366482869645, 72)
}

impl Tolerance {
    pub fn standard() -> (r: Tolerance)
        ensures
            r@ == standard_tolerance(),
            tolerance_ok(r@),
    {
        proof {
            reveal_with_fuel(two_pow, 33);
            assert(two_pow(32) == 0x1_0000_0000);
            crate::amplitude::lemma_two_pow_add(32, 32);
            assert(two_pow(64) == 0x1_0000_0000_0000_0000) by (nonlinear_arith)
                requires
                    two_pow(64) == two_pow(32) * two_pow(32),
                    two_pow(32) == 0x1_0000_0000,
            ;
            crate::amplitude::lemma_two_pow_le(64, 72);
        }
        Tolerance { numerator: 4722366482869645, exponent: 72 }
    }
}

pub open spec fn max3(a: nat, b: nat, c: nat) -> nat {
    if a >= b && a >= c {
        a
    } else if b >= c {
        b
    } else {
        c
    }
}

/// |(p.0 + p.1·√2) / 2^s − w / 2^e| < num / 2^f. Multiplied by 2^t for
/// t = max(s, e, f) it reads |x + y·√2| < z, with x = p.0·2^(t−s) − w·2^(t−e),
/// y = p.1·2^(t−s) and z = num·2^(t−f); that is x − z + y·√2 < 0 and
/// −(x + z) − y·√2 < 0.
pub open spec fn prob_within(p: Surd, s: nat, w: nat, e: nat, num: nat, f: nat) -> bool {
    let t = max3(s, e, f);
    let x = p.0 * two_pow((t - s) as nat) - w * two_pow((t - e) as nat);
    let y = p.1 * two_pow((t - s) as nat);
    let z = num * two_pow((t - f) as nat);
    surd_negative(x - z, y) && surd_negative(-(x + z), -y)
}

/// Every entry of the marginal lies within the tolerance of the target's
/// entry: the largest absolute difference is below the tolerance.
pub open spec fn within_target(m: (nat, Seq<Surd>), t: (nat, Seq<u64>), tol: (nat, nat)) -> bool {
    forall|j: int|
        0 <= j < m.1.len() ==> prob_within(#[trigger] m.1[j], m.0, t.1[j] as nat, t.0, tol.0, tol.1)
}

proof fn lemma_scale_up(p: int, s: nat, t: nat)
    requires
        s <= t <= 124,
        -two_pow(s) <= p <= two_pow(s),
    ensures
        -prob_bound() <= p * two_pow((t - s) as nat) <= prob_bound(),
        -two_pow(t) <= p * two_pow((t - s) as nat) <= two_pow(t),
{
    let k = two_pow((t - s) as nat);
    crate::amplitude::lemma_two_pow_add(s, (t - s) as nat);
    crate::amplitude::lemma_two_pow_pos((t - s) as nat);
    crate::conservation::lemma_two_pow_124(t);
    let ps = two_pow(s) as int;
    assert(-(ps * k) <= p * k <= ps * k) by (nonlinear_arith)
        requires
            -ps <= p <= ps,
            k >= 1,
    ;
}

/// Whether one marginal entry lies within the tolerance of a target entry.
fn entry_within(p: Prob, s: u32, w: u64, e: u32, num: u64, f: u32) -> (r: bool)
    requires
        s <= 124,
        e <= 124,
        f <= 124,
        -two_pow(s as nat) <= p.rational <= two_pow(s as nat),
        -two_pow(s as nat) <= p.irrational <= two_pow(s as nat),
        w <= two_pow(e as nat),
        num <= two_pow(f as nat),
    ensures
        r == prob_within(
            (p.rational as int, p.irrational as int),
            s as nat,
            w as nat,
            e as nat,
            num as nat,
            f as nat,
        ),
{
    let t: u32 = if s >= e && s >= f {
        s
    } else if e >= f {
        e
    } else {
        f
    };
    let k1 = pow2(t - s);
    let k2 = pow2(t - e);
    let k3 = pow2(t - f);
    proof {
        lemma_scale_up(p.rational as int, s as nat, t as nat);
        lemma_scale_up(p.irrational as int, s as nat, t as nat);
        lemma_scale_up(w as int, e as nat, t as nat);
        lemma_scale_up(num as int, f as nat, t as nat);
    }
    let x = p.rational * k1 - (w as i128) * k2;
    let y = p.irrational * k1;
    let z = (num as i128) * k3;
    is_surd_negative(x - z, y) && is_surd_negative(-(x + z), -y)
}

/// Whether every entry of a marginal lies within the tolerance of the
/// target's entry.
pub fn marginal_within(m: &Marginal, target: &Distribution, tolerance: &Tolerance) -> (r: bool)
    requires
        m.probs@.len() == target.weights@.len(),
        m.scale <= 124,
        tolerance_ok(tolerance@),
        target_ok(target@),
        forall|j: int|
            0 <= j < m.probs@.len() ==> -two_pow(m.scale as nat) <= (#[trigger] m.probs@[j]).rational
                <= two_pow(m.scale as nat) && -two_pow(m.scale as nat) <= m.probs@[j].irrational
                <= two_pow(m.scale as nat),
    ensures
        r == within_target(m@, target@, tolerance@),
{
    let mut j: usize = 0;
    while j < m.probs.len()
        invariant
            m.probs@.len() == target.weights@.len(),
            m.scale <= 124,
            tolerance_ok(tolerance@),
            target_ok(target@),
            forall|q: int|
                0 <= q < m.probs@.len() ==> -two_pow(m.scale as nat) <= (#[trigger] m.probs@[q]).rational
                    <= two_pow(m.scale as nat) && -two_pow(m.scale as nat) <= m.probs@[q].irrational
                    <= two_pow(m.scale as nat),
            j <= m.probs@.len(),
            forall|q: int|
                0 <= q < j ==> prob_within(
                    #[trigger] m@.1[q],
                    m@.0,
                    target@.1[q] as nat,
                    target@.0,
                    tolerance@.0,
                    tolerance@.1,
                ),
        decreases m.probs@.len() - j,
    {
        let p = m.probs[j];
        let w = target.weights[j];
        assert(m@.1[j as int] == (p.rational as int, p.irrational as int));
        assert(target@.1[j as int] == w);
        assert(w <= two_pow(target@.0));
        if !entry_within(p, m.scale as u32, w, target.exponent, tolerance.numerator, tolerance.exponent) {
            return false;
        }
        j = j + 1;
    }
    true
}

/// Why a measurement could not be evaluated.
#[derive(Clone, Copy, PartialEq, Eq, Structural, Debug)]
pub enum EvalError {
    /// No measured row was given.
    EmptyRows,
    /// A measured row lies outside the register, or more rows were given
    /// than it has.
    InvalidRows,
    /// The target's length is not 2^k for k measured rows.
    TargetLength,
    /// The state's scale exceeds 124: its probabilities would need more
    /// than 2^124 in the denominator.
    Overflow,
}

/// The marginal over the measured rows of the state at `column`.
pub open spec fn measured_model(g: Grid, column: nat, measured: Seq<usize>) -> (nat, Seq<Surd>) {
    let st = state_model(g, column);
    (st.0, marginal_model(st.1, g.rows as nat, measured))
}

/// The rows of measurement locations (column, row), in the given order.
pub open spec fn location_rows(locs: Seq<(usize, usize)>) -> Seq<usize> {
    Seq::new(locs.len(), |i: int| locs[i].1)
}

/// All locations name the column of the first one.
pub open spec fn same_column(locs: Seq<(usize, usize)>) -> bool {
    forall|q: int| 0 <= q < locs.len() ==> (#[trigger] locs[q]).0 == locs[0].0
}

/// What keeps a marginal from being computed at the locations' column: no
/// location, rows that do not fit the register or locations in more than one
/// column, or a state whose scale exceeds 124 (probabilities over more than
/// 2^124 are not held).
pub open spec fn partial_error(g: Grid, locs: Seq<(usize, usize)>) -> Option<EvalError> {
    if locs.len() == 0 {
        Some(EvalError::EmptyRows)
    } else if !rows_valid(location_rows(locs), g.rows as nat) || !same_column(locs) {
        Some(EvalError::InvalidRows)
    } else if state_model(g, locs[0].0 as nat).0 > 124 {
        Some(EvalError::Overflow)
    } else {
        None
    }
}

/// What keeps a measurement from being checked against a target of the
/// given length; a target of the wrong length is found before the state is
/// computed.
pub open spec fn objective_error(g: Grid, locs: Seq<(usize, usize)>, target_len: nat) -> Option<EvalError> {
    if locs.len() == 0 {
        Some(EvalError::EmptyRows)
    } else if !rows_valid(location_rows(locs), g.rows as nat) || !same_column(locs) {
        Some(EvalError::InvalidRows)
    } else if target_len != two_pow(locs.len()) {
        Some(EvalError::TargetLength)
    } else if state_model(g, locs[0].0 as nat).0 > 124 {
        Some(EvalError::Overflow)
    } else {
        None
    }
}

/// The rows of the locations, and whether they fit a register of `rows`
/// rows and all lie in one column.
fn rows_of(locs: &Vec<(usize, usize)>, rows: usize) -> (r: (Vec<usize>, bool))
    ensures
        r.0@ == location_rows(locs@),
        r.1 == (rows_valid(location_rows(locs@), rows as nat) && same_column(locs@)),
{
    let mut out: Vec<usize> = Vec::new();
    let mut ok = locs.len() <= rows;
    let mut same = true;
    let mut p: usize = 0;
    while p < locs.len()
        invariant
            p <= locs@.len(),
            out@ == location_rows(locs@).take(p as int),
            ok == (locs@.len() <= rows && forall|q: int| 0 <= q < p ==> #[trigger] locs@[q].1 < rows),
            same == forall|q: int| 0 <= q < p ==> (#[trigger] locs@[q]).0 == locs@[0].0,
        decreases locs@.len() - p,
    {
        let (col, row) = locs[p];
        if row >= rows {
            ok = false;
        }
        if col != locs[0].0 {
            same = false;
        }
        out.push(row);
        p = p + 1;
        assert(out@ =~= location_rows(locs@).take(p as int));
    }
    assert(out@ =~= location_rows(locs@));
    assert(ok == rows_valid(location_rows(locs@), rows as nat)) by {
        let lr = location_rows(locs@);
        if ok {
            assert forall|q: int| 0 <= q < lr.len() implies #[trigger] lr[q] < rows by {
                assert(locs@[q].1 < rows);
            }
        } else if locs@.len() <= rows {
            let q = choose|q: int| 0 <= q < locs@.len() && !(#[trigger] locs@[q].1 < rows);
            assert(lr[q] == locs@[q].1);
        }
    }
    (out, ok && same)
}

/// The marginal distribution over the rows of the measurement locations, of
/// the state at the column of the first location.
pub fn get_partial_state_of_column(grid: &Grid, measure_block_locations: &Vec<(usize, usize)>) -> (r: Result<Marginal, EvalError>)
    requires
        grid.wf(),
    ensures
        match r {
            Ok(m) => partial_error(*grid, measure_block_locations@) is None && m@ == measured_model(
                *grid,
                measure_block_locations@[0].0 as nat,
                location_rows(measure_block_locations@),
            ) && m.probs@.len() == two_pow(measure_block_locations@.len()) && m.scale <= 124
                && forall|j: int|
                0 <= j < m.probs@.len() ==> 0 <= (#[trigger] m.probs@[j]).rational <= two_pow(
                    m.scale as nat,
                ) && -two_pow(m.scale as nat) <= m.probs@[j].irrational <= two_pow(m.scale as nat),
            Err(e) => partial_error(*grid, measure_block_locations@) == Some(e),
        },
{
    if measure_block_locations.len() == 0 {
        return Err(EvalError::EmptyRows);
    }
    let (rows, ok) = rows_of(measure_block_locations, grid.rows);
    if !ok {
        return Err(EvalError::InvalidRows);
    }
    let column = measure_block_locations[0].0;
    match get_state_of_column(grid, column) {
        None => Err(EvalError::Overflow),
        Some(st) => {
            if st.scale > 124 {
                return Err(EvalError::Overflow);
            }
            proof {
                crate::conservation::lemma_total_when_scale_small(*grid, column as nat);
                crate::conservation::law_probability_is_conserved(*grid, column as nat);
            }
            Ok(marginal_distribution(&st, grid.rows, &rows))
        },
    }
}


/// Checks a measurement: whether the marginal distribution over the rows of
/// the measurement locations, at their shared column, lies within
/// `tolerance` of `desired_state` in every entry. Both sides are compared
/// exactly, the marginal's √2 part included.
pub fn satisfies_objective(
    desired_state: &Distribution,
    grid: &Grid,
    measure_block_locations: &Vec<(usize, usize)>,
    tolerance: &Tolerance,
) -> (r: Result<bool, EvalError>)
    requires
        grid.wf(),
        target_ok(desired_state@),
        tolerance_ok(tolerance@),
    ensures
        match r {
            Ok(b) => objective_error(*grid, measure_block_locations@, desired_state.weights@.len()) is None
                && b == within_target(
                measured_model(*grid, measure_block_locations@[0].0 as nat, location_rows(measure_block_locations@)),
                desired_state@,
                tolerance@,
            ),
            Err(e) => objective_error(*grid, measure_block_locations@, desired_state.weights@.len()) == Some(e),
        },
{
    if measure_block_locations.len() == 0 {
        return Err(EvalError::EmptyRows);
    }
    let (_, ok) = rows_of(measure_block_locations, grid.rows);
    if !ok {
        return Err(EvalError::InvalidRows);
    }
    let size = state_len(measure_block_locations.len());
    if desired_state.weights.len() != size {
        return Err(EvalError::TargetLength);
    }
    match get_partial_state_of_column(grid, measure_block_locations) {
        Err(e) => Err(e),
        Ok(m) => {
            proof {
                crate::amplitude::lemma_two_pow_le(measure_block_locations@.len(), 8);
                reveal_with_fuel(two_pow, 9);
            }
            Ok(marginal_within(&m, desired_state, tolerance))
        },
    }
}

} // verus!
