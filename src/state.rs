//! State vectors and their evolution across the columns of a grid.
use vstd::prelude::*;

use crate::amplitude::{
    Amp, Cyclo, Entry, MAX_SQRT2, apply_entry, entry_one, entry_mul, omega_pow, sqrt2_pow, cyclo_add, cyclo_one, cyclo_zero, entry_times,
    fits_i64, term_bound, two_pow, within,
};
use crate::grid::{Grid, MAX_COLUMNS};
use crate::conservation::columns_used;
use crate::gate::Cell;
use crate::operator::{
    Mat, Operator, assemble, column_model, get_operator_of_column, entries_within, factor_at,
    identity2, is_square, kron, scalar_one,
};

verus! {

/// A state vector amps / √2^scale over the 2^rows basis states; basis index
/// bit (rows − 1 − r) is the value of row r.
pub struct State {
    pub scale: u64,
    pub amps: Vec<Amp>,
}

pub open spec fn amps_view(v: Seq<Amp>) -> Seq<Cyclo> {
    Seq::new(v.len(), |i: int| v[i]@)
}

impl View for State {
    type V = (nat, Seq<Cyclo>);

    open spec fn view(&self) -> (nat, Seq<Cyclo>) {
        (self.scale as nat, amps_view(self.amps@))
    }
}

/// The first j terms of row · v.
pub open spec fn row_sum(row: Seq<Entry>, v: Seq<Cyclo>, j: nat) -> Cyclo
    decreases j,
{
    if j == 0 {
        cyclo_zero()
    } else {
        cyclo_add(row_sum(row, v, (j - 1) as nat), entry_times(row[j - 1], v[j - 1]))
    }
}

/// The product of an operator with a state; the scales add.
pub open spec fn apply_op(op: (nat, Mat), st: (nat, Seq<Cyclo>)) -> (nat, Seq<Cyclo>) {
    (op.0 + st.0, Seq::new(op.1.len(), |i: int| row_sum(op.1[i], st.1, st.1.len())))
}

/// The basis state with every qubit |0⟩.
pub open spec fn basis_zero(n: nat) -> Seq<Cyclo> {
    Seq::new(n, |i: int| if i == 0 { cyclo_one() } else { cyclo_zero() })
}

/// The state after the first t columns (0 to t − 1) of the grid.
pub open spec fn evolve(g: Grid, t: nat) -> (nat, Seq<Cyclo>)
    decreases t,
{
    if t == 0 {
        (0, basis_zero(two_pow(g.rows as nat)))
    } else {
        apply_op(column_model(g.column_cells(t - 1)), evolve(g, (t - 1) as nat))
    }
}

/// The state at column c: columns 0 to c applied in order.
pub open spec fn state_model(g: Grid, c: nat) -> (nat, Seq<Cyclo>) {
    evolve(g, c + 1)
}

pub open spec fn all_fit(v: Seq<Cyclo>) -> bool {
    forall|i: int| 0 <= i < v.len() ==> fits_i64(#[trigger] v[i])
}

/// Every state from column 0 to column t − 1 has 64-bit coordinates.
pub open spec fn fits_through(g: Grid, t: nat) -> bool {
    forall|s: nat| 1 <= s <= t ==> all_fit(#[trigger] evolve(g, s).1)
}

/// The product of a column operator with a state, or `None` when a
/// coordinate of the result leaves the 64-bit range.
pub fn apply_operator(op: &Operator, st: &State, n: usize) -> (r: Option<State>)
    requires
        is_square(op@.1, n as nat),
        st.amps@.len() == n,
        n <= 256,
        entries_within(op@.1, MAX_SQRT2 as nat),
        op.scale + st.scale <= u64::MAX,
    ensures
        match r {
            Some(s) => all_fit(apply_op(op@, st@).1) && s@ == apply_op(op@, st@) && s.amps@.len() == n,
            None => !all_fit(apply_op(op@, st@).1),
        },
{
    let ghost goal = apply_op(op@, st@);
    let mut out: Vec<Amp> = Vec::new();
    let mut i: usize = 0;
    while i < n
        invariant
            goal == apply_op(op@, st@),
            is_square(op@.1, n as nat),
            st.amps@.len() == n,
            n <= 256,
            entries_within(op@.1, MAX_SQRT2 as nat),
            i <= n,
            out@.len() == i,
            forall|k: int| 0 <= k < i ==> #[trigger] out@[k]@ == goal.1[k],
        decreases n - i,
    {
        let mut a: i128 = 0;
        let mut b: i128 = 0;
        let mut c: i128 = 0;
        let mut d: i128 = 0;
        let mut j: usize = 0;
        while j < n
            invariant
                goal == apply_op(op@, st@),
                is_square(op@.1, n as nat),
                st.amps@.len() == n,
                n <= 256,
                entries_within(op@.1, MAX_SQRT2 as nat),
                i < n,
                j <= n,
                (a as int, b as int, c as int, d as int) == row_sum(op@.1[i as int], st@.1, j as nat),
                within((a as int, b as int, c as int, d as int), j * term_bound()),
            decreases n - j,
        {
            assert(op@.1[i as int].len() == n);
            let e = op.entries[i][j];
            assert(e == op@.1[i as int][j as int]);
            let t = apply_entry(e, st.amps[j]);
            a = a + t.0;
            b = b + t.1;
            c = c + t.2;
            d = d + t.3;
            j = j + 1;
        }
        assert(goal.1[i as int] == row_sum(op@.1[i as int], st@.1, n as nat));
        if a < i64::MIN as i128 || a > i64::MAX as i128 || b < i64::MIN as i128 || b > i64::MAX as i128
            || c < i64::MIN as i128 || c > i64::MAX as i128 || d < i64::MIN as i128 || d > i64::MAX as i128 {
            return None;
        }
        out.push(Amp { a: a as i64, b: b as i64, c: c as i64, d: d as i64 });
        i = i + 1;
    }
    let r = State { scale: op.scale + st.scale, amps: out };
    assert(r@.1 =~= goal.1);
    Some(r)
}

/// The n×n identity matrix.
pub open spec fn identity(n: nat) -> Mat {
    Seq::new(n, |i: int| Seq::new(n, |j: int| if i == j { entry_one() } else { Entry::Zero }))
}

proof fn lemma_kron_identity(a: nat)
    requires
        a >= 1,
    ensures
        kron((0, identity(a)), identity2()) == (0nat, identity(2 * a)),
{
    let k = kron((0, identity(a)), identity2());
    let id2 = identity2().1;
    assert(id2.len() == 2 && id2[0].len() == 2 && id2[1].len() == 2);
    assert(a * 2 == 2 * a) by (nonlinear_arith);
    assert(k.1.len() == 2 * a);
    assert forall|i: int| 0 <= i < 2 * a implies #[trigger] k.1[i] =~= identity(2 * a)[i] by {
        assert forall|j: int| 0 <= j < 2 * a implies #[trigger] k.1[i][j] == identity(2 * a)[i][j] by {
            vstd::arithmetic::div_mod::lemma_fundamental_div_mod(i, 2);
            vstd::arithmetic::div_mod::lemma_fundamental_div_mod(j, 2);
            assert(0 <= i / 2 < a && 0 <= j / 2 < a && 0 <= i % 2 < 2 && 0 <= j % 2 < 2);
            assert((i == j) == (i / 2 == j / 2 && i % 2 == j % 2));
        }
    }
    assert(k.1 =~= identity(2 * a));
}

proof fn lemma_empty_assemble(col: Seq<Option<Cell>>, r: nat)
    requires
        r <= col.len(),
        forall|k: int| 0 <= k < col.len() ==> #[trigger] col[k] is None,
    ensures
        assemble(col, r, (0, identity(two_pow(r)))) == (0nat, identity(two_pow(col.len()))),
    decreases col.len() - r,
{
    if r < col.len() {
        assert(factor_at(col, r as int) == (identity2(), 1nat));
        crate::amplitude::lemma_two_pow_pos(r);
        lemma_kron_identity(two_pow(r));
        assert(two_pow(r + 1) == 2 * two_pow(r));
        lemma_empty_assemble(col, r + 1);
    }
}

proof fn lemma_row_sum_identity(n: nat, v: Seq<Cyclo>, i: int, j: nat)
    requires
        0 <= i < n,
        j <= n,
        v.len() == n,
    ensures
        row_sum(identity(n)[i], v, j) == if j > i { v[i] } else { cyclo_zero() },
    decreases j,
{
    if j > 0 {
        lemma_row_sum_identity(n, v, i, (j - 1) as nat);
        let z = v[j - 1];
        assert(omega_pow(z, 0) == z);
        assert(sqrt2_pow(z, 0) == z);
    }
}

proof fn lemma_apply_identity(st: (nat, Seq<Cyclo>))
    ensures
        apply_op((0, identity(st.1.len())), st) == st,
{
    let n = st.1.len();
    let r = apply_op((0, identity(n)), st);
    assert forall|i: int| 0 <= i < n implies #[trigger] r.1[i] == st.1[i] by {
        lemma_row_sum_identity(n, st.1, i, n);
    }
    assert(r.1 =~= st.1);
}

/// A column whose cells are all empty leaves the state as it is.
proof fn lemma_empty_step(g: Grid, t: nat)
    requires
        g.wf(),
        forall|r: int| 0 <= r < g.rows ==> #[trigger] g.cell(t as int, r) is None,
        evolve(g, t).1.len() == two_pow(g.rows as nat),
    ensures
        evolve(g, t + 1) == evolve(g, t),
{
    let col = g.column_cells(t as int);
    assert(col.len() == g.rows);
    assert forall|k: int| 0 <= k < col.len() implies #[trigger] col[k] is None by {
        assert(g.cell(t as int, k) == col[k]);
    }
    lemma_empty_assemble(col, 0);
    assert(scalar_one() == (0nat, identity(1))) by {
        assert(scalar_one().1 =~~= identity(1));
    }
    reveal_with_fuel(two_pow, 1);
    lemma_apply_identity(evolve(g, t));
}

/// Past the stored columns the state no longer changes.
pub(crate) proof fn lemma_stable_beyond(g: Grid, from: nat, to: nat)
    requires
        g.wf(),
        g.columns@.len() <= from <= to,
        evolve(g, from).1.len() == two_pow(g.rows as nat),
    ensures
        evolve(g, to) == evolve(g, from),
    decreases to - from,
{
    if from < to {
        lemma_stable_beyond(g, from, (to - 1) as nat);
        lemma_empty_step(g, (to - 1) as nat);
    }
}

/// 2^rows, the length of a state vector.
pub(crate) fn state_len(rows: usize) -> (r: usize)
    requires
        rows <= 8,
    ensures
        r == two_pow(rows as nat),
        1 <= r <= 256,
{
    let mut r: usize = 1;
    let mut k: usize = 0;
    proof {
        reveal_with_fuel(two_pow, 1);
    }
    while k < rows
        invariant
            k <= rows <= 8,
            r == two_pow(k as nat),
        decreases rows - k,
    {
        proof {
            reveal_with_fuel(two_pow, 2);
            crate::amplitude::lemma_two_pow_le((k + 1) as nat, 8);
            reveal_with_fuel(two_pow, 9);
        }
        r = r * 2;
        k = k + 1;
    }
    proof {
        crate::amplitude::lemma_two_pow_pos(rows as nat);
        crate::amplitude::lemma_two_pow_le(rows as nat, 8);
        reveal_with_fuel(two_pow, 9);
    }
    r
}

/// The basis state with every qubit |0⟩, unscaled.
pub(crate) fn initial_state(n: usize) -> (r: State)
    requires
        n >= 1,
    ensures
        r@ == (0nat, basis_zero(n as nat)),
        r.amps@.len() == n,
{
    let mut amps: Vec<Amp> = Vec::new();
    let mut i: usize = 0;
    while i < n
        invariant
            i <= n,
            amps@.len() == i,
            forall|k: int| 0 <= k < i ==> #[trigger] amps@[k]@ == basis_zero(n as nat)[k],
        decreases n - i,
    {
        if i == 0 {
            amps.push(Amp { a: 1, b: 0, c: 0, d: 0 });
        } else {
            amps.push(Amp { a: 0, b: 0, c: 0, d: 0 });
        }
        i = i + 1;
    }
    let r = State { scale: 0, amps };
    assert(r@.1 =~= basis_zero(n as nat));
    r
}

/// The state vector at `column`: starting from every qubit |0⟩, the
/// operators of columns 0 to `column` are applied in order. `None` exactly
/// when a state along the way has a coordinate outside the 64-bit range,
/// which cannot happen while the scale stays at most 124: in particular not
/// while rows × (columns used) ≤ 124, e.g. on an 8-row grid up to column 14.
pub fn get_state_of_column(grid: &Grid, column: usize) -> (r: Option<State>)
    requires
        grid.wf(),
    ensures
        r is Some <==> fits_through(*grid, column as nat + 1),
        r matches Some(s) ==> s@ == state_model(*grid, column as nat) && s.amps@.len() == two_pow(
            grid.rows as nat,
        ),
        state_model(*grid, column as nat).0 <= 124 ==> r is Some,
        grid.rows * columns_used(*grid, column as nat) <= 124 ==> r is Some,
{
    proof {
        crate::conservation::lemma_scale_bound(*grid, column as nat);
        if state_model(*grid, column as nat).0 <= 124 {
            crate::conservation::lemma_fits_when_scale_small(*grid, column as nat + 1);
        }
    }
    let n = state_len(grid.rows);
    let len = grid.columns.len();
    let stop: usize = if column < len {
        column + 1
    } else {
        len
    };
    let mut st = initial_state(n);
    let mut t: usize = 0;
    while t < stop
        invariant
            grid.wf(),
            n == two_pow(grid.rows as nat),
            1 <= n <= 256,
            stop <= len == grid.columns@.len() <= MAX_COLUMNS,
            stop <= column + 1,
            t <= stop,
            st@ == evolve(*grid, t as nat),
            st.amps@.len() == n,
            st.scale <= 8 * t,
            fits_through(*grid, t as nat),
            state_model(*grid, column as nat).0 <= grid.rows * columns_used(*grid, column as nat),
            state_model(*grid, column as nat).0 <= 124 ==> fits_through(*grid, column as nat + 1),
        decreases stop - t,
    {
        let op = get_operator_of_column(grid, t);
        proof {
            crate::amplitude::lemma_two_pow_le(grid.rows as nat, 8);
            reveal_with_fuel(two_pow, 9);
        }
        match apply_operator(&op, &st, n) {
            Some(next) => {
                assert forall|s: nat| 1 <= s <= t + 1 implies all_fit(#[trigger] evolve(*grid, s).1) by {
                    if s <= t {
                        assert(all_fit(evolve(*grid, s).1));
                    }
                }
                st = next;
            },
            None => {
                assert(!all_fit(evolve(*grid, (t + 1) as nat).1));
                return None;
            },
        }
        t = t + 1;
    }
    proof {
        if stop == len {
            lemma_stable_beyond(*grid, len as nat, column as nat + 1);
            assert forall|s: nat| 1 <= s <= column + 1 implies all_fit(#[trigger] evolve(*grid, s).1) by {
                if s > len {
                    lemma_stable_beyond(*grid, len as nat, s);
                    if len > 0 {
                        assert(all_fit(evolve(*grid, len as nat).1));
                    }
                }
            }
        }
    }
    Some(st)
}

/// On a grid with no gate anywhere, the state at every column is the
/// all-|0⟩ basis state (amplitude 1 at index 0, 0 elsewhere), unscaled, and
/// its evaluation never leaves the 64-bit range.
pub proof fn law_empty_grid_keeps_vacuum(g: Grid, c: nat)
    requires
        g.wf(),
        forall|col: int, r: int| 0 <= r < g.rows ==> #[trigger] g.cell(col, r) is None,
    ensures
        state_model(g, c) == (0nat, basis_zero(two_pow(g.rows as nat))),
        fits_through(g, c + 1),
{
    lemma_empty_evolve(g, c + 1);
    assert forall|s: nat| 1 <= s <= c + 1 implies all_fit(#[trigger] evolve(g, s).1) by {
        lemma_empty_evolve(g, s);
    }
}

proof fn lemma_empty_evolve(g: Grid, t: nat)
    requires
        g.wf(),
        forall|col: int, r: int| 0 <= r < g.rows ==> #[trigger] g.cell(col, r) is None,
    ensures
        evolve(g, t) == (0nat, basis_zero(two_pow(g.rows as nat))),
    decreases t,
{
    if t > 0 {
        lemma_empty_evolve(g, (t - 1) as nat);
        assert forall|r: int| 0 <= r < g.rows implies #[trigger] g.cell((t - 1) as int, r) is None by {
        }
        lemma_empty_step(g, (t - 1) as nat);
    }
}

proof fn lemma_same_cells_evolve(g1: Grid, g2: Grid, t: nat)
    requires
        g1.wf(),
        g2.wf(),
        g1.rows == g2.rows,
        forall|col: int, r: int| 0 <= r < g1.rows ==> #[trigger] g1.cell(col, r) == g2.cell(col, r),
    ensures
        evolve(g1, t) == evolve(g2, t),
    decreases t,
{
    if t > 0 {
        lemma_same_cells_evolve(g1, g2, (t - 1) as nat);
        let c = (t - 1) as int;
        assert forall|r: int| 0 <= r < g1.rows implies g1.column_cells(c)[r] == g2.column_cells(c)[r] by {
            assert(g1.cell(c, r) == g2.cell(c, r));
        }
        assert(g1.column_cells(c) =~= g2.column_cells(c));
    }
}

/// The state at a column depends on the cells of the grid alone: two grids
/// with the same cells (the same grid read twice, in particular) give the
/// same state, and the same answer on whether it fits.
pub proof fn law_state_depends_on_cells_only(g1: Grid, g2: Grid, c: nat)
    requires
        g1.wf(),
        g2.wf(),
        g1.rows == g2.rows,
        forall|col: int, r: int| 0 <= r < g1.rows ==> #[trigger] g1.cell(col, r) == g2.cell(col, r),
    ensures
        state_model(g1, c) == state_model(g2, c),
        fits_through(g1, c + 1) == fits_through(g2, c + 1),
{
    lemma_same_cells_evolve(g1, g2, c + 1);
    if fits_through(g1, c + 1) {
        assert forall|s: nat| 1 <= s <= c + 1 implies all_fit(#[trigger] evolve(g2, s).1) by {
            lemma_same_cells_evolve(g1, g2, s);
            assert(all_fit(evolve(g1, s).1));
        }
    }
    if fits_through(g2, c + 1) {
        assert forall|s: nat| 1 <= s <= c + 1 implies all_fit(#[trigger] evolve(g1, s).1) by {
            lemma_same_cells_evolve(g1, g2, s);
            assert(all_fit(evolve(g2, s).1));
        }
    }
}

} // verus!
