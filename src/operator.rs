//! Column operators: matrices of monomial entries over a power of √2, the
//! Kronecker product, controlled factors, and the assembly of one column.
use vstd::prelude::*;

use crate::amplitude::{Entry, MAX_SQRT2, entry_mul, entry_one, mul_entries, two_pow};
use crate::gate::{Cell, Gate, gate_matrix, make_mat2, mat2};
use crate::grid::Grid;

verus! {

/// A square matrix of entries, row by row.
pub type Mat = Seq<Seq<Entry>>;

/// A matrix M / √2^scale, held as (scale, M).
pub struct Operator {
    pub scale: u64,
    pub entries: Vec<Vec<Entry>>,
}

pub open spec fn rows_view(v: Seq<Vec<Entry>>) -> Mat {
    Seq::new(v.len(), |i: int| v[i]@)
}

impl View for Operator {
    type V = (nat, Mat);

    open spec fn view(&self) -> (nat, Mat) {
        (self.scale as nat, rows_view(self.entries@))
    }
}

/// `m` is an n×n matrix.
pub open spec fn is_square(m: Mat, n: nat) -> bool {
    m.len() == n && forall|i: int| 0 <= i < n ==> #[trigger] m[i].len() == n
}

/// Every entry of `m` is well formed and carries at most √2^b.
pub open spec fn entries_within(m: Mat, b: nat) -> bool {
    forall|i: int, j: int|
        0 <= i < m.len() && 0 <= j < m[i].len() ==> (#[trigger] m[i][j]).wf() && m[i][j].sqrt2_of()
            <= b
}

/// The Kronecker product A ⊗ B: the entry at (i, j) is
/// A[i / nB][j / nB] · B[i % nB][j % nB]; the scales add.
pub open spec fn kron(a: (nat, Mat), b: (nat, Mat)) -> (nat, Mat) {
    let na = a.1.len();
    let nb = b.1.len();
    (
        a.0 + b.0,
        Seq::new(
            na * nb,
            |i: int|
                Seq::new(na * nb, |j: int| entry_mul(a.1[i / (nb as int)][j / (nb as int)], b.1[i % (nb as int)][j % (nb as int)])),
        ),
    )
}

pub open spec fn identity2() -> (nat, Mat) {
    (0, mat2(entry_one(), Entry::Zero, Entry::Zero, entry_one()))
}

pub(crate) proof fn lemma_index_split(i: int, na: int, nb: int)
    requires
        0 <= i < na * nb,
        nb > 0,
    ensures
        0 <= i / nb < na,
        0 <= i % nb < nb,
{
    let q = i / nb;
    let r = i % nb;
    assert(i == nb * q + r && 0 <= r < nb) by {
        vstd::arithmetic::div_mod::lemma_fundamental_div_mod(i, nb);
        vstd::arithmetic::div_mod::lemma_mod_bound(i, nb);
    }
    assert(0 <= q < na) by (nonlinear_arith)
        requires
            i == nb * q + r,
            0 <= r < nb,
            0 <= i < na * nb,
            nb > 0,
    ;
}

/// The Kronecker product of two square operators.
pub(crate) fn kron_op(a: &Operator, b: &Operator, na: usize, nb: usize, ba: Ghost<nat>, bb: Ghost<nat>) -> (r: Operator)
    requires
        is_square(a@.1, na as nat),
        is_square(b@.1, nb as nat),
        na >= 1,
        nb >= 1,
        na * nb <= 256,
        entries_within(a@.1, ba@),
        entries_within(b@.1, bb@),
        ba@ + bb@ <= MAX_SQRT2,
        a.scale + b.scale <= u64::MAX,
    ensures
        r@ == kron(a@, b@),
        is_square(r@.1, (na * nb) as nat),
        entries_within(r@.1, ba@ + bb@),
{
    let n: usize = na * nb;
    let mut rows: Vec<Vec<Entry>> = Vec::new();
    let ghost goal = kron(a@, b@);
    let mut i: usize = 0;
    while i < n
        invariant
            n == na * nb,
            i <= n,
            goal == kron(a@, b@),
            is_square(a@.1, na as nat),
            is_square(b@.1, nb as nat),
            na >= 1,
            nb >= 1,
            n <= 256,
            entries_within(a@.1, ba@),
            entries_within(b@.1, bb@),
            ba@ + bb@ <= MAX_SQRT2,
            rows@.len() == i,
            forall|k: int| 0 <= k < i ==> #[trigger] rows@[k]@ == goal.1[k],
            forall|k: int, j: int|
                0 <= k < i && 0 <= j < n ==> (#[trigger] rows@[k]@[j]).wf() && rows@[k]@[j].sqrt2_of()
                    <= ba@ + bb@,
        decreases n - i,
    {
        proof {
            lemma_index_split(i as int, na as int, nb as int);
        }
        let ia = i / nb;
        let ib = i % nb;
        let mut row: Vec<Entry> = Vec::new();
        let mut j: usize = 0;
        while j < n
            invariant
                n == na * nb,
                i < n,
                j <= n,
                ia == i / nb,
                ib == i % nb,
                ia < na,
                ib < nb,
                goal == kron(a@, b@),
                is_square(a@.1, na as nat),
                is_square(b@.1, nb as nat),
                na >= 1,
                nb >= 1,
                entries_within(a@.1, ba@),
                entries_within(b@.1, bb@),
                ba@ + bb@ <= MAX_SQRT2,
                row@.len() == j,
                forall|k: int| 0 <= k < j ==> #[trigger] row@[k] == goal.1[i as int][k],
                forall|k: int|
                    0 <= k < j ==> (#[trigger] row@[k]).wf() && row@[k].sqrt2_of() <= ba@ + bb@,
            decreases n - j,
        {
            proof {
                lemma_index_split(j as int, na as int, nb as int);
            }
            let x = a.entries[ia][j / nb];
            let y = b.entries[ib][j % nb];
            assert(x == a@.1[ia as int][(j / nb) as int]);
            assert(y == b@.1[ib as int][(j % nb) as int]);
            assert(a@.1[ia as int].len() == na);
            assert(b@.1[ib as int].len() == nb);
            assert(x.wf() && x.sqrt2_of() <= ba@);
            assert(y.wf() && y.sqrt2_of() <= bb@);
            let e = mul_entries(x, y);
            row.push(e);
            j = j + 1;
        }
        assert(row@ =~= goal.1[i as int]);
        rows.push(row);
        i = i + 1;
    }
    let r = Operator { scale: a.scale + b.scale, entries: rows };
    assert(r@.1 =~= goal.1);
    r
}

/// The entry at (i, j) of the 4×4 factor in which a control marker
/// conditions gate `g` on the adjacent row. The control is the high bit of
/// the pair's index when `control_high`, else the low bit. Matrix g acts
/// where the control qubit is |1⟩ (|0⟩ when `anti`); elsewhere the factor
/// is the identity, written √2^s · 1 so that the whole factor shares g's scale.
pub open spec fn controlled_entry(g: (nat, Mat), anti: bool, control_high: bool, i: int, j: int) -> Entry {
    let ci = if control_high { i / 2 } else { i % 2 };
    let ti = if control_high { i % 2 } else { i / 2 };
    let cj = if control_high { j / 2 } else { j % 2 };
    let tj = if control_high { j % 2 } else { j / 2 };
    if ci != cj {
        Entry::Zero
    } else if (ci == 1) != anti {
        g.1[ti][tj]
    } else if ti == tj {
        Entry::Unit { phase: 0, sqrt2: g.0 as u8 }
    } else {
        Entry::Zero
    }
}

pub open spec fn controlled(g: (nat, Mat), anti: bool, control_high: bool) -> (nat, Mat) {
    (g.0, Seq::new(4, |i: int| Seq::new(4, |j: int| controlled_entry(g, anti, control_high, i, j))))
}

pub(crate) proof fn lemma_gate_matrix_shape(g: Gate)
    requires
        gate_matrix(g) is Some,
    ensures
        is_square((gate_matrix(g)->0).1, 2),
        entries_within((gate_matrix(g)->0).1, 0),
        (gate_matrix(g)->0).0 <= 1,
{
    let m = (gate_matrix(g)->0).1;
    assert(m.len() == 2 && m[0].len() == 2 && m[1].len() == 2);
    assert forall|i: int, j: int| 0 <= i < m.len() && 0 <= j < m[i].len() implies (#[trigger] m[i][j]).wf()
        && m[i][j].sqrt2_of() <= 0 by {
        assert(i == 0 || i == 1);
        assert(j == 0 || j == 1);
    }
}

/// The controlled 4×4 factor for a 2×2 gate matrix.
pub(crate) fn controlled_op(g: &Operator, anti: bool, control_high: bool) -> (r: Operator)
    requires
        is_square(g@.1, 2),
        entries_within(g@.1, 0),
        g.scale <= 1,
    ensures
        r@ == controlled(g@, anti, control_high),
        is_square(r@.1, 4),
        entries_within(r@.1, 1),
        r.scale == g.scale,
{
    let ghost goal = controlled(g@, anti, control_high);
    let mut rows: Vec<Vec<Entry>> = Vec::new();
    let mut i: usize = 0;
    while i < 4
        invariant
            i <= 4,
            goal == controlled(g@, anti, control_high),
            is_square(g@.1, 2),
            entries_within(g@.1, 0),
            g.scale <= 1,
            rows@.len() == i,
            forall|k: int| 0 <= k < i ==> #[trigger] rows@[k]@ == goal.1[k],
            forall|k: int, j: int|
                0 <= k < i && 0 <= j < 4 ==> (#[trigger] rows@[k]@[j]).wf() && rows@[k]@[j].sqrt2_of() <= 1,
        decreases 4 - i,
    {
        let mut row: Vec<Entry> = Vec::new();
        let mut j: usize = 0;
        while j < 4
            invariant
                i < 4,
                j <= 4,
                goal == controlled(g@, anti, control_high),
                is_square(g@.1, 2),
                entries_within(g@.1, 0),
                g.scale <= 1,
                row@.len() == j,
                forall|k: int| 0 <= k < j ==> #[trigger] row@[k] == goal.1[i as int][k],
                forall|k: int| 0 <= k < j ==> (#[trigger] row@[k]).wf() && row@[k].sqrt2_of() <= 1,
            decreases 4 - j,
        {
            let ci = if control_high { i / 2 } else { i % 2 };
            let ti = if control_high { i % 2 } else { i / 2 };
            let cj = if control_high { j / 2 } else { j % 2 };
            let tj = if control_high { j % 2 } else { j / 2 };
            let e = if ci != cj {
                Entry::Zero
            } else if (ci == 1) != anti {
                assert(g@.1[ti as int].len() == 2);
                assert(g@.1[ti as int][tj as int].wf());
                g.entries[ti][tj]
            } else if ti == tj {
                Entry::Unit { phase: 0, sqrt2: g.scale as u8 }
            } else {
                Entry::Zero
            };
            row.push(e);
            j = j + 1;
        }
        assert(row@ =~= goal.1[i as int]);
        rows.push(row);
        i = i + 1;
    }
    let r = Operator { scale: g.scale, entries: rows };
    assert(r@.1 =~= goal.1);
    r
}

pub(crate) fn identity_op() -> (r: Operator)
    ensures
        r@ == identity2(),
        is_square(r@.1, 2),
        entries_within(r@.1, 0),
{
    let one = Entry::Unit { phase: 0, sqrt2: 0 };
    let r = Operator { scale: 0, entries: make_mat2(one, Entry::Zero, Entry::Zero, one) };
    let ghost m = r@.1;
    assert forall|i: int, j: int| 0 <= i < m.len() && 0 <= j < m[i].len() implies (#[trigger] m[i][j]).wf()
        && m[i][j].sqrt2_of() <= 0 by {
        assert(i == 0 || i == 1);
        assert(j == 0 || j == 1);
    }
    r
}

/// The matrix of a cell's symbol, if it has one.
pub open spec fn gate_of(c: Option<Cell>) -> Option<(nat, Mat)> {
    match c {
        Some(cell) => gate_matrix(cell.gate),
        None => None,
    }
}

/// The cell holds a control marker wired up (`up`) or down (`!up`).
pub open spec fn is_control_linking(c: Option<Cell>, up: bool) -> bool {
    match c {
        Some(cell) => cell.gate.is_control() && cell.links_up == up,
        None => false,
    }
}

pub open spec fn is_anti(c: Option<Cell>) -> bool {
    match c {
        Some(cell) => cell.gate == Gate::AC,
        None => false,
    }
}

/// The factor that starts at row r of a column, and how many rows it takes.
/// - A gate with a control just below it that is wired up: a controlled
///   4×4 factor over rows r (high bit) and r + 1 (the control).
/// - Any other gate: its own 2×2 matrix.
/// - A control wired down with a gate just below it: a controlled 4×4
///   factor over rows r (the control, high bit) and r + 1.
/// - Anything else (empty, measurement, unpaired control): the identity.
/// A gate with a control above it wired down is taken with that control, one
/// row earlier, so the control above is searched first.
pub open spec fn factor_at(col: Seq<Option<Cell>>, r: int) -> ((nat, Mat), nat) {
    if gate_of(col[r]) is Some {
        if r < col.len() - 1 && is_control_linking(col[r + 1], true) {
            (controlled(gate_of(col[r])->0, is_anti(col[r + 1]), false), 2)
        } else {
            (gate_of(col[r])->0, 1)
        }
    } else if is_control_linking(col[r], false) && r < col.len() - 1 && gate_of(col[r + 1]) is Some {
        (controlled(gate_of(col[r + 1])->0, is_anti(col[r]), true), 2)
    } else {
        (identity2(), 1)
    }
}

/// Folds the factors from row r on into `acc` by Kronecker products, in row
/// order.
pub open spec fn assemble(col: Seq<Option<Cell>>, r: nat, acc: (nat, Mat)) -> (nat, Mat)
    decreases col.len() - r,
{
    if r >= col.len() {
        acc
    } else {
        let w = factor_at(col, r as int).1;
        if w == 0 {
            acc
        } else {
            assemble(col, r + w, kron(acc, factor_at(col, r as int).0))
        }
    }
}

pub open spec fn scalar_one() -> (nat, Mat) {
    (0, seq![seq![entry_one()]])
}

/// The operator of a column: the Kronecker product of its factors, row 0 as
/// the most significant bit.
pub open spec fn column_model(col: Seq<Option<Cell>>) -> (nat, Mat) {
    assemble(col, 0, scalar_one())
}

fn gate_in(c: Option<Cell>) -> (r: Option<Operator>)
    ensures
        match r {
            Some(o) => gate_of(c) == Some(o@),
            None => gate_of(c) is None,
        },
{
    match c {
        Some(cell) => cell.gate.operator(),
        None => None,
    }
}

fn control_linking(c: Option<Cell>, up: bool) -> (r: bool)
    ensures
        r == is_control_linking(c, up),
{
    match c {
        Some(cell) => (cell.gate == Gate::C || cell.gate == Gate::AC) && cell.links_up == up,
        None => false,
    }
}

fn anti_in(c: Option<Cell>) -> (r: bool)
    ensures
        r == is_anti(c),
{
    match c {
        Some(cell) => cell.gate == Gate::AC,
        None => false,
    }
}

/// The factor at row r of a column.
pub(crate) fn factor_op(col: &Vec<Option<Cell>>, r: usize) -> (res: (Operator, usize))
    requires
        r < col@.len(),
    ensures
        (res.0@, res.1 as nat) == factor_at(col@, r as int),
        res.1 == 1 || res.1 == 2,
        r + res.1 <= col@.len(),
        is_square(res.0@.1, two_pow(res.1 as nat)),
        entries_within(res.0@.1, res.1 as nat),
        res.0.scale <= 1,
{
    proof {
        reveal_with_fuel(two_pow, 3);
    }
    let here = col[r];
    match gate_in(here) {
        Some(g) => {
            proof {
                lemma_gate_matrix_shape((here->0).gate);
            }
            if r < col.len() - 1 && control_linking(col[r + 1], true) {
                (controlled_op(&g, anti_in(col[r + 1]), false), 2)
            } else {
                (g, 1)
            }
        },
        None => {
            if control_linking(here, false) && r < col.len() - 1 {
                match gate_in(col[r + 1]) {
                    Some(g) => {
                        proof {
                            lemma_gate_matrix_shape((col@[r + 1]->0).gate);
                        }
                        (controlled_op(&g, anti_in(here), true), 2)
                    },
                    None => (identity_op(), 1),
                }
            } else {
                (identity_op(), 1)
            }
        },
    }
}

/// The cells of a column as a vector; an empty column past the stored ones.
pub(crate) fn column_vec(grid: &Grid, column: usize) -> (r: Vec<Option<Cell>>)
    requires
        grid.wf(),
    ensures
        r@ == grid.column_cells(column as int),
        r@.len() == grid.rows,
{
    let mut r: Vec<Option<Cell>> = Vec::new();
    let mut k: usize = 0;
    while k < grid.rows
        invariant
            grid.wf(),
            k <= grid.rows,
            r@.len() == k,
            forall|i: int| 0 <= i < k ==> #[trigger] r@[i] == grid.column_cells(column as int)[i],
        decreases grid.rows - k,
    {
        if column < grid.columns.len() {
            r.push(grid.columns[column][k]);
        } else {
            r.push(None);
        }
        k = k + 1;
    }
    assert(r@ =~= grid.column_cells(column as int));
    r
}

/// The operator of one column of the grid: the Kronecker product, in row
/// order, of the factors that the column's cells give.
pub fn get_operator_of_column(grid: &Grid, column: usize) -> (r: Operator)
    requires
        grid.wf(),
    ensures
        r@ == column_model(grid.column_cells(column as int)),
        is_square(r@.1, two_pow(grid.rows as nat)),
        entries_within(r@.1, grid.rows as nat),
        r.scale <= grid.rows,
{
    let col = column_vec(grid, column);
    let n = grid.rows;
    let mut first: Vec<Entry> = Vec::new();
    first.push(Entry::Unit { phase: 0, sqrt2: 0 });
    let mut unit_rows: Vec<Vec<Entry>> = Vec::new();
    unit_rows.push(first);
    let mut acc = Operator { scale: 0, entries: unit_rows };
    assert(acc@ =~~= scalar_one());
    let mut r: usize = 0;
    let mut dim: usize = 1;
    proof {
        reveal_with_fuel(two_pow, 1);
    }
    while r < n
        invariant
            n == grid.rows,
            1 <= n <= 8,
            col@.len() == n,
            r <= n,
            dim == two_pow(r as nat),
            is_square(acc@.1, dim as nat),
            entries_within(acc@.1, r as nat),
            acc.scale <= r,
            assemble(col@, r as nat, acc@) == column_model(col@),
        decreases n - r,
    {
        let (f, w) = factor_op(&col, r);
        let fd: usize = if w == 1 {
            2
        } else {
            4
        };
        proof {
            reveal_with_fuel(two_pow, 3);
            assert(two_pow((r + w) as nat) == dim * fd);
            crate::amplitude::lemma_two_pow_le((r + w) as nat, 8);
            reveal_with_fuel(two_pow, 9);
        }
        acc = kron_op(&acc, &f, dim, fd, Ghost(r as nat), Ghost(w as nat));
        dim = dim * fd;
        r = r + w;
    }
    acc
}

} // verus!
