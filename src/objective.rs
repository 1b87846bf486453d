//! The objectives a measurement is checked against, and finding the
//! measurement markers on a grid.
use vstd::prelude::*;

use crate::amplitude::two_pow;
use crate::gate::{Cell, Gate};
use crate::grid::Grid;
use crate::measure::{
    Distribution, EvalError, Tolerance, location_rows, measured_model, objective_error,
    standard_tolerance, target_ok, within_target,
    rows_valid, satisfies_objective,
};

verus! {

/// A target outcome for the measured rows.
#[derive(Clone, Copy, PartialEq, Eq, Structural, Debug)]
pub enum Objective {
    /// One row, certainly |0⟩.
    Measure0,
    /// One row, certainly |1⟩.
    Measure1,
    /// Two rows, |00⟩ or |11⟩ with equal chance.
    MeasurePhi,
    /// Two rows, |01⟩ or |10⟩ with equal chance.
    MeasurePsi,
}

pub open spec fn objective_count(o: Objective) -> nat {
    match o {
        Objective::Measure0 | Objective::Measure1 => 1,
        Objective::MeasurePhi | Objective::MeasurePsi => 2,
    }
}

/// The target distribution as (exponent, weights): weight / 2^exponent.
pub open spec fn objective_target(o: Objective) -> (nat, Seq<u64>) {
    match o {
        Objective::Measure0 => (0, seq![1u64, 0u64]),
        Objective::Measure1 => (0, seq![0u64, 1u64]),
        Objective::MeasurePhi => (1, seq![1u64, 0u64, 0u64, 1u64]),
        Objective::MeasurePsi => (1, seq![0u64, 1u64, 1u64, 0u64]),
    }
}

pub open spec fn objective_name(o: Objective) -> Seq<char> {
    match o {
        Objective::Measure0 => "Measure 0"@,
        Objective::Measure1 => "Measure 1"@,
        Objective::MeasurePhi => "Measure Phi"@,
        Objective::MeasurePsi => "Measure Psi"@,
    }
}

impl Objective {
    /// How many rows the objective measures.
    pub fn measure_count(&self) -> (r: usize)
        ensures
            r == objective_count(*self),
    {
        match self {
            Objective::Measure0 | Objective::Measure1 => 1,
            Objective::MeasurePhi | Objective::MeasurePsi => 2,
        }
    }

    /// The distribution the measured rows must show.
    pub fn get_desired_state(&self) -> (r: Distribution)
        ensures
            r@ == objective_target(*self),
    {
        let (exponent, a, b, c, d) = match self {
            Objective::Measure0 => (0u32, 1u64, 0u64, 0u64, 0u64),
            Objective::Measure1 => (0u32, 0u64, 1u64, 0u64, 0u64),
            Objective::MeasurePhi => (1u32, 1u64, 0u64, 0u64, 1u64),
            Objective::MeasurePsi => (1u32, 0u64, 1u64, 1u64, 0u64),
        };
        let mut weights: Vec<u64> = Vec::new();
        weights.push(a);
        weights.push(b);
        if exponent == 1 {
            weights.push(c);
            weights.push(d);
        }
        let r = Distribution { exponent, weights };
        assert(r@.1 =~= objective_target(*self).1);
        r
    }

    /// The objective's display name.
    pub fn get_name(&self) -> (r: &'static str)
        ensures
            r@ == objective_name(*self),
    {
        match self {
            Objective::Measure0 => "Measure 0",
            Objective::Measure1 => "Measure 1",
            Objective::MeasurePhi => "Measure Phi",
            Objective::MeasurePsi => "Measure Psi",
        }
    }
}

pub open spec fn is_measure(c: Option<Cell>) -> bool {
    match c {
        Some(cell) => cell.gate == Gate::M,
        None => false,
    }
}

/// Column c holds a measurement marker.
pub open spec fn has_measure(g: Grid, c: int) -> bool {
    exists|r: int| 0 <= r < g.rows && is_measure(#[trigger] g.cell(c, r))
}

/// The rows below r of column c that hold a measurement marker, in
/// increasing order.
pub open spec fn measure_rows_upto(g: Grid, c: int, r: nat) -> Seq<usize>
    decreases r,
{
    if r == 0 {
        seq![]
    } else {
        let rest = measure_rows_upto(g, c, (r - 1) as nat);
        if is_measure(g.cell(c, r - 1)) {
            rest.push((r - 1) as usize)
        } else {
            rest
        }
    }
}

pub open spec fn measure_rows(g: Grid, c: int) -> Seq<usize> {
    measure_rows_upto(g, c, g.rows as nat)
}

/// The smallest column holding a measurement marker, if any.
pub fn first_measure_column(grid: &Grid) -> (r: Option<usize>)
    requires
        grid.wf(),
    ensures
        match r {
            Some(c) => has_measure(*grid, c as int) && forall|d: int| 0 <= d < c ==> !has_measure(*grid, d),
            None => forall|d: int| 0 <= d ==> !has_measure(*grid, d),
        },
{
    let mut c: usize = 0;
    while c < grid.columns.len()
        invariant
            grid.wf(),
            c <= grid.columns@.len(),
            forall|d: int| 0 <= d < c ==> !has_measure(*grid, d),
        decreases grid.columns@.len() - c,
    {
        let mut r: usize = 0;
        while r < grid.rows
            invariant
                grid.wf(),
                c < grid.columns@.len(),
                forall|d: int| 0 <= d < c ==> !has_measure(*grid, d),
                r <= grid.rows,
                forall|q: int| 0 <= q < r ==> !is_measure(#[trigger] grid.cell(c as int, q)),
            decreases grid.rows - r,
        {
            let cell = grid.columns[c][r];
            assert(cell == grid.cell(c as int, r as int));
            match cell {
                Some(x) => {
                    if x.gate == Gate::M {
                        assert(is_measure(grid.cell(c as int, r as int)));
                        assert(has_measure(*grid, c as int));
                        return Some(c);
                    }
                },
                None => {},
            }
            r = r + 1;
        }
        c = c + 1;
    }
    assert forall|d: int| 0 <= d implies !has_measure(*grid, d) by {
        if d >= grid.columns@.len() {
            assert forall|q: int| 0 <= q < grid.rows implies !is_measure(#[trigger] grid.cell(d, q)) by {
            }
        }
    }
    None
}

/// The rows of `column` that hold a measurement marker, in increasing order.
pub fn measured_rows(grid: &Grid, column: usize) -> (r: Vec<usize>)
    requires
        grid.wf(),
    ensures
        r@ == measure_rows(*grid, column as int),
        rows_valid(r@, grid.rows as nat),
{
    let mut out: Vec<usize> = Vec::new();
    let mut row: usize = 0;
    while row < grid.rows
        invariant
            grid.wf(),
            row <= grid.rows,
            out@ == measure_rows_upto(*grid, column as int, row as nat),
            out@.len() <= row,
            forall|p: int| 0 <= p < out@.len() ==> #[trigger] out@[p] < row,
        decreases grid.rows - row,
    {
        let cell = grid.get(column, row);
        match cell {
            Some(x) => {
                if x.gate == Gate::M {
                    out.push(row);
                }
            },
            None => {},
        }
        row = row + 1;
    }
    out
}

/// The measurement locations (c, r) of column c, rows increasing.
pub open spec fn measure_locations(g: Grid, c: int) -> Seq<(usize, usize)> {
    Seq::new(measure_rows(g, c).len(), |i: int| (c as usize, measure_rows(g, c)[i]))
}

/// Checks the grid's measurement against an objective: `Ok(None)` when no
/// column holds a measurement marker; otherwise the check of the marked rows
/// of the first such column against the objective's target distribution,
/// within the standard tolerance.
pub fn check_measurment(grid: &Grid, objective: Objective) -> (r: Result<Option<bool>, EvalError>)
    requires
        grid.wf(),
    ensures
        (forall|d: int| 0 <= d ==> !has_measure(*grid, d)) ==> r == Ok::<Option<bool>, EvalError>(None),
        forall|c: nat|
            has_measure(*grid, c as int) && (forall|d: int| 0 <= d < c ==> !has_measure(*grid, d)) ==> {
                let locs = measure_locations(*grid, c as int);
                let t = objective_target(objective);
                match r {
                    Ok(Some(b)) => objective_error(*grid, locs, t.1.len()) is None && b == within_target(
                        measured_model(*grid, c, measure_rows(*grid, c as int)),
                        t,
                        standard_tolerance(),
                    ),
                    Ok(None) => false,
                    Err(e) => objective_error(*grid, locs, t.1.len()) == Some(e),
                }
            },
{
    match first_measure_column(grid) {
        None => Ok(None),
        Some(c) => {
            let rows = measured_rows(grid, c);
            let mut locs: Vec<(usize, usize)> = Vec::new();
            let mut k: usize = 0;
            while k < rows.len()
                invariant
                    k <= rows@.len(),
                    locs@.len() == k,
                    forall|q: int| 0 <= q < k ==> #[trigger] locs@[q] == (c, rows@[q]),
                decreases rows@.len() - k,
            {
                locs.push((c, rows[k]));
                k = k + 1;
            }
            assert(locs@ =~= measure_locations(*grid, c as int));
            assert(location_rows(locs@) =~= measure_rows(*grid, c as int));
            proof {
                assert(rows@.len() > 0) by {
                    let q = choose|q: int| 0 <= q < grid.rows && is_measure(#[trigger] grid.cell(c as int, q));
                    lemma_measure_row_listed(*grid, c as int, q, grid.rows as nat);
                }
            }
            let target = objective.get_desired_state();
            let tolerance = Tolerance::standard();
            proof {
                reveal_with_fuel(two_pow, 2);
                assert(target_ok(target@));
            }
            match satisfies_objective(&target, grid, &locs, &tolerance) {
                Ok(b) => Ok(Some(b)),
                Err(e) => Err(e),
            }
        },
    }
}

proof fn lemma_measure_row_listed(g: Grid, c: int, q: int, r: nat)
    requires
        0 <= q < r,
        is_measure(g.cell(c, q)),
    ensures
        measure_rows_upto(g, c, r).len() > 0,
    decreases r,
{
    if q < r - 1 {
        lemma_measure_row_listed(g, c, q, (r - 1) as nat);
    }
}

} // verus!
