use qubit_grid::amplitude::{Amp, Entry};
use qubit_grid::gate::{Cell, Gate};
use qubit_grid::grid::Grid;
use qubit_grid::measure::{
    get_partial_state_of_column, marginal_distribution, satisfies_objective, Distribution, EvalError, Prob,
    Tolerance,
};
use qubit_grid::objective::{check_measurment, first_measure_column, measured_rows, Objective};
use qubit_grid::operator::get_operator_of_column;
use qubit_grid::state::{get_state_of_column, State};

fn gate(g: Gate) -> Option<Cell> {
    Some(Cell { gate: g, links_up: false })
}

fn control(g: Gate, links_up: bool) -> Option<Cell> {
    Some(Cell { gate: g, links_up })
}

fn amp(a: i64, b: i64, c: i64, d: i64) -> Amp {
    Amp { a, b, c, d }
}

fn zero() -> Amp {
    amp(0, 0, 0, 0)
}

fn one() -> Amp {
    amp(1, 0, 0, 0)
}

fn basis(n: usize, k: usize) -> Vec<Amp> {
    (0..n).map(|i| if i == k { one() } else { zero() }).collect()
}

fn state(grid: &Grid, column: usize) -> State {
    get_state_of_column(grid, column).expect("state fits")
}

fn at(column: usize, rows: &[usize]) -> Vec<(usize, usize)> {
    rows.iter().map(|&r| (column, r)).collect()
}

fn dist(exponent: u32, weights: Vec<u64>) -> Distribution {
    Distribution { exponent, weights }
}

#[test]
fn empty_grid_stays_in_vacuum() {
    for rows in 1..=4 {
        let grid = Grid::new(rows);
        for c in [0usize, 1, 5, 100] {
            let s = state(&grid, c);
            assert_eq!(s.scale, 0);
            assert_eq!(s.amps, basis(1 << rows, 0));
        }
    }
}

#[test]
fn empty_columns_between_gates_change_nothing() {
    let mut grid = Grid::new(3);
    grid.set(4, 2, None);
    let s = state(&grid, 9);
    assert_eq!(s.scale, 0);
    assert_eq!(s.amps, basis(8, 0));
}

#[test]
fn x_on_row_zero_flips_most_significant_bit() {
    let mut grid = Grid::new(2);
    grid.set(0, 0, gate(Gate::X));
    let s = state(&grid, 0);
    assert_eq!(s.scale, 0);
    assert_eq!(s.amps, basis(4, 2));
}

#[test]
fn x_on_last_row_flips_least_significant_bit() {
    let mut grid = Grid::new(3);
    grid.set(0, 2, gate(Gate::X));
    assert_eq!(state(&grid, 0).amps, basis(8, 1));
}

#[test]
fn inactive_control_leaves_target_unchanged() {
    let mut grid = Grid::new(2);
    grid.set(0, 0, control(Gate::C, false));
    grid.set(0, 1, gate(Gate::X));
    let s = state(&grid, 0);
    assert_eq!(s.scale, 0);
    assert_eq!(s.amps, basis(4, 0));
}

#[test]
fn active_control_above_fires() {
    let mut grid = Grid::new(2);
    grid.set(0, 0, gate(Gate::X));
    grid.set(1, 0, control(Gate::C, false));
    grid.set(1, 1, gate(Gate::X));
    assert_eq!(state(&grid, 1).amps, basis(4, 3));
}

#[test]
fn anti_control_fires_on_zero() {
    let mut grid = Grid::new(2);
    grid.set(0, 0, control(Gate::AC, false));
    grid.set(0, 1, gate(Gate::X));
    assert_eq!(state(&grid, 0).amps, basis(4, 1));
}

#[test]
fn anti_control_blocks_on_one() {
    let mut grid = Grid::new(2);
    grid.set(0, 0, gate(Gate::X));
    grid.set(1, 0, control(Gate::AC, false));
    grid.set(1, 1, gate(Gate::X));
    assert_eq!(state(&grid, 1).amps, basis(4, 2));
}

#[test]
fn control_below_linked_up_fires() {
    let mut grid = Grid::new(2);
    grid.set(0, 1, gate(Gate::X));
    grid.set(1, 0, gate(Gate::X));
    grid.set(1, 1, control(Gate::C, true));
    assert_eq!(state(&grid, 0).amps, basis(4, 1));
    assert_eq!(state(&grid, 1).amps, basis(4, 3));
}

#[test]
fn control_below_linked_up_inactive() {
    let mut grid = Grid::new(2);
    grid.set(0, 0, gate(Gate::X));
    grid.set(0, 1, control(Gate::C, true));
    assert_eq!(state(&grid, 0).amps, basis(4, 0));
}

#[test]
fn control_above_is_searched_first() {
    // Row 1 holds X with a control above wired down and one below wired up:
    // the control above takes it, the one below stands alone.
    let mut grid = Grid::new(3);
    grid.set(0, 0, control(Gate::C, false));
    grid.set(0, 1, gate(Gate::X));
    grid.set(0, 2, control(Gate::AC, true));
    assert_eq!(state(&grid, 0).amps, basis(8, 0));
}

#[test]
fn orphan_control_is_identity() {
    let mut grid = Grid::new(2);
    grid.set(0, 0, control(Gate::C, true));
    grid.set(0, 1, control(Gate::AC, false));
    let s = state(&grid, 0);
    assert_eq!(s.scale, 0);
    assert_eq!(s.amps, basis(4, 0));
}

#[test]
fn control_wired_to_measurement_is_identity() {
    let mut grid = Grid::new(2);
    grid.set(0, 0, control(Gate::AC, false));
    grid.set(0, 1, gate(Gate::M));
    assert_eq!(state(&grid, 0).amps, basis(4, 0));
}

#[test]
fn hadamard_gives_equal_superposition() {
    let mut grid = Grid::new(1);
    grid.set(0, 0, gate(Gate::H));
    let s = state(&grid, 0);
    assert_eq!(s.scale, 1);
    assert_eq!(s.amps, vec![one(), one()]);
}

#[test]
fn hadamard_twice_is_identity_up_to_scale() {
    let mut grid = Grid::new(1);
    grid.set(0, 0, gate(Gate::H));
    grid.set(1, 0, gate(Gate::H));
    let s = state(&grid, 1);
    assert_eq!(s.scale, 2);
    assert_eq!(s.amps, vec![amp(2, 0, 0, 0), zero()]);
}

#[test]
fn phase_gates_after_hadamard() {
    let mut grid = Grid::new(1);
    grid.set(0, 0, gate(Gate::H));
    grid.set(1, 0, gate(Gate::T));
    assert_eq!(state(&grid, 1).amps, vec![one(), amp(0, 1, 0, 0)]);
    grid.set(1, 0, gate(Gate::S));
    assert_eq!(state(&grid, 1).amps, vec![one(), amp(0, 0, 1, 0)]);
    grid.set(1, 0, gate(Gate::Z));
    assert_eq!(state(&grid, 1).amps, vec![one(), amp(-1, 0, 0, 0)]);
}

#[test]
fn y_on_zero_gives_i_times_one() {
    let mut grid = Grid::new(1);
    grid.set(0, 0, gate(Gate::Y));
    assert_eq!(state(&grid, 0).amps, vec![zero(), amp(0, 0, 1, 0)]);
}

#[test]
fn measurement_marker_is_identity() {
    let mut grid = Grid::new(1);
    grid.set(0, 0, gate(Gate::X));
    grid.set(1, 0, gate(Gate::M));
    assert_eq!(state(&grid, 1).amps, vec![zero(), one()]);
}

#[test]
fn controlled_hadamard_keeps_exact_identity_block() {
    let mut grid = Grid::new(2);
    grid.set(0, 0, control(Gate::C, false));
    grid.set(0, 1, gate(Gate::H));
    let s = state(&grid, 0);
    assert_eq!(s.scale, 1);
    // 1 = √2 / √2, and √2 = ω − ω³.
    assert_eq!(s.amps, vec![amp(0, 1, 0, -1), zero(), zero(), zero()]);

    grid.set(1, 0, gate(Gate::X));
    grid.set(2, 0, control(Gate::C, false));
    grid.set(2, 1, gate(Gate::H));
    let t = state(&grid, 2);
    assert_eq!(t.scale, 2);
    assert_eq!(t.amps, vec![zero(), zero(), amp(0, 1, 0, -1), amp(0, 1, 0, -1)]);
}

#[test]
fn bell_pair() {
    let grid = bell_grid();
    let s = state(&grid, 1);
    assert_eq!(s.scale, 1);
    assert_eq!(s.amps, vec![one(), zero(), zero(), one()]);
}

fn bell_grid() -> Grid {
    let mut grid = Grid::new(2);
    grid.set(0, 0, gate(Gate::H));
    grid.set(1, 0, control(Gate::C, false));
    grid.set(1, 1, gate(Gate::X));
    grid
}

fn total(m: &[Prob]) -> (i128, i128) {
    m.iter().fold((0, 0), |acc, p| (acc.0 + p.rational, acc.1 + p.irrational))
}

#[test]
fn probability_is_conserved() {
    let mut grid = Grid::new(3);
    grid.set(0, 0, gate(Gate::H));
    grid.set(0, 1, gate(Gate::H));
    grid.set(1, 0, gate(Gate::T));
    grid.set(1, 1, control(Gate::C, true));
    grid.set(1, 2, gate(Gate::Y));
    grid.set(2, 0, gate(Gate::H));
    grid.set(2, 1, control(Gate::AC, false));
    grid.set(2, 2, gate(Gate::H));
    grid.set(3, 2, gate(Gate::S));
    grid.set(3, 1, gate(Gate::H));
    for c in 0..5 {
        let s = state(&grid, c);
        let m = marginal_distribution(&s, 3, &vec![0, 1, 2]);
        assert_eq!(total(&m.probs), (1i128 << s.scale, 0));
        let f: f64 = m
            .probs
            .iter()
            .map(|p| (p.rational as f64 + p.irrational as f64 * 2f64.sqrt()) / (1u64 << m.scale) as f64)
            .sum();
        assert!((f - 1.0).abs() < 1e-9);
    }
}

#[test]
fn repeated_calls_agree() {
    let grid = bell_grid();
    let a = state(&grid, 1);
    let b = state(&grid, 1);
    assert_eq!(a.scale, b.scale);
    assert_eq!(a.amps, b.amps);
}

#[test]
fn overflow_is_reported() {
    let mut grid = Grid::new(1);
    for c in 0..140 {
        grid.set(c, 0, gate(Gate::H));
    }
    let s = state(&grid, 59);
    assert_eq!(s.scale, 60);
    assert_eq!(s.amps, vec![amp(1 << 30, 0, 0, 0), zero()]);
    let s = state(&grid, 123);
    assert_eq!(s.scale, 124);
    assert_eq!(s.amps, vec![amp(1 << 62, 0, 0, 0), zero()]);
    assert_eq!(satisfies_objective(&dist(0, vec![1, 0]), &grid, &at(123, &[0]), &Tolerance::standard()), Ok(true));
    // Scale 125: the state still fits, the marginal is no longer held.
    let s = state(&grid, 124);
    assert_eq!(s.amps, vec![amp(1 << 62, 0, 0, 0), amp(1 << 62, 0, 0, 0)]);
    assert_eq!(
        satisfies_objective(&dist(1, vec![1, 1]), &grid, &at(124, &[0]), &Tolerance::standard()),
        Err(EvalError::Overflow)
    );
    assert!(get_state_of_column(&grid, 129).is_none());
    assert_eq!(
        satisfies_objective(&dist(0, vec![1, 0]), &grid, &at(129, &[0]), &Tolerance::standard()),
        Err(EvalError::Overflow)
    );
}

#[test]
fn full_board_of_hadamards_is_evaluated() {
    let mut grid = Grid::new(8);
    for c in 0..15 {
        for r in 0..8 {
            grid.set(c, r, gate(Gate::H));
        }
    }
    for c in 0..15 {
        let s = state(&grid, c);
        assert_eq!(s.scale, 8 * (c as u64 + 1));
        let m = marginal_distribution(&s, 8, &vec![0, 1, 2, 3, 4, 5, 6, 7]);
        assert_eq!(total(&m.probs), (1i128 << s.scale, 0));
    }
    // Fifteen columns of H on every row: an even count on each wire, so |0…0⟩.
    let s = state(&grid, 13);
    assert_eq!(s.amps[0], amp(1 << 56, 0, 0, 0));
    assert!(s.amps[1..].iter().all(|a| *a == zero()));
}

#[test]
fn hadamards_on_seven_rows_over_ten_columns() {
    let mut grid = Grid::new(8);
    for c in 0..10 {
        for r in 0..7 {
            grid.set(c, r, gate(Gate::H));
        }
    }
    let s = state(&grid, 9);
    assert_eq!(s.scale, 70);
    assert_eq!(s.amps[0], amp(1 << 35, 0, 0, 0));
}

#[test]
fn get_operator_of_column_of_x_on_top_row() {
    let mut grid = Grid::new(2);
    grid.set(0, 0, gate(Gate::X));
    let op = get_operator_of_column(&grid, 0);
    let u = Entry::Unit { phase: 0, sqrt2: 0 };
    let z = Entry::Zero;
    assert_eq!(op.scale, 0);
    assert_eq!(
        op.entries,
        vec![vec![z, z, u, z], vec![z, z, z, u], vec![u, z, z, z], vec![z, u, z, z]]
    );
}

#[test]
fn get_operator_of_column_of_cnot() {
    let mut grid = Grid::new(2);
    grid.set(3, 0, control(Gate::C, false));
    grid.set(3, 1, gate(Gate::X));
    let op = get_operator_of_column(&grid, 3);
    let u = Entry::Unit { phase: 0, sqrt2: 0 };
    let z = Entry::Zero;
    assert_eq!(
        op.entries,
        vec![vec![u, z, z, z], vec![z, u, z, z], vec![z, z, z, u], vec![z, z, u, z]]
    );
}

#[test]
fn get_operator_of_column_of_hadamard_pair() {
    let mut grid = Grid::new(2);
    grid.set(0, 0, gate(Gate::H));
    grid.set(0, 1, gate(Gate::H));
    let op = get_operator_of_column(&grid, 0);
    assert_eq!(op.scale, 2);
    assert_eq!(op.entries[3][3], Entry::Unit { phase: 0, sqrt2: 0 });
    assert_eq!(op.entries[1][3], Entry::Unit { phase: 4, sqrt2: 0 });
    assert_eq!(op.entries[0][0], Entry::Unit { phase: 0, sqrt2: 0 });
}

#[test]
fn gate_catalog() {
    let t = Gate::T.operator().unwrap();
    assert_eq!(t.scale, 0);
    assert_eq!(t.entries[1][1], Entry::Unit { phase: 1, sqrt2: 0 });
    let y = Gate::Y.operator().unwrap();
    assert_eq!(y.entries[0][1], Entry::Unit { phase: 6, sqrt2: 0 });
    assert_eq!(y.entries[1][0], Entry::Unit { phase: 2, sqrt2: 0 });
    assert_eq!(Gate::H.operator().unwrap().scale, 1);
    assert!(Gate::C.operator().is_none());
    assert!(Gate::AC.operator().is_none());
    assert!(Gate::M.operator().is_none());
}

#[test]
fn marginal_of_bell_pair() {
    let s = state(&bell_grid(), 1);
    let both = marginal_distribution(&s, 2, &vec![0, 1]);
    assert_eq!(both.scale, 1);
    let r: Vec<(i128, i128)> = both.probs.iter().map(|p| (p.rational, p.irrational)).collect();
    assert_eq!(r, vec![(1, 0), (0, 0), (0, 0), (1, 0)]);
    let first = marginal_distribution(&s, 2, &vec![0]);
    let r: Vec<(i128, i128)> = first.probs.iter().map(|p| (p.rational, p.irrational)).collect();
    assert_eq!(r, vec![(1, 0), (1, 0)]);
}

#[test]
fn marginal_keeps_order_of_measured_rows() {
    let mut grid = Grid::new(3);
    grid.set(0, 2, gate(Gate::X));
    let s = state(&grid, 0);
    let m = marginal_distribution(&s, 3, &vec![2, 0]);
    let r: Vec<i128> = m.probs.iter().map(|p| p.rational).collect();
    assert_eq!(r, vec![0, 0, 1, 0]);
    let m = marginal_distribution(&s, 3, &vec![0, 2]);
    let r: Vec<i128> = m.probs.iter().map(|p| p.rational).collect();
    assert_eq!(r, vec![0, 1, 0, 0]);
}

#[test]
fn marginal_with_irrational_part() {
    let mut grid = Grid::new(1);
    grid.set(0, 0, gate(Gate::H));
    grid.set(1, 0, gate(Gate::T));
    grid.set(2, 0, gate(Gate::H));
    let s = state(&grid, 2);
    let m = marginal_distribution(&s, 1, &vec![0]);
    assert_eq!(m.scale, 2);
    // |1 + ω|² = 2 + √2 and |1 − ω|² = 2 − √2, over 2².
    assert_eq!(m.probs, vec![Prob { rational: 2, irrational: 1 }, Prob { rational: 2, irrational: -1 }]);
}

#[test]
fn marginal_rejection() {
    let grid = Grid::new(2);
    let r = satisfies_objective(&dist(1, vec![1, 0, 0, 1]), &grid, &at(0, &[0, 1]), &Tolerance::standard());
    assert_eq!(r, Ok(false));
}

#[test]
fn bell_pair_meets_phi() {
    let grid = bell_grid();
    assert_eq!(satisfies_objective(&dist(1, vec![1, 0, 0, 1]), &grid, &at(1, &[0, 1]), &Tolerance::standard()), Ok(true));
    assert_eq!(satisfies_objective(&dist(1, vec![0, 1, 1, 0]), &grid, &at(1, &[0, 1]), &Tolerance::standard()), Ok(false));
    assert_eq!(satisfies_objective(&dist(2, vec![2, 2]), &grid, &at(1, &[1]), &Tolerance::standard()), Ok(true));
}

#[test]
fn irrational_probability_far_from_target_is_rejected() {
    let mut grid = Grid::new(1);
    grid.set(0, 0, gate(Gate::H));
    grid.set(1, 0, gate(Gate::T));
    grid.set(2, 0, gate(Gate::H));
    assert_eq!(satisfies_objective(&dist(1, vec![1, 1]), &grid, &at(2, &[0]), &Tolerance::standard()), Ok(false));
}

#[test]
fn evaluate_errors() {
    let grid = Grid::new(2);
    assert_eq!(satisfies_objective(&dist(0, vec![1]), &grid, &at(0, &[]), &Tolerance::standard()), Err(EvalError::EmptyRows));
    assert_eq!(satisfies_objective(&dist(0, vec![1, 0]), &grid, &at(0, &[2]), &Tolerance::standard()), Err(EvalError::InvalidRows));
    assert_eq!(
        satisfies_objective(&dist(0, vec![1, 0, 0, 0, 0, 0, 0, 0]), &grid, &at(0, &[0, 1, 0]), &Tolerance::standard()),
        Err(EvalError::InvalidRows)
    );
    assert_eq!(satisfies_objective(&dist(0, vec![1, 0]), &grid, &at(0, &[0, 1]), &Tolerance::standard()), Err(EvalError::TargetLength));
}

#[test]
fn objectives() {
    assert_eq!(Objective::Measure0.measure_count(), 1);
    assert_eq!(Objective::MeasurePsi.measure_count(), 2);
    let d = Objective::MeasurePhi.get_desired_state();
    assert_eq!((d.exponent, d.weights), (1, vec![1, 0, 0, 1]));
    let d = Objective::Measure1.get_desired_state();
    assert_eq!((d.exponent, d.weights), (0, vec![0, 1]));
    assert_eq!(Objective::MeasurePsi.get_name(), "Measure Psi");
    assert_eq!(Objective::Measure0.get_name(), "Measure 0");
}

#[test]
fn finding_measurement_markers() {
    let mut grid = bell_grid();
    assert_eq!(first_measure_column(&grid), None);
    assert_eq!(check_measurment(&grid, Objective::MeasurePhi), Ok(None));
    grid.set(4, 1, gate(Gate::M));
    grid.set(2, 1, gate(Gate::M));
    grid.set(2, 0, gate(Gate::M));
    assert_eq!(first_measure_column(&grid), Some(2));
    assert_eq!(measured_rows(&grid, 2), vec![0, 1]);
    assert_eq!(measured_rows(&grid, 4), vec![1]);
    assert_eq!(check_measurment(&grid, Objective::MeasurePhi), Ok(Some(true)));
    assert_eq!(check_measurment(&grid, Objective::MeasurePsi), Ok(Some(false)));
    assert_eq!(check_measurment(&grid, Objective::Measure0), Err(EvalError::TargetLength));
}

#[test]
fn measure_one_after_flip() {
    let mut grid = Grid::new(3);
    grid.set(0, 1, gate(Gate::X));
    grid.set(1, 1, gate(Gate::M));
    assert_eq!(check_measurment(&grid, Objective::Measure1), Ok(Some(true)));
    assert_eq!(check_measurment(&grid, Objective::Measure0), Ok(Some(false)));
}

#[test]
fn grid_get_and_set() {
    let mut grid = Grid::new(2);
    assert_eq!(grid.get(3, 1), None);
    grid.set(3, 1, gate(Gate::S));
    assert_eq!(grid.get(3, 1), gate(Gate::S));
    assert_eq!(grid.get(3, 0), None);
    assert_eq!(grid.get(2, 1), None);
    grid.set(3, 1, None);
    assert_eq!(grid.get(3, 1), None);
}

#[test]
fn partial_state_at_first_location_column() {
    let mut grid = bell_grid();
    grid.set(0, 1, gate(Gate::X));
    // At column 1 the state is (|01⟩ + |10⟩)/√2.
    let m = get_partial_state_of_column(&grid, &vec![(1, 0), (1, 1)]).ok().unwrap();
    assert_eq!(m.scale, 1);
    let r: Vec<i128> = m.probs.iter().map(|p| p.rational).collect();
    assert_eq!(r, vec![0, 1, 1, 0]);
    assert!(matches!(get_partial_state_of_column(&grid, &vec![]), Err(EvalError::EmptyRows)));
    assert!(matches!(get_partial_state_of_column(&grid, &vec![(1, 7)]), Err(EvalError::InvalidRows)));
    assert!(matches!(
        get_partial_state_of_column(&grid, &vec![(1, 0), (5, 1)]),
        Err(EvalError::InvalidRows)
    ));
    assert_eq!(
        satisfies_objective(&Objective::MeasurePsi.get_desired_state(), &grid, &vec![(1, 0), (2, 1)], &Tolerance::standard()),
        Err(EvalError::InvalidRows)
    );
    assert_eq!(
        satisfies_objective(&Objective::MeasurePsi.get_desired_state(), &grid, &vec![(1, 0), (1, 1)], &Tolerance::standard()),
        Ok(true)
    );
}

#[test]
fn target_within_tolerance_is_met() {
    let grid = Grid::new(2);
    let target = dist(30, vec![(1 << 30) - 1, 1]);
    assert_eq!(satisfies_objective(&target, &grid, &at(0, &[0]), &Tolerance::standard()), Ok(true));
    let far = dist(10, vec![1023, 1]);
    assert_eq!(satisfies_objective(&far, &grid, &at(0, &[0]), &Tolerance::standard()), Ok(false));
}

#[test]
fn tolerance_bound_is_strict() {
    let grid = Grid::new(1);
    let target = dist(10, vec![1023, 1]);
    let exact = Tolerance { numerator: 1, exponent: 10 };
    let wider = Tolerance { numerator: 3, exponent: 11 };
    let none = Tolerance { numerator: 0, exponent: 0 };
    assert_eq!(satisfies_objective(&target, &grid, &at(0, &[0]), &exact), Ok(false));
    assert_eq!(satisfies_objective(&target, &grid, &at(0, &[0]), &wider), Ok(true));
    assert_eq!(satisfies_objective(&dist(0, vec![1, 0]), &grid, &at(0, &[0]), &none), Ok(false));
}

#[test]
fn irrational_marginal_meets_close_dyadic_target() {
    let mut grid = Grid::new(1);
    grid.set(0, 0, gate(Gate::H));
    grid.set(1, 0, gate(Gate::T));
    grid.set(2, 0, gate(Gate::H));
    // (2 + √2) / 4 = 0.85355339059327376…
    let w0: u64 = (0.853_553_390_593_273_8f64 * (1u64 << 40) as f64).round() as u64;
    let target = dist(40, vec![w0, (1u64 << 40) - w0]);
    assert_eq!(satisfies_objective(&target, &grid, &at(2, &[0]), &Tolerance::standard()), Ok(true));
    let off = dist(40, vec![w0 + (1 << 21), (1u64 << 40) - w0 - (1 << 21)]);
    assert_eq!(satisfies_objective(&off, &grid, &at(2, &[0]), &Tolerance::standard()), Ok(false));
    let tight = Tolerance { numerator: 1, exponent: 60 };
    assert_eq!(satisfies_objective(&target, &grid, &at(2, &[0]), &tight), Ok(false));
}
