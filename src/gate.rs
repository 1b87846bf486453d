//! Gate symbols, their 2×2 matrices, and the contents of one grid cell.
use vstd::prelude::*;

use crate::amplitude::{Entry, entry_one};
use crate::operator::{Mat, Operator, rows_view};

verus! {

/// A symbol that a grid cell can hold.
#[derive(Clone, Copy, PartialEq, Eq, Structural, Debug)]
pub enum Gate {
    X,
    Y,
    Z,
    H,
    S,
    T,
    /// Control marker: the adjacent gate acts when this qubit is |1⟩.
    C,
    /// Anti-control marker: the adjacent gate acts when this qubit is |0⟩.
    AC,
    /// Measurement marker.
    M,
}

impl Gate {
    pub open spec fn is_control(self) -> bool {
        self == Gate::C || self == Gate::AC
    }
}

/// The content of one occupied grid position. `links_up` is meaningful for
/// control markers only: it says whether the control is wired to the row
/// just above it (the next smaller row index) or the one just below.
#[derive(Clone, Copy, PartialEq, Eq, Structural, Debug)]
pub struct Cell {
    pub gate: Gate,
    pub links_up: bool,
}

pub open spec fn unit(phase: u8) -> Entry {
    Entry::Unit { phase, sqrt2: 0 }
}

pub open spec fn mat2(a: Entry, b: Entry, c: Entry, d: Entry) -> Mat {
    seq![seq![a, b], seq![c, d]]
}

/// The catalog: each single-qubit gate as (s, M) standing for M / √2^s,
/// with entries ω^p (1 = ω⁰, i = ω², −1 = ω⁴, −i = ω⁶). Markers have no
/// matrix.
pub open spec fn gate_matrix(g: Gate) -> Option<(nat, Mat)> {
    match g {
        Gate::X => Some((0, mat2(Entry::Zero, unit(0), unit(0), Entry::Zero))),
        Gate::Y => Some((0, mat2(Entry::Zero, unit(6), unit(2), Entry::Zero))),
        Gate::Z => Some((0, mat2(unit(0), Entry::Zero, Entry::Zero, unit(4)))),
        Gate::H => Some((1, mat2(unit(0), unit(0), unit(0), unit(4)))),
        Gate::S => Some((0, mat2(unit(0), Entry::Zero, Entry::Zero, unit(2)))),
        Gate::T => Some((0, mat2(unit(0), Entry::Zero, Entry::Zero, unit(1)))),
        _ => None,
    }
}

pub(crate) fn make_mat2(a: Entry, b: Entry, c: Entry, d: Entry) -> (r: Vec<Vec<Entry>>)
    ensures
        rows_view(r@) == mat2(a, b, c, d),
{
    let mut top: Vec<Entry> = Vec::new();
    top.push(a);
    top.push(b);
    let mut bottom: Vec<Entry> = Vec::new();
    bottom.push(c);
    bottom.push(d);
    let mut r: Vec<Vec<Entry>> = Vec::new();
    r.push(top);
    r.push(bottom);
    assert(rows_view(r@) =~~= mat2(a, b, c, d));
    r
}

impl Gate {
    /// This symbol's 2×2 matrix, or `None` for control and measurement markers.
    pub fn operator(&self) -> (r: Option<Operator>)
        ensures
            match r {
                Some(o) => gate_matrix(*self) == Some(o@),
                None => gate_matrix(*self) is None,
            },
    {
        let z = Entry::Zero;
        let one = Entry::Unit { phase: 0, sqrt2: 0 };
        match self {
            Gate::X => Some(Operator { scale: 0, entries: make_mat2(z, one, one, z) }),
            Gate::Y => Some(
                Operator {
                    scale: 0,
                    entries: make_mat2(
                        z,
                        Entry::Unit { phase: 6, sqrt2: 0 },
                        Entry::Unit { phase: 2, sqrt2: 0 },
                        z,
                    ),
                },
            ),
            Gate::Z => Some(
                Operator { scale: 0, entries: make_mat2(one, z, z, Entry::Unit { phase: 4, sqrt2: 0 }) },
            ),
            Gate::H => Some(
                Operator {
                    scale: 1,
                    entries: make_mat2(one, one, one, Entry::Unit { phase: 4, sqrt2: 0 }),
                },
            ),
            Gate::S => Some(
                Operator { scale: 0, entries: make_mat2(one, z, z, Entry::Unit { phase: 2, sqrt2: 0 }) },
            ),
            Gate::T => Some(
                Operator { scale: 0, entries: make_mat2(one, z, z, Entry::Unit { phase: 1, sqrt2: 0 }) },
            ),
            _ => None,
        }
    }
}

} // verus!
