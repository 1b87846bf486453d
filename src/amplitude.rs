//! Exact scalars: elements of Z[ω] for ω = e^{iπ/4}, and the monomials
//! ω^p·√2^m that make up operator entries.
use vstd::prelude::*;

verus! {

/// An element a + bω + cω² + dω³ of Z[ω], where ω² = i and ω⁴ = −1.
pub type Cyclo = (int, int, int, int);

/// A value P + Q·√2 of Z[√2].
pub type Surd = (int, int);

pub open spec fn cyclo_zero() -> Cyclo {
    (0, 0, 0, 0)
}

pub open spec fn cyclo_one() -> Cyclo {
    (1, 0, 0, 0)
}

pub open spec fn cyclo_add(x: Cyclo, y: Cyclo) -> Cyclo {
    (x.0 + y.0, x.1 + y.1, x.2 + y.2, x.3 + y.3)
}

/// Multiplication by ω.
pub open spec fn times_omega(x: Cyclo) -> Cyclo {
    (-x.3, x.0, x.1, x.2)
}

/// Multiplication by √2 = ω − ω³.
pub open spec fn times_sqrt2(x: Cyclo) -> Cyclo {
    (x.1 - x.3, x.0 + x.2, x.1 + x.3, x.2 - x.0)
}

/// Multiplication by ω^p.
pub open spec fn omega_pow(x: Cyclo, p: nat) -> Cyclo
    decreases p,
{
    if p == 0 {
        x
    } else {
        times_omega(omega_pow(x, (p - 1) as nat))
    }
}

/// Multiplication by √2^m.
pub open spec fn sqrt2_pow(x: Cyclo, m: nat) -> Cyclo
    decreases m,
{
    if m == 0 {
        x
    } else {
        times_sqrt2(sqrt2_pow(x, (m - 1) as nat))
    }
}

/// The squared magnitude |x|², which lies in Z[√2]:
/// (a² + b² + c² + d²) + √2·(ab + bc + cd − da).
pub open spec fn norm_sq(x: Cyclo) -> Surd {
    (x.0 * x.0 + x.1 * x.1 + x.2 * x.2 + x.3 * x.3, x.0 * x.1 + x.1 * x.2 + x.2 * x.3 - x.3 * x.0)
}

pub open spec fn two_pow(n: nat) -> nat
    decreases n,
{
    if n == 0 {
        1
    } else {
        2 * two_pow((n - 1) as nat)
    }
}

/// Every coordinate of `x` lies in [−b, b].
pub open spec fn within(x: Cyclo, b: int) -> bool {
    -b <= x.0 <= b && -b <= x.1 <= b && -b <= x.2 <= b && -b <= x.3 <= b
}

/// Every coordinate of `x` fits in an `i64`.
pub open spec fn fits_i64(x: Cyclo) -> bool {
    i64::MIN <= x.0 <= i64::MAX && i64::MIN <= x.1 <= i64::MAX && i64::MIN <= x.2 <= i64::MAX
        && i64::MIN <= x.3 <= i64::MAX
}

/// An amplitude numerator: a + bω + cω² + dω³ with 64-bit coordinates.
#[derive(Clone, Copy, PartialEq, Eq, Structural, Debug)]
pub struct Amp {
    pub a: i64,
    pub b: i64,
    pub c: i64,
    pub d: i64,
}

impl View for Amp {
    type V = Cyclo;

    open spec fn view(&self) -> Cyclo {
        (self.a as int, self.b as int, self.c as int, self.d as int)
    }
}

/// An operator entry: zero, or the monomial ω^phase · √2^sqrt2.
#[derive(Clone, Copy, PartialEq, Eq, Structural, Debug)]
pub enum Entry {
    Zero,
    Unit { phase: u8, sqrt2: u8 },
}

/// Largest power of √2 an entry may carry: one per row of a register of at
/// most eight rows.
pub const MAX_SQRT2: u8 = 8;

impl Entry {
    pub open spec fn wf(self) -> bool {
        match self {
            Entry::Zero => true,
            Entry::Unit { phase, sqrt2 } => phase < 8 && sqrt2 <= MAX_SQRT2,
        }
    }

    /// The power of √2 that the entry carries (0 for zero).
    pub open spec fn sqrt2_of(self) -> nat {
        match self {
            Entry::Zero => 0,
            Entry::Unit { sqrt2, .. } => sqrt2 as nat,
        }
    }
}

pub open spec fn entry_one() -> Entry {
    Entry::Unit { phase: 0, sqrt2: 0 }
}

/// The product of two entries.
pub open spec fn entry_mul(x: Entry, y: Entry) -> Entry {
    match (x, y) {
        (Entry::Unit { phase: p, sqrt2: m }, Entry::Unit { phase: q, sqrt2: k }) => Entry::Unit {
            phase: ((p + q) % 8) as u8,
            sqrt2: (m + k) as u8,
        },
        _ => Entry::Zero,
    }
}

/// The product of an entry with an element of Z[ω].
pub open spec fn entry_times(e: Entry, x: Cyclo) -> Cyclo {
    match e {
        Entry::Zero => cyclo_zero(),
        Entry::Unit { phase, sqrt2 } => sqrt2_pow(omega_pow(x, phase as nat), sqrt2 as nat),
    }
}

/// Multiplies two well-formed entries whose powers of √2 add up to at most
/// `MAX_SQRT2`.
pub(crate) fn mul_entries(x: Entry, y: Entry) -> (r: Entry)
    requires
        x.wf(),
        y.wf(),
        x.sqrt2_of() + y.sqrt2_of() <= MAX_SQRT2,
    ensures
        r == entry_mul(x, y),
        r.wf(),
        r.sqrt2_of() <= x.sqrt2_of() + y.sqrt2_of(),
{
    match (x, y) {
        (Entry::Unit { phase: p, sqrt2: m }, Entry::Unit { phase: q, sqrt2: k }) => Entry::Unit {
            phase: (p + q) % 8,
            sqrt2: m + k,
        },
        _ => Entry::Zero,
    }
}

pub proof fn lemma_two_pow_le(a: nat, b: nat)
    requires
        a <= b,
    ensures
        two_pow(a) <= two_pow(b),
    decreases b,
{
    if a < b {
        lemma_two_pow_le(a, (b - 1) as nat);
    }
}

pub proof fn lemma_two_pow_pos(n: nat)
    ensures
        two_pow(n) >= 1,
    decreases n,
{
    if n > 0 {
        lemma_two_pow_pos((n - 1) as nat);
    }
}

pub proof fn lemma_two_pow_add(a: nat, b: nat)
    ensures
        two_pow(a + b) == two_pow(a) * two_pow(b),
    decreases b,
{
    reveal_with_fuel(two_pow, 1);
    if b > 0 {
        let b1 = (b - 1) as nat;
        lemma_two_pow_add(a, b1);
        assert(a + b1 + 1 == a + b);
        assert(two_pow(a + b) == 2 * two_pow(a + b1));
        assert(two_pow(b) == 2 * two_pow(b1));
        let pa = two_pow(a);
        let pb = two_pow(b1);
        assert(pa * (2 * pb) == 2 * (pa * pb)) by (nonlinear_arith);
    } else {
        assert(two_pow(0) == 1);
        assert(two_pow(a) * 1 == two_pow(a));
    }
}

/// Bound on the coordinates of an entry times an `i64` amplitude.
pub open spec fn term_bound() -> int {
    0x80_0000_0000_0000_0000
}

/// Multiplies a well-formed entry with an amplitude, in 128-bit coordinates.
pub(crate) fn apply_entry(e: Entry, z: Amp) -> (r: (i128, i128, i128, i128))
    requires
        e.wf(),
    ensures
        (r.0 as int, r.1 as int, r.2 as int, r.3 as int) == entry_times(e, z@),
        within((r.0 as int, r.1 as int, r.2 as int, r.3 as int), term_bound()),
{
    match e {
        Entry::Zero => (0, 0, 0, 0),
        Entry::Unit { phase, sqrt2 } => {
            let mut a: i128 = z.a as i128;
            let mut b: i128 = z.b as i128;
            let mut c: i128 = z.c as i128;
            let mut d: i128 = z.d as i128;
            let mut i: u8 = 0;
            while i < phase
                invariant
                    i <= phase < 8,
                    (a as int, b as int, c as int, d as int) == omega_pow(z@, i as nat),
                    within((a as int, b as int, c as int, d as int), 0x8000_0000_0000_0000),
                decreases phase - i,
            {
                let t = d;
                d = c;
                c = b;
                b = a;
                a = -t;
                i = i + 1;
            }
            let ghost rotated = omega_pow(z@, phase as nat);
            let mut k: u8 = 0;
            while k < sqrt2
                invariant
                    k <= sqrt2 <= MAX_SQRT2,
                    (a as int, b as int, c as int, d as int) == sqrt2_pow(rotated, k as nat),
                    within((a as int, b as int, c as int, d as int), (0x8000_0000_0000_0000 * two_pow(k as nat)) as int),
                decreases sqrt2 - k,
            {
                proof {
                    lemma_two_pow_le(k as nat, 7);
                    reveal_with_fuel(two_pow, 8);
                    assert(two_pow(7) == 128);
                }
                let (na, nb, nc, nd) = (b - d, a + c, b + d, c - a);
                a = na;
                b = nb;
                c = nc;
                d = nd;
                k = k + 1;
            }
            proof {
                lemma_two_pow_le(sqrt2 as nat, 8);
                reveal_with_fuel(two_pow, 9);
                assert(two_pow(8) == 256);
            }
            (a, b, c, d)
        },
    }
}

} // verus!
