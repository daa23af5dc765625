//! The case analysis of the solver over the reduced form `a·x² + b·x + c = 0`.
//!
//! The arithmetic is done by the caller; what is decided here is which closed
//! form applies, from how the coefficients and the discriminant `b² − 4ac`
//! compare with zero (exactly, without tolerance).
use vstd::prelude::*;

verus! {

/// How the reduced coefficients and the discriminant compare with zero.
#[derive(Debug, Clone, Copy, PartialEq, Eq, Structural)]
pub struct Signs {
    pub a_is_zero: bool,
    pub b_is_zero: bool,
    pub c_is_zero: bool,
    /// `b² − 4ac > 0`.
    pub d_is_positive: bool,
    /// `b² − 4ac = 0`.
    pub d_is_zero: bool,
}

/// What the reduced equation allows.
#[derive(Debug, Clone, Copy, PartialEq, Eq, Structural)]
pub enum Outcome {
    /// Every real number is a solution.
    AllReals,
    /// No real number is a solution.
    NoSolution,
    /// Degree one: the single root `−c / b`.
    Linear,
    /// Degree two, positive discriminant: the roots `(−b + √d) / 2a`, then `(−b − √d) / 2a`.
    TwoRoots,
    /// Degree two, zero discriminant: the single root `−b / 2a`.
    DoubleRoot,
    /// Degree two, negative discriminant: no real root; the conjugate pair
    /// `−b / 2a ± i·√(−d) / 2a` is only for display.
    ComplexPair,
}

/// Degree 2 when `a` is not zero, else 1 when `b` is not zero, else 0.
pub open spec fn degree_of(a_is_zero: bool, b_is_zero: bool) -> nat {
    if !a_is_zero {
        2
    } else if !b_is_zero {
        1
    } else {
        0
    }
}

/// The degree of the reduced form.
pub fn degree(a_is_zero: bool, b_is_zero: bool) -> (r: u8)
    ensures
        r as nat == degree_of(a_is_zero, b_is_zero),
{
    if !a_is_zero {
        2
    } else if !b_is_zero {
        1
    } else {
        0
    }
}

/// The identically zero form holds for all reals; otherwise the degree picks
/// the closed form, and at degree two the sign of the discriminant does.
pub open spec fn outcome_of(s: Signs) -> Outcome {
    if s.a_is_zero && s.b_is_zero && s.c_is_zero {
        Outcome::AllReals
    } else {
        let d = degree_of(s.a_is_zero, s.b_is_zero);
        if d == 2 {
            if s.d_is_positive {
                Outcome::TwoRoots
            } else if s.d_is_zero {
                Outcome::DoubleRoot
            } else {
                Outcome::ComplexPair
            }
        } else if d == 1 {
            Outcome::Linear
        } else {
            Outcome::NoSolution
        }
    }
}

/// How many real roots an outcome reports.
pub open spec fn real_root_count(o: Outcome) -> nat {
    match o {
        Outcome::TwoRoots => 2,
        Outcome::DoubleRoot => 1,
        Outcome::Linear => 1,
        _ => 0,
    }
}

/// Decides what the reduced equation allows.
pub fn solution_kind(s: Signs) -> (r: Outcome)
    ensures
        r == outcome_of(s),
        s.a_is_zero && s.b_is_zero && s.c_is_zero <==> r == Outcome::AllReals,
        !s.a_is_zero && s.d_is_positive ==> r == Outcome::TwoRoots && real_root_count(r) == 2,
        !s.a_is_zero && !s.d_is_positive && s.d_is_zero ==> r == Outcome::DoubleRoot && real_root_count(r) == 1,
        !s.a_is_zero && !s.d_is_positive && !s.d_is_zero ==> r == Outcome::ComplexPair
            && real_root_count(r) == 0,
{
    if s.a_is_zero && s.b_is_zero && s.c_is_zero {
        return Outcome::AllReals;
    }
    match degree(s.a_is_zero, s.b_is_zero) {
        2 => {
            if s.d_is_positive {
                Outcome::TwoRoots
            } else if s.d_is_zero {
                Outcome::DoubleRoot
            } else {
                Outcome::ComplexPair
            }
        },
        1 => Outcome::Linear,
        _ => Outcome::NoSolution,
    }
}

} // verus!
