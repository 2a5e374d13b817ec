//! The errors the solver pipeline can produce, and how they read.
use vstd::prelude::*;
use crate::text::{push_nat_digits, push_str, spec_nat_digits};

verus! {

/// All errors the solver pipeline can produce.
#[derive(Debug, Clone, PartialEq)]
pub enum SolverError {
    /// Attempted to divide by zero during evaluation.
    DivisionByZero,
    /// Not enough equations to solve for all unknowns.
    InsufficientInformation,
    /// Problem requires solving a polynomial of degree > 1 (quadratic, cubic, etc.).
    /// Stores the degree detected, e.g. 2 for quadratic.
    UnsupportedDegree(u32),
    /// Problem contains trigonometry, calculus, or other out-of-scope domains.
    /// Stores the offending variable name, e.g. "sin_theta".
    UnsupportedDomain(String),
    /// Input sentence could not be parsed into equations.
    ParseError(String),
}

/// The content of a `SolverError`.
pub enum ErrorView {
    DivisionByZero,
    InsufficientInformation,
    UnsupportedDegree(u32),
    UnsupportedDomain(Seq<char>),
    ParseError(Seq<char>),
}

impl DeepView for SolverError {
    type V = ErrorView;

    open spec fn deep_view(&self) -> ErrorView {
        match self {
            SolverError::DivisionByZero => ErrorView::DivisionByZero,
            SolverError::InsufficientInformation => ErrorView::InsufficientInformation,
            SolverError::UnsupportedDegree(d) => ErrorView::UnsupportedDegree(*d),
            SolverError::UnsupportedDomain(s) => ErrorView::UnsupportedDomain(s@),
            SolverError::ParseError(s) => ErrorView::ParseError(s@),
        }
    }
}

/// The user-facing message of each error.
pub open spec fn spec_error_message(e: ErrorView) -> Seq<char> {
    match e {
        ErrorView::DivisionByZero => "Division by zero is not possible."@,
        ErrorView::InsufficientInformation => "Not enough information to solve the problem."@,
        ErrorView::UnsupportedDegree(d) => "This problem requires degree-"@ + spec_nat_digits(d as nat)
            + " algebra, which is beyond high school scope."@,
        ErrorView::UnsupportedDomain(s) => "Unsupported topic detected: '"@ + s
            + "'. Only basic algebra is supported."@,
        ErrorView::ParseError(s) => "Could not understand the problem: "@ + s,
    }
}

impl SolverError {
    /// The user-facing message of the error.
    pub fn to_string(&self) -> (m: String)
        ensures
            m@ == spec_error_message(self.deep_view()),
    {
        let mut m = String::new();
        match self {
            SolverError::DivisionByZero => {
                push_str(&mut m, "Division by zero is not possible.");
            },
            SolverError::InsufficientInformation => {
                push_str(&mut m, "Not enough information to solve the problem.");
            },
            SolverError::UnsupportedDegree(d) => {
                push_str(&mut m, "This problem requires degree-");
                push_nat_digits(&mut m, *d as u64);
                push_str(&mut m, " algebra, which is beyond high school scope.");
            },
            SolverError::UnsupportedDomain(s) => {
                push_str(&mut m, "Unsupported topic detected: '");
                push_str(&mut m, s.as_str());
                push_str(&mut m, "'. Only basic algebra is supported.");
            },
            SolverError::ParseError(s) => {
                push_str(&mut m, "Could not understand the problem: ");
                push_str(&mut m, s.as_str());
            },
        }
        assert(m@ =~= spec_error_message(self.deep_view()));
        m
    }

    /// A copy of the error.
    pub fn duplicate(&self) -> (e: SolverError)
        ensures
            e.deep_view() == self.deep_view(),
    {
        match self {
            SolverError::DivisionByZero => SolverError::DivisionByZero,
            SolverError::InsufficientInformation => SolverError::InsufficientInformation,
            SolverError::UnsupportedDegree(d) => SolverError::UnsupportedDegree(*d),
            SolverError::UnsupportedDomain(s) => SolverError::UnsupportedDomain(s.clone()),
            SolverError::ParseError(s) => SolverError::ParseError(s.clone()),
        }
    }
}

} // verus!
