//! Kinds of routes: between hubs, between a hub and another airport, or
//! between two other airports; each either already flown by another airline
//! or not.
use vstd::prelude::*;

verus! {

/// The kind of a route.
#[derive(Debug, PartialEq, Eq, Structural, Clone, Copy, PartialOrd, Ord, Hash)]
pub enum FlightType {
    NonExistingH2H,
    ExistingH2H,
    NonExistingH2N,
    NonExistingN2N,
    ExistingH2N,
    ExistingN2N,
}

/// Score that a route of this kind contributes.
pub open spec fn type_score(t: FlightType) -> int {
    match t {
        FlightType::NonExistingH2H => 6,
        FlightType::ExistingH2H => 5,
        FlightType::NonExistingH2N => 3,
        FlightType::NonExistingN2N => 2,
        FlightType::ExistingH2N => 1,
        FlightType::ExistingN2N => -1,
    }
}

/// Another airline already flies this route.
pub open spec fn is_existing(t: FlightType) -> bool {
    t == FlightType::ExistingH2H || t == FlightType::ExistingH2N || t == FlightType::ExistingN2N
}

/// The short code that the flight plan prints for a route kind.
pub open spec fn type_code(t: FlightType) -> Seq<char> {
    match t {
        FlightType::NonExistingH2H => seq!['H', '2', 'H', 'n'],
        FlightType::ExistingH2H => seq!['H', '2', 'H', 'e'],
        FlightType::NonExistingH2N => seq!['H', '2', 'N', 'n'],
        FlightType::NonExistingN2N => seq!['N', '2', 'N', 'n'],
        FlightType::ExistingH2N => seq!['H', '2', 'N', 'e'],
        FlightType::ExistingN2N => seq!['N', '2', 'N', 'e'],
    }
}

impl FlightType {
    /// Score of the route kind.
    pub fn score(self) -> (r: i8)
        ensures
            r == type_score(self),
    {
        match self {
            FlightType::NonExistingH2H => 6,
            FlightType::ExistingH2H => 5,
            FlightType::NonExistingH2N => 3,
            FlightType::NonExistingN2N => 2,
            FlightType::ExistingH2N => 1,
            FlightType::ExistingN2N => -1,
        }
    }

    /// Whether another airline already flies a route of this kind.
    pub fn existing(self) -> (r: bool)
        ensures
            r == is_existing(self),
    {
        match self {
            FlightType::ExistingH2H | FlightType::ExistingH2N | FlightType::ExistingN2N => true,
            _ => false,
        }
    }

    /// The code printed for the route kind: `H2Hn`, `H2He`, `H2Nn`, `N2Nn`,
    /// `H2Ne` or `N2Ne`.
    pub fn code(self) -> (r: Vec<char>)
        ensures
            r@ == type_code(self),
    {
        match self {
            FlightType::NonExistingH2H => vec!['H', '2', 'H', 'n'],
            FlightType::ExistingH2H => vec!['H', '2', 'H', 'e'],
            FlightType::NonExistingH2N => vec!['H', '2', 'N', 'n'],
            FlightType::NonExistingN2N => vec!['N', '2', 'N', 'n'],
            FlightType::ExistingH2N => vec!['H', '2', 'N', 'e'],
            FlightType::ExistingN2N => vec!['N', '2', 'N', 'e'],
        }
    }
}

} // verus!
