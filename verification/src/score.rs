//! Scores of candidate routes: the planner connects the best-scored pairs of
//! gates first.
use vstd::prelude::*;
use crate::config::{Config, is_hub};
use crate::flight_data::{FlightData, count_flights};
use crate::flight_type::{FlightType, type_score};
use crate::gate::Gate;
use crate::lists::{seq_has, contains_str, list_at_has, list_at_contains, some_group_has_both, any_group_has_both};

verus! {

/// The kind of the route from `a1` to `a2`.
pub open spec fn route_type(c: Config, fd: FlightData, a1: Seq<char>, a2: Seq<char>) -> FlightType {
    let existing = count_flights(fd.flights@, a1, a2) > 0;
    if is_hub(c, a1) {
        if is_hub(c, a2) {
            if existing { FlightType::ExistingH2H } else { FlightType::NonExistingH2H }
        } else if existing {
            FlightType::ExistingH2N
        } else {
            FlightType::NonExistingH2N
        }
    } else if is_hub(c, a2) {
        if existing { FlightType::ExistingH2N } else { FlightType::NonExistingH2N }
    } else if existing {
        FlightType::ExistingN2N
    } else {
        FlightType::NonExistingN2N
    }
}

/// A count taken as an `i8` keeps its low eight bits, read in two's
/// complement.
pub open spec fn low_i8(n: int) -> int {
    let m = n % 256;
    if m < 128 { m } else { m - 256 }
}

/// The score that the number of existing flights gives: one minus the count
/// (taken as an `i8`), and two where that is one.
pub open spec fn existing_flights_score(nf: nat) -> int {
    let s = 1 - low_i8(nf as int);
    if s == 1 { 2 } else { s }
}

/// The score of the route from `a1` to `a2`, computed without bounds.
pub open spec fn airports_score_value(c: Config, fd: FlightData, a1: Seq<char>, a2: Seq<char>) -> int {
    existing_flights_score(count_flights(fd.flights@, a1, a2))
        + type_score(route_type(c, fd, a1, a2))
        + (if some_group_has_both(c.preferred_between@, a1, a2) { 20int } else { 0int })
        + (if list_at_has(c.preferred_to@, a1, a2) { 20int } else { 0int })
        + (if list_at_has(c.preferred_to@, a2, a1) { 20int } else { 0int })
        + (if seq_has(fd.old_world_airports@, a1) != seq_has(fd.old_world_airports@, a2) { 3int } else { 0int })
}

/// Every step of the score's `i8` arithmetic stays in range: the count
/// taken as an `i8` is at least -126, and the total is at most 127 (the
/// steps after the first only add, but for the route kind's -1).
pub open spec fn airports_score_fits(c: Config, fd: FlightData, a1: Seq<char>, a2: Seq<char>) -> bool {
    low_i8(count_flights(fd.flights@, a1, a2) as int) >= -126 && airports_score_value(c, fd, a1, a2) <= 127
}

/// The score of a route between two gates, computed without bounds: the
/// airports' score, 2 more unless the first gate is of size `S`, 1 more when
/// the second is of size `XS`.
pub open spec fn gates_score_value(c: Config, fd: FlightData, g1: Gate, g2: Gate) -> int {
    airports_score_value(c, fd, g1.airport@, g2.airport@)
        + (if g1.size@ != "S"@ { 2int } else { 0int })
        + (if g2.size@ == "XS"@ { 1int } else { 0int })
}

/// The gates' score can be computed in `i8`.
pub open spec fn gates_score_fits(c: Config, fd: FlightData, g1: Gate, g2: Gate) -> bool {
    airports_score_fits(c, fd, g1.airport@, g2.airport@) && gates_score_value(c, fd, g1, g2) <= 127
}

/// A count taken as an `i8`, as a wider integer.
pub fn low_i8_of(n: usize) -> (r: i16)
    ensures
        r == low_i8(n as int),
        -128 <= r < 128,
{
    let m = (n % 256) as i16;
    if m < 128 { m } else { m - 256 }
}

impl Config {
    /// The kind of the route from `a1` to `a2`.
    pub fn airports_flight_type(&self, flight_data: &FlightData, a1: &String, a2: &String) -> (r: FlightType)
        ensures
            r == route_type(*self, *flight_data, a1@, a2@),
    {
        let existing = flight_data.num_flights(a1, a2) > 0;
        if self.is_hub(a1) {
            if self.is_hub(a2) {
                if existing { FlightType::ExistingH2H } else { FlightType::NonExistingH2H }
            } else if existing {
                FlightType::ExistingH2N
            } else {
                FlightType::NonExistingH2N
            }
        } else if self.is_hub(a2) {
            if existing { FlightType::ExistingH2N } else { FlightType::NonExistingH2N }
        } else if existing {
            FlightType::ExistingN2N
        } else {
            FlightType::NonExistingN2N
        }
    }

    /// The kind of the route between the airports of two gates.
    pub fn gates_flight_type(&self, flight_data: &FlightData, g1: &Gate, g2: &Gate) -> (r: FlightType)
        ensures
            r == route_type(*self, *flight_data, g1.airport@, g2.airport@),
    {
        self.airports_flight_type(flight_data, &g1.airport, &g2.airport)
    }

    /// The score without bounds, in a wide integer.
    fn airports_score_wide(&self, flight_data: &FlightData, a1: &String, a2: &String) -> (r: (i16, i16))
        ensures
            r.0 == low_i8(count_flights(flight_data.flights@, a1@, a2@) as int),
            r.1 == airports_score_value(*self, *flight_data, a1@, a2@),
    {
        let t = low_i8_of(flight_data.num_flights(a1, a2));
        let mut s: i16 = 1 - t;
        if s == 1 {
            s = s + 1;
        }
        s = s + self.airports_flight_type(flight_data, a1, a2).score() as i16;
        if any_group_has_both(&self.preferred_between, a1, a2) {
            s = s + 20;
        }
        if list_at_contains(&self.preferred_to, a1, a2) {
            s = s + 20;
        }
        if list_at_contains(&self.preferred_to, a2, a1) {
            s = s + 20;
        }
        if contains_str(&flight_data.old_world_airports, a1) != contains_str(&flight_data.old_world_airports, a2) {
            s = s + 3;
        }
        (t, s)
    }

    /// Whether the score of the route from `a1` to `a2` can be computed in
    /// `i8`.
    pub fn airports_score_in_range(&self, flight_data: &FlightData, a1: &String, a2: &String) -> (r: bool)
        ensures
            r == airports_score_fits(*self, *flight_data, a1@, a2@),
    {
        let (t, s) = self.airports_score_wide(flight_data, a1, a2);
        t >= -126 && s <= 127
    }

    /// The score of the route from `a1` to `a2`: one minus the number of
    /// flights that already run it (two where that is one), plus the route
    /// kind's score, 20 for each preference that names the pair, and 3 when
    /// the airports lie in different worlds.
    pub fn airports_score(&self, flight_data: &FlightData, a1: &String, a2: &String) -> (r: i8)
        requires
            airports_score_fits(*self, *flight_data, a1@, a2@),
        ensures
            r == airports_score_value(*self, *flight_data, a1@, a2@),
    {
        let (_t, s) = self.airports_score_wide(flight_data, a1, a2);
        s as i8
    }

    /// Whether the score of the route between two gates can be computed in
    /// `i8`.
    pub fn gates_score_in_range(&self, flight_data: &FlightData, g1: &Gate, g2: &Gate) -> (r: bool)
        ensures
            r == gates_score_fits(*self, *flight_data, *g1, *g2),
    {
        let (t, s) = self.airports_score_wide(flight_data, &g1.airport, &g2.airport);
        if t < -126 || s > 127 {
            return false;
        }
        let s2 = s + size_bonus(g1, g2);
        s2 <= 127
    }

    /// The score of the route between two gates: the airports' score, 2 more
    /// unless the first gate takes size `S`, 1 more when the second takes
    /// size `XS`.
    pub fn gates_score(&self, flight_data: &FlightData, g1: &Gate, g2: &Gate) -> (r: i8)
        requires
            gates_score_fits(*self, *flight_data, *g1, *g2),
        ensures
            r == gates_score_value(*self, *flight_data, *g1, *g2),
    {
        let (_t, s) = self.airports_score_wide(flight_data, &g1.airport, &g2.airport);
        (s + size_bonus(g1, g2)) as i8
    }
}

/// The part of the gates' score that their sizes give.
fn size_bonus(g1: &Gate, g2: &Gate) -> (r: i16)
    ensures
        r == (if g1.size@ != "S"@ { 2int } else { 0int }) + (if g2.size@ == "XS"@ { 1int } else { 0int }),
{
    let small = String::from_str("S");
    let extra_small = String::from_str("XS");
    let mut r: i16 = 0;
    if g1.size != small {
        r = r + 2;
    }
    if g2.size == extra_small {
        r = r + 1;
    }
    r
}

} // verus!

verus! {

/// Routes that fewer airlines fly score higher: for two snapshots of the
/// existing flights that agree on the airports' worlds, a pair of airports
/// that no other airline flies scores more than one that some airline flies,
/// and among flown pairs, more flights mean a lower score (counts up to 127,
/// where the count taken as an `i8` is the count itself).
pub proof fn fewer_flights_score_higher(c: Config, fd1: FlightData, fd2: FlightData, a1: Seq<char>, a2: Seq<char>)
    requires
        count_flights(fd1.flights@, a1, a2) < count_flights(fd2.flights@, a1, a2) <= 127,
        seq_has(fd1.old_world_airports@, a1) == seq_has(fd2.old_world_airports@, a1),
        seq_has(fd1.old_world_airports@, a2) == seq_has(fd2.old_world_airports@, a2),
    ensures
        airports_score_value(c, fd1, a1, a2) > airports_score_value(c, fd2, a1, a2),
{
    let n1 = count_flights(fd1.flights@, a1, a2);
    let n2 = count_flights(fd2.flights@, a1, a2);
    assert(low_i8(n1 as int) == n1 as int);
    assert(low_i8(n2 as int) == n2 as int);
}

/// The world bonus: with the same existing flights, the score of a route
/// between two airports changes with the old-world list only by the bonus
/// of 3, which a route has exactly when one of its airports is in the old
/// world and the other is not. Two airports of the same world (both old or
/// both new) score the same as with no old-world airport at all.
pub proof fn world_bonus(c: Config, fd1: FlightData, fd2: FlightData, a1: Seq<char>, a2: Seq<char>)
    requires
        fd1.flights@ == fd2.flights@,
    ensures
        airports_score_value(c, fd2, a1, a2) - airports_score_value(c, fd1, a1, a2) == (if seq_has(
            fd2.old_world_airports@,
            a1,
        ) != seq_has(fd2.old_world_airports@, a2) {
            3int
        } else {
            0int
        }) - (if seq_has(fd1.old_world_airports@, a1) != seq_has(fd1.old_world_airports@, a2) {
            3int
        } else {
            0int
        }),
        fd2.old_world_airports@.len() == 0 ==> (seq_has(fd1.old_world_airports@, a1) == seq_has(
            fd1.old_world_airports@,
            a2,
        ) <==> airports_score_value(c, fd1, a1, a2) == airports_score_value(c, fd2, a1, a2)),
{
    assert(!seq_has(fd2.old_world_airports@, a1) || fd2.old_world_airports@.len() > 0);
    assert(!seq_has(fd2.old_world_airports@, a2) || fd2.old_world_airports@.len() > 0);
}

} // verus!
