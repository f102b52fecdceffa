//! Scores and route kinds of pairs of airports and of pairs of gates, as
//! methods of the pairs.
use vstd::prelude::*;
use crate::config::Config;
use crate::flight_data::FlightData;
use crate::flight_type::FlightType;
use crate::gate::Gate;
use crate::score::{route_type, airports_score_value, airports_score_fits};

verus! {

/// Score and route kind of a pair.
pub trait FlightUtils {
    /// The pair's score, computed without bounds.
    spec fn score_value(&self, config: Config, flight_data: FlightData) -> int;

    /// The pair's route kind.
    spec fn flight_type_of(&self, config: Config, flight_data: FlightData) -> FlightType;

    /// The score can be computed in `i8`.
    spec fn score_fits(&self, config: Config, flight_data: FlightData) -> bool;

    /// The pair's score.
    fn score(&self, config: &Config, flight_data: &FlightData) -> (r: i8)
        requires
            self.score_fits(*config, *flight_data),
        ensures
            r == self.score_value(*config, *flight_data),
    ;

    /// The pair's route kind.
    fn get_flight_type(&self, config: &Config, flight_data: &FlightData) -> (r: FlightType)
        ensures
            r == self.flight_type_of(*config, *flight_data),
    ;
}

impl<'a> FlightUtils for (&'a String, &'a String) {
    /// The airports' score.
    open spec fn score_value(&self, config: Config, flight_data: FlightData) -> int {
        airports_score_value(config, flight_data, self.0@, self.1@)
    }

    open spec fn flight_type_of(&self, config: Config, flight_data: FlightData) -> FlightType {
        route_type(config, flight_data, self.0@, self.1@)
    }

    open spec fn score_fits(&self, config: Config, flight_data: FlightData) -> bool {
        airports_score_fits(config, flight_data, self.0@, self.1@)
    }

    fn score(&self, config: &Config, flight_data: &FlightData) -> (r: i8) {
        config.airports_score(flight_data, self.0, self.1)
    }

    fn get_flight_type(&self, config: &Config, flight_data: &FlightData) -> (r: FlightType) {
        config.airports_flight_type(flight_data, self.0, self.1)
    }
}

/// The part of a gate pair's score that the first gate's size gives: 2
/// unless it is `S`, 1 more when it is `XS`.
pub open spec fn first_size_bonus(g: Gate) -> int {
    (if g.size@ != "S"@ { 2int } else { 0int }) + (if g.size@ == "XS"@ { 1int } else { 0int })
}

impl<'a> FlightUtils for (&'a Gate, &'a Gate) {
    /// The score of the gates' airports, plus the first gate's size bonus.
    open spec fn score_value(&self, config: Config, flight_data: FlightData) -> int {
        airports_score_value(config, flight_data, self.0.airport@, self.1.airport@) + first_size_bonus(*self.0)
    }

    open spec fn flight_type_of(&self, config: Config, flight_data: FlightData) -> FlightType {
        route_type(config, flight_data, self.0.airport@, self.1.airport@)
    }

    open spec fn score_fits(&self, config: Config, flight_data: FlightData) -> bool {
        airports_score_fits(config, flight_data, self.0.airport@, self.1.airport@) && airports_score_value(
            config,
            flight_data,
            self.0.airport@,
            self.1.airport@,
        ) + first_size_bonus(*self.0) <= 127
    }

    fn score(&self, config: &Config, flight_data: &FlightData) -> (r: i8) {
        let s = config.airports_score(flight_data, &self.0.airport, &self.1.airport) as i16;
        let small = String::from_str("S");
        let extra_small = String::from_str("XS");
        let mut b: i16 = 0;
        if self.0.size != small {
            b = b + 2;
        }
        if self.0.size == extra_small {
            b = b + 1;
        }
        (s + b) as i8
    }

    fn get_flight_type(&self, config: &Config, flight_data: &FlightData) -> (r: FlightType) {
        config.airports_flight_type(flight_data, &self.0.airport, &self.1.airport)
    }
}

/// The score and route kind of a pair of airports are those of
/// `Config::airports_score` and `Config::airports_flight_type`, and the pair
/// can be scored exactly when `airports_score` can. For a pair of gates the
/// route kind is `gates_flight_type`'s.
pub proof fn pair_methods_agree(c: Config, fd: FlightData, a1: String, a2: String, g1: Gate, g2: Gate)
    ensures
        (&a1, &a2).score_value(c, fd) == airports_score_value(c, fd, a1@, a2@),
        (&a1, &a2).score_fits(c, fd) == airports_score_fits(c, fd, a1@, a2@),
        (&a1, &a2).flight_type_of(c, fd) == route_type(c, fd, a1@, a2@),
        (&g1, &g2).flight_type_of(c, fd) == route_type(c, fd, g1.airport@, g2.airport@),
{
}

} // verus!
