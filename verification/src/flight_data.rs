//! Flights that other airlines already run, and the airports of the two
//! worlds of the server.
use vstd::prelude::*;
use crate::config::{Config, is_hub, views, first_occurrences, gate_airports, hub_list};
use crate::gate::Gate;
use crate::lists::{seq_has, contains_str, has_key, find_key};

verus! {

/// A flight of another airline.
#[derive(Clone, Debug)]
pub struct FlightDataFlight {
    pub airline: String,
    pub flight_number: String,
    pub from_airport: String,
    pub to_airport: String,
}

/// What is known of the existing flight network.
#[derive(Clone, Debug)]
pub struct FlightData {
    pub flights: Vec<FlightDataFlight>,
    pub old_world_airports: Vec<String>,
    pub new_world_airports: Vec<String>,
    pub timestamp: u64,
}

/// Number of flights in `fs` from airport `a` to airport `b`.
pub open spec fn count_flights(fs: Seq<FlightDataFlight>, a: Seq<char>, b: Seq<char>) -> nat
    decreases fs.len(),
{
    if fs.len() == 0 {
        0
    } else {
        count_flights(fs.drop_last(), a, b) + (if fs.last().from_airport@ == a
            && fs.last().to_airport@ == b {
            1nat
        } else {
            0nat
        })
    }
}

impl FlightData {
    /// Number of known flights from `from` to `to`.
    pub fn num_flights(&self, from: &String, to: &String) -> (r: usize)
        ensures
            r == count_flights(self.flights@, from@, to@),
    {
        let mut n: usize = 0;
        let mut i: usize = 0;
        while i < self.flights.len()
            invariant
                i <= self.flights.len(),
                n == count_flights(self.flights@.take(i as int), from@, to@),
                n <= i,
            decreases self.flights.len() - i,
        {
            proof {
                assert(self.flights@.take(i + 1).drop_last() =~= self.flights@.take(i as int));
            }
            if self.flights[i].from_airport == *from && self.flights[i].to_airport == *to {
                n = n + 1;
            }
            i = i + 1;
        }
        proof {
            assert(self.flights@.take(i as int) =~= self.flights@);
        }
        n
    }
}

/// The airlines whose flights the planner ignores: those listed, or the
/// airline itself where none is.
pub open spec fn ignored_list(c: Config) -> Seq<String> {
    if c.ignored_airlines.len() == 0 { seq![c.airline_name] } else { c.ignored_airlines@ }
}

/// The flights of `fs` whose airline is not in `ignored`, in order.
pub open spec fn kept_flights(fs: Seq<FlightDataFlight>, ignored: Seq<String>) -> Seq<FlightDataFlight>
    decreases fs.len(),
{
    if fs.len() == 0 {
        seq![]
    } else if seq_has(ignored, fs.last().airline@) {
        kept_flights(fs.drop_last(), ignored)
    } else {
        kept_flights(fs.drop_last(), ignored).push(fs.last())
    }
}

/// The airports of `s` that lie in neither world, in order.
pub open spec fn unknown_in(fd: FlightData, s: Seq<Seq<char>>) -> Seq<Seq<char>>
    decreases s.len(),
{
    if s.len() == 0 {
        seq![]
    } else if !seq_has(fd.new_world_airports@, s.last()) && !seq_has(fd.old_world_airports@, s.last()) {
        unknown_in(fd, s.drop_last()).push(s.last())
    } else {
        unknown_in(fd, s.drop_last())
    }
}

/// The airports of a list whose world flag is `old`, in order.
pub open spec fn airports_of_world(a: Seq<(String, bool)>, old_world: bool) -> Seq<String>
    decreases a.len(),
{
    if a.len() == 0 {
        seq![]
    } else if a.last().1 == old_world {
        airports_of_world(a.drop_last(), old_world).push(a.last().0)
    } else {
        airports_of_world(a.drop_last(), old_world)
    }
}

/// The airports of `s` without a range of flight numbers for their routes
/// to other airports, in order and with repeats.
pub open spec fn without_range(c: Config, s: Seq<Seq<char>>) -> Seq<Seq<char>>
    decreases s.len(),
{
    if s.len() == 0 {
        seq![]
    } else if has_key(c.range_h2n@, s.last()) {
        without_range(c, s.drop_last())
    } else {
        without_range(c, s.drop_last()).push(s.last())
    }
}

/// Why the flight data does not fit the configuration.
#[derive(Debug)]
pub enum PreprocessError {
    /// These hubs have no range of flight numbers for their routes to other
    /// airports.
    MissingRanges(Vec<String>),
}

impl FlightData {
    /// The flight data of the given flights and airports, each airport with
    /// whether it lies in the old world.
    pub fn from_parts(flights: Vec<FlightDataFlight>, airports: &Vec<(String, bool)>, timestamp: u64) -> (r: FlightData)
        ensures
            r.flights == flights,
            r.old_world_airports@ == airports_of_world(airports@, true),
            r.new_world_airports@ == airports_of_world(airports@, false),
            r.timestamp == timestamp,
    {
        let mut old_world: Vec<String> = Vec::new();
        let mut new_world: Vec<String> = Vec::new();
        let mut i: usize = 0;
        while i < airports.len()
            invariant
                i <= airports.len(),
                old_world@ == airports_of_world(airports@.take(i as int), true),
                new_world@ == airports_of_world(airports@.take(i as int), false),
            decreases airports.len() - i,
        {
            proof {
                assert(airports@.take(i + 1).drop_last() =~= airports@.take(i as int));
                assert(airports@.take(i + 1).last() == airports@[i as int]);
            }
            if airports[i].1 {
                old_world.push(airports[i].0.clone());
            } else {
                new_world.push(airports[i].0.clone());
            }
            i = i + 1;
        }
        proof {
            assert(airports@.take(i as int) =~= airports@);
        }
        FlightData { flights, old_world_airports: old_world, new_world_airports: new_world, timestamp }
    }

    /// Drops the flights of ignored airlines, then checks that every hub has
    /// a range of flight numbers for its routes to other airports.
    pub fn preprocess(&mut self, config: &Config) -> (r: Result<(), PreprocessError>)
        ensures
            final(self).flights@ == kept_flights(old(self).flights@, ignored_list(*config)),
            final(self).old_world_airports == old(self).old_world_airports,
            final(self).new_world_airports == old(self).new_world_airports,
            final(self).timestamp == old(self).timestamp,
            r is Ok <==> forall|a: Seq<char>| is_hub(*config, a) ==> has_key(config.range_h2n@, a),
            r is Ok <==> without_range(*config, hub_list(*config)).len() == 0,
            r matches Err(PreprocessError::MissingRanges(v)) ==> views(v@) == without_range(*config, hub_list(*config)),
            r matches Err(PreprocessError::MissingRanges(v)) ==> forall|a: Seq<char>|
                seq_has(v@, a) <==> (is_hub(*config, a) && !has_key(config.range_h2n@, a)),
    {
        let ignored = config.ignored_airlines();
        let mut kept: Vec<FlightDataFlight> = Vec::new();
        let mut i: usize = 0;
        while i < self.flights.len()
            invariant
                i <= self.flights.len(),
                ignored@ == ignored_list(*config),
                kept@ == kept_flights(self.flights@.take(i as int), ignored@),
            decreases self.flights.len() - i,
        {
            proof {
                assert(self.flights@.take(i + 1).drop_last() =~= self.flights@.take(i as int));
                assert(self.flights@.take(i + 1).last() == self.flights@[i as int]);
            }
            if !contains_str(&ignored, &self.flights[i].airline) {
                kept.push(self.flights[i].clone_flight());
            }
            i = i + 1;
        }
        proof {
            assert(self.flights@.take(i as int) =~= self.flights@);
        }
        self.flights = kept;
        let hubs = config.hubs();
        let mut missing: Vec<String> = Vec::new();
        let mut k: usize = 0;
        while k < hubs.len()
            invariant
                k <= hubs.len(),
                forall|a: Seq<char>| seq_has(hubs@, a) <==> is_hub(*config, a),
                views(hubs@) == hub_list(*config),
                views(missing@) == without_range(*config, views(hubs@).take(k as int)),
                forall|a: Seq<char>| seq_has(missing@, a) <==> (exists|j: int| 0 <= j < k && #[trigger] hubs@[j]@ == a && !has_key(config.range_h2n@, a)),
            decreases hubs.len() - k,
        {
            proof {
                assert(views(hubs@).take(k + 1).drop_last() =~= views(hubs@).take(k as int));
                assert(views(hubs@).take(k + 1).last() == hubs@[k as int]@);
            }
            if find_key(&config.range_h2n, &hubs[k]).is_none() {
                let ghost m0 = missing@;
                missing.push(hubs[k].clone());
                proof {
                    assert(views(missing@) =~= views(m0).push(hubs@[k as int]@));
                    assert forall|a: Seq<char>| seq_has(missing@, a) <==> (exists|j: int| 0 <= j < k + 1 && #[trigger] hubs@[j]@ == a && !has_key(config.range_h2n@, a)) by {
                        if seq_has(missing@, a) {
                            let q = choose|q: int| 0 <= q < missing@.len() && #[trigger] missing@[q]@ == a;
                            if q < m0.len() {
                                assert(m0[q]@ == a);
                                assert(seq_has(m0, a));
                            } else {
                                assert(hubs@[k as int]@ == a);
                            }
                        }
                        if exists|j: int| 0 <= j < k + 1 && #[trigger] hubs@[j]@ == a && !has_key(config.range_h2n@, a) {
                            let j = choose|j: int| 0 <= j < k + 1 && #[trigger] hubs@[j]@ == a && !has_key(config.range_h2n@, a);
                            if j < k {
                                assert(seq_has(m0, a));
                                let q = choose|q: int| 0 <= q < m0.len() && #[trigger] m0[q]@ == a;
                                assert(missing@[q]@ == a);
                            } else {
                                assert(missing@[m0.len() as int]@ == a);
                            }
                        }
                    }
                }
            } else {
                proof {
                    assert forall|a: Seq<char>| seq_has(missing@, a) <==> (exists|j: int| 0 <= j < k + 1 && #[trigger] hubs@[j]@ == a && !has_key(config.range_h2n@, a)) by {
                        if exists|j: int| 0 <= j < k + 1 && #[trigger] hubs@[j]@ == a && !has_key(config.range_h2n@, a) {
                            let j = choose|j: int| 0 <= j < k + 1 && #[trigger] hubs@[j]@ == a && !has_key(config.range_h2n@, a);
                            assert(j < k);
                        }
                    }
                }
            }
            k = k + 1;
        }
        proof {
            assert(views(hubs@).take(k as int) =~= views(hubs@));
            assert(views(missing@).len() == missing@.len());
            assert forall|a: Seq<char>| seq_has(missing@, a) <==> (is_hub(*config, a) && !has_key(config.range_h2n@, a)) by {
                if is_hub(*config, a) && !has_key(config.range_h2n@, a) {
                    assert(seq_has(hubs@, a));
                    let j = choose|j: int| 0 <= j < hubs@.len() && #[trigger] hubs@[j]@ == a;
                    assert(hubs@[j]@ == a);
                }
            }
        }
        if missing.len() > 0 {
            proof {
                assert(seq_has(missing@, missing@[0]@));
                assert(is_hub(*config, missing@[0]@) && !has_key(config.range_h2n@, missing@[0]@));
            }
            Err(PreprocessError::MissingRanges(missing))
        } else {
            proof {
                assert forall|a: Seq<char>| is_hub(*config, a) implies has_key(config.range_h2n@, a) by {
                    if !has_key(config.range_h2n@, a) {
                        assert(seq_has(missing@, a));
                    }
                }
            }
            Ok(())
        }
    }

    /// The configuration's airports (each once, in the order of their first
    /// gate) that lie in neither world.
    pub fn unknown_airports(&self, config: &Config) -> (r: Vec<String>)
        ensures
            views(r@) == unknown_in(*self, first_occurrences(gate_airports(config.gates@))),
    {
        let airports = config.airports();
        let ghost av = views(airports@);
        let mut r: Vec<String> = Vec::new();
        let mut i: usize = 0;
        while i < airports.len()
            invariant
                i <= airports.len(),
                av == views(airports@),
                views(r@) == unknown_in(*self, av.take(i as int)),
            decreases airports.len() - i,
        {
            proof {
                assert(av.take(i + 1).drop_last() =~= av.take(i as int));
                assert(av.take(i + 1).last() == airports@[i as int]@);
            }
            if !contains_str(&self.new_world_airports, &airports[i]) && !contains_str(&self.old_world_airports, &airports[i]) {
                let ghost r0 = r@;
                r.push(airports[i].clone());
                proof {
                    assert(views(r@) =~= views(r0).push(airports@[i as int]@));
                }
            }
            i = i + 1;
        }
        proof {
            assert(av.take(i as int) =~= av);
        }
        r
    }
}

impl FlightDataFlight {
    /// A copy of the flight.
    pub fn clone_flight(&self) -> (r: FlightDataFlight)
        ensures
            r == *self,
    {
        FlightDataFlight {
            airline: self.airline.clone(),
            flight_number: self.flight_number.clone(),
            from_airport: self.from_airport.clone(),
            to_airport: self.to_airport.clone(),
        }
    }
}

/// The listed hubs that have no gate, in order.
pub open spec fn hubs_without_gates(c: Config) -> Seq<Seq<char>> {
    if c.hubs.len() == 0 {
        seq![]
    } else {
        missing_airports(views(c.hubs@), gate_airports(c.gates@))
    }
}

/// The elements of `s` that `known` does not hold, in order.
pub open spec fn missing_airports(s: Seq<Seq<char>>, known: Seq<Seq<char>>) -> Seq<Seq<char>>
    decreases s.len(),
{
    if s.len() == 0 {
        seq![]
    } else if known.contains(s.last()) {
        missing_airports(s.drop_last(), known)
    } else {
        missing_airports(s.drop_last(), known).push(s.last())
    }
}

impl Config {
    /// The listed hubs that have no gate, in order (none where hubs are not
    /// listed, as every hub found by its gates has some).
    pub fn hubs_without_gates(&self) -> (r: Vec<String>)
        ensures
            views(r@) == hubs_without_gates(*self),
    {
        let mut r: Vec<String> = Vec::new();
        if self.hubs.len() == 0 {
            proof {
                assert(views(r@) =~= Seq::<Seq<char>>::empty());
            }
            return r;
        }
        let ghost hv = views(self.hubs@);
        let ghost ga = gate_airports(self.gates@);
        let mut i: usize = 0;
        while i < self.hubs.len()
            invariant
                i <= self.hubs.len(),
                hv == views(self.hubs@),
                ga == gate_airports(self.gates@),
                views(r@) == missing_airports(hv.take(i as int), ga),
            decreases self.hubs.len() - i,
        {
            proof {
                assert(hv.take(i + 1).drop_last() =~= hv.take(i as int));
                assert(hv.take(i + 1).last() == self.hubs@[i as int]@);
            }
            if !has_gate(&self.gates, &self.hubs[i]) {
                let ghost r0 = r@;
                r.push(self.hubs[i].clone());
                proof {
                    assert(views(r@) =~= views(r0).push(self.hubs@[i as int]@));
                }
            }
            i = i + 1;
        }
        proof {
            assert(hv.take(i as int) =~= hv);
        }
        r
    }
}

/// Whether some gate belongs to airport `a`.
fn has_gate(gates: &Vec<Gate>, a: &String) -> (r: bool)
    ensures
        r == gate_airports(gates@).contains(a@),
{
    let mut i: usize = 0;
    while i < gates.len()
        invariant
            i <= gates.len(),
            forall|k: int| 0 <= k < i ==> #[trigger] gates@[k].airport@ != a@,
        decreases gates.len() - i,
    {
        if gates[i].airport == *a {
            proof {
                assert(gate_airports(gates@)[i as int] == a@);
            }
            return true;
        }
        i = i + 1;
    }
    proof {
        if gate_airports(gates@).contains(a@) {
            let k = choose|k: int| 0 <= k < gate_airports(gates@).len() && gate_airports(gates@)[k] == a@;
            assert(gates@[k].airport@ == a@);
        }
    }
    false
}

} // verus!

verus! {

/// After preprocessing no flight of an ignored airline remains, and every
/// other flight does, in order.
pub proof fn kept_flights_exclude_ignored(fs: Seq<FlightDataFlight>, ignored: Seq<String>)
    ensures
        forall|k: int| 0 <= k < kept_flights(fs, ignored).len() ==> !seq_has(ignored, #[trigger] kept_flights(fs, ignored)[k].airline@),
        forall|k: int| 0 <= k < fs.len() && !seq_has(ignored, #[trigger] fs[k].airline@) ==> kept_flights(fs, ignored).contains(fs[k]),
    decreases fs.len(),
{
    if fs.len() > 0 {
        kept_flights_exclude_ignored(fs.drop_last(), ignored);
        let d = kept_flights(fs.drop_last(), ignored);
        assert forall|k: int| 0 <= k < fs.len() && !seq_has(ignored, #[trigger] fs[k].airline@) implies kept_flights(fs, ignored).contains(fs[k]) by {
            if k < fs.len() - 1 {
                assert(fs.drop_last()[k] == fs[k]);
                assert(d.contains(fs[k]));
                let j = choose|j: int| 0 <= j < d.len() && d[j] == fs[k];
                if !seq_has(ignored, fs.last().airline@) {
                    assert(d.push(fs.last())[j] == fs[k]);
                }
            } else {
                assert(kept_flights(fs, ignored) == d.push(fs.last()));
                assert(d.push(fs.last())[d.len() as int] == fs[k]);
            }
        }
    }
}

/// Preprocessing again changes nothing: the flights that remain are kept
/// again, and the result depends on the configuration alone, so a second
/// call gives the same outcome and the same list of hubs.
pub proof fn preprocess_twice_changes_nothing(fs: Seq<FlightDataFlight>, ignored: Seq<String>)
    ensures
        kept_flights(kept_flights(fs, ignored), ignored) == kept_flights(fs, ignored),
    decreases fs.len(),
{
    if fs.len() > 0 {
        preprocess_twice_changes_nothing(fs.drop_last(), ignored);
        let d = kept_flights(fs.drop_last(), ignored);
        if !seq_has(ignored, fs.last().airline@) {
            assert(d.push(fs.last()).drop_last() =~= d);
        }
    }
}

} // verus!
