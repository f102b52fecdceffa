//! The planner: it ranks every pair of gates that may be connected, then
//! walks the ranking and opens a pair of flights (one each way) for each pair
//! of gates that the limits still admit, with numbers from the dispenser of
//! the route kind.
use vstd::prelude::*;
use itertools::Itertools;
use crate::config::{Config, is_hub, valid_flight};
use crate::flight::Flight;
use crate::flight_data::FlightData;
use crate::flight_type::FlightType;
use crate::fng::{FlightNumberGenerator, GenView, gen_find, new_gen};
use crate::gate::{Gate, same_gate};
use crate::lists::{lookup, has_key, key_at, find_key, lemma_key_at};
use crate::score::{route_type, gates_score_value, gates_score_fits, low_i8, low_i8_of};

verus! {

/// Why the planner stopped.
#[derive(Debug)]
pub enum RunError {
    /// The dispenser of a route kind ran out of numbers for the flight from
    /// `from` to `to`.
    NoFlightNumber { from: String, to: String },
    /// A score left the range of `i8`.
    ScoreOverflow,
    /// No flight number range is configured for the hub-to-airport route
    /// touching `airport`.
    MissingH2nRange { airport: String },
}

/// A ranked pair of gates: the negated score (one more for a pair that the
/// previous plan served), then the indices of the two gates.
pub type Candidate = (i16, usize, usize);

/// Flight `f` goes from gate `g1` to gate `g2` (by airport and gate code).
pub open spec fn same_endpoints(f: Flight, g1: Gate, g2: Gate) -> bool {
    &&& f.airport1.0@ == g1.airport@
    &&& f.airport1.1@ == g1.code@
    &&& f.airport2.0@ == g2.airport@
    &&& f.airport2.1@ == g2.code@
}

/// The previous plan had a flight between gates `g1` and `g2`, either way.
pub open spec fn previously_planned(prev: Option<Seq<Flight>>, g1: Gate, g2: Gate) -> bool {
    match prev {
        Some(fs) => joins_gates(fs, g1, g2),
        None => false,
    }
}

/// Some flight of `fs` goes between gates `g1` and `g2`, either way.
pub open spec fn joins_gates(fs: Seq<Flight>, g1: Gate, g2: Gate) -> bool {
    exists|k: int| 0 <= k < fs.len() && (same_endpoints(#[trigger] fs[k], g1, g2) || same_endpoints(fs[k], g2, g1))
}

/// The plans given as an optional list, as an optional sequence.
pub open spec fn plan_view(prev: Option<&Vec<Flight>>) -> Option<Seq<Flight>> {
    match prev {
        Some(v) => Some(v@),
        None => None,
    }
}

/// The ranking key of gates `i` and `j`: their score, one more where the
/// previous plan served them, negated.
pub open spec fn rank_key(c: Config, fd: FlightData, prev: Option<Seq<Flight>>, i: int, j: int) -> int {
    let g1 = c.gates@[i];
    let g2 = c.gates@[j];
    -(gates_score_value(c, fd, g1, g2) + (if previously_planned(prev, g1, g2) { 1int } else { 0int }))
}

/// `t` ranks the valid pair of gates `t.1 < t.2` under its key.
pub open spec fn is_candidate(c: Config, fd: FlightData, prev: Option<Seq<Flight>>, t: Candidate) -> bool {
    &&& t.1 < t.2 < c.gates.len()
    &&& valid_flight(c, fd, c.gates@[t.1 as int], c.gates@[t.2 as int])
    &&& t.0 == rank_key(c, fd, prev, t.1 as int, t.2 as int)
}

/// `a` comes before `b`: a smaller key (a higher score), then smaller gate
/// indices.
pub open spec fn ranks_before(a: Candidate, b: Candidate) -> bool {
    ||| a.0 < b.0
    ||| a.0 == b.0 && a.1 < b.1
    ||| a.0 == b.0 && a.1 == b.1 && a.2 < b.2
}

/// `r` lists every candidate once, best first.
pub open spec fn is_ranking(c: Config, fd: FlightData, prev: Option<Seq<Flight>>, r: Seq<Candidate>) -> bool {
    &&& forall|k: int, l: int| 0 <= k < l < r.len() ==> ranks_before(r[k], r[l])
    &&& forall|t: Candidate| r.contains(t) <==> is_candidate(c, fd, prev, t)
}

/// The score of some pair of gates that may be connected leaves `i8`.
pub open spec fn some_score_overflows(c: Config, fd: FlightData) -> bool {
    exists|i: int, j: int|
        0 <= i < j < c.gates.len() && valid_flight(c, fd, c.gates@[i], c.gates@[j])
            && !gates_score_fits(c, fd, c.gates@[i], c.gates@[j])
}

/// Gate `j` is the first gate of the list that equals gate `i`.
pub open spec fn canon_at(gs: Seq<Gate>, i: int, j: int) -> bool {
    &&& 0 <= j <= i < gs.len()
    &&& same_gate(gs[j], gs[i])
    &&& forall|k: int| 0 <= k < j ==> !same_gate(#[trigger] gs[k], gs[i])
}

/// The first gate of the list that equals gate `i`: gates that are equal
/// share their destinations.
pub open spec fn canon(gs: Seq<Gate>, i: int) -> int {
    choose|j: int| canon_at(gs, i, j)
}

/// The planner's state: the destinations of each gate (kept at the first
/// equal gate), the flights made until now, and the number dispensers.
pub struct PlanView {
    pub dests: Seq<Seq<String>>,
    pub flights: Seq<Flight>,
    pub h2h: GenView,
    pub n2n: GenView,
    pub h2n: Seq<(String, GenView)>,
}

/// The state before the first pair of gates.
pub open spec fn initial_plan(c: Config) -> PlanView {
    PlanView {
        dests: Seq::new(c.gates.len() as nat, |k: int| Seq::<String>::empty()),
        flights: seq![],
        h2h: new_gen(c.range_h2h@),
        n2n: new_gen(c.range_n2n@),
        h2n: seq![],
    }
}

/// Destinations that a gate may have before the planner stops considering
/// it: its airport's configured maximum, or 255.
pub open spec fn dest_limit(c: Config, g: Gate) -> int {
    match lookup(c.max_dests_per_gate@, g.airport@) {
        Some(n) => n as int,
        None => 255,
    }
}

/// Destinations that a gate may have: its airport's configured maximum, or
/// the hard maximum for hubs or for other airports.
pub open spec fn hard_limit(c: Config, g: Gate) -> int {
    match lookup(c.max_dests_per_gate@, g.airport@) {
        Some(n) => n as int,
        None => if is_hub(c, g.airport@) { c.hard_max_hub as int } else { c.hard_max_nonhub as int },
    }
}

/// Hub-to-hub route kinds.
pub open spec fn is_h2h(t: FlightType) -> bool {
    t == FlightType::ExistingH2H || t == FlightType::NonExistingH2H
}

/// Airport-to-airport route kinds (neither end a hub).
pub open spec fn is_n2n(t: FlightType) -> bool {
    t == FlightType::ExistingN2N || t == FlightType::NonExistingN2N
}

/// Destinations of one route kind that a gate may have.
pub open spec fn type_limit(c: Config, t: FlightType, g: Gate) -> int {
    if is_h2h(t) {
        c.max_h2h as int
    } else if is_n2n(t) {
        c.max_n2n as int
    } else if is_hub(c, g.airport@) {
        c.max_h2n_hub as int
    } else {
        c.max_h2n_nonhub as int
    }
}

/// Number of destinations in `ds` to which a route from `a` is of kind `t`.
pub open spec fn count_of_type(c: Config, fd: FlightData, a: Seq<char>, ds: Seq<String>, t: FlightType) -> nat
    decreases ds.len(),
{
    if ds.len() == 0 {
        0
    } else {
        count_of_type(c, fd, a, ds.drop_last(), t) + (if route_type(c, fd, a, ds.last()@) == t {
            1nat
        } else {
            0nat
        })
    }
}

/// Some flight already joins airports `a1` and `a2`, either way.
pub open spec fn route_taken(fs: Seq<Flight>, a1: Seq<char>, a2: Seq<char>) -> bool {
    exists|k: int|
        0 <= k < fs.len() && ((#[trigger] fs[k].airport1.0@ == a1 && fs[k].airport2.0@ == a2) || (
        fs[k].airport1.0@ == a2 && fs[k].airport2.0@ == a1))
}

/// Two numbers from a dispenser: the first, then the same again or the next.
pub open spec fn draw_numbers(g: GenView, fs: Seq<Flight>, same: bool) -> (Option<u16>, Option<u16>, GenView) {
    let (n1, p1) = gen_find(g.nums, g.pos, fs);
    if same {
        (n1, n1, GenView { nums: g.nums, pos: p1 })
    } else {
        let (n2, p2) = gen_find(g.nums, p1, fs);
        (n1, n2, GenView { nums: g.nums, pos: p2 })
    }
}

/// The flight with number `n` from gate `g1` to gate `g2`.
pub open spec fn make_flight(n: u16, g1: Gate, g2: Gate, s: int, t: FlightType) -> Flight {
    Flight {
        number: n,
        airport1: (g1.airport, g1.code),
        airport2: (g2.airport, g2.code),
        size: g1.size,
        score: s as i8,
        ty: t,
    }
}

/// The two flights between `g1` and `g2`, or the error for the first number
/// that is missing.
pub open spec fn add_flights(
    st: PlanView,
    g1: Gate,
    g2: Gate,
    s: int,
    t: FlightType,
    n1: Option<u16>,
    n2: Option<u16>,
) -> Result<PlanView, RunError> {
    match n1 {
        None => Err(RunError::NoFlightNumber { from: g1.airport, to: g2.airport }),
        Some(x) => match n2 {
            None => Err(RunError::NoFlightNumber { from: g2.airport, to: g1.airport }),
            Some(y) => Ok(
                PlanView {
                    flights: st.flights.push(make_flight(x, g1, g2, s, t)).push(make_flight(y, g2, g1, s, t)),
                    ..st
                },
            ),
        },
    }
}

/// The dispenser list with dispenser `g` stored under `key`.
pub open spec fn put_gen(m: Seq<(String, GenView)>, key: String, g: GenView) -> Seq<(String, GenView)> {
    if has_key(m, key@) {
        let i = choose|i: int| key_at(m, key@, i);
        m.update(i, (m[i].0, g))
    } else {
        m.push((key, g))
    }
}

/// Numbers for the flights between `g1` and `g2`, from the dispenser of the
/// route kind: hub to hub, airport to airport, or the dispenser of the hub
/// (created from its ranges on first use).
pub open spec fn assign_numbers(c: Config, st: PlanView, g1: Gate, g2: Gate, s: int, t: FlightType) -> Result<PlanView, RunError> {
    let same = c.both_dir_same_num;
    if is_h2h(t) {
        let (n1, n2, g) = draw_numbers(st.h2h, st.flights, same);
        add_flights(PlanView { h2h: g, ..st }, g1, g2, s, t, n1, n2)
    } else if is_n2n(t) {
        let (n1, n2, g) = draw_numbers(st.n2n, st.flights, same);
        add_flights(PlanView { n2n: g, ..st }, g1, g2, s, t, n1, n2)
    } else {
        let key = if has_key(c.range_h2n@, g1.airport@) { g1.airport } else { g2.airport };
        match lookup(st.h2n, key@) {
            Some(gen) => {
                let (n1, n2, g) = draw_numbers(gen, st.flights, same);
                add_flights(PlanView { h2n: put_gen(st.h2n, key, g), ..st }, g1, g2, s, t, n1, n2)
            },
            None => match lookup(c.range_h2n@, key@) {
                None => Err(RunError::MissingH2nRange { airport: g2.airport }),
                Some(ranges) => {
                    let (n1, n2, g) = draw_numbers(new_gen(ranges@), st.flights, same);
                    add_flights(PlanView { h2n: st.h2n.push((key, g)), ..st }, g1, g2, s, t, n1, n2)
                },
            },
        }
    }
}

/// The gates of candidate `t`, the hub first where exactly the second of the
/// pair is one.
pub open spec fn oriented(c: Config, t: Candidate) -> (int, int) {
    let i = t.1 as int;
    let j = t.2 as int;
    if is_hub(c, c.gates@[j].airport@) && !is_hub(c, c.gates@[i].airport@) {
        (j, i)
    } else {
        (i, j)
    }
}

/// The smaller of two integers.
pub open spec fn min_int(x: int, y: int) -> int {
    if x <= y { x } else { y }
}

/// One step of the planner, on candidate `t`: skip it when a gate has
/// reached its limit, when the score (less the smaller number of
/// destinations of the two gates) is negative, when a flight already joins
/// the two airports, when a gate has reached its hard limit or its limit for
/// the route kind; else record each airport as a destination of the other
/// gate and add a flight each way.
pub open spec fn plan_step(c: Config, fd: FlightData, st: PlanView, t: Candidate) -> Result<PlanView, RunError> {
    let gs = c.gates@;
    let (a, b) = oriented(c, t);
    let g1 = gs[a];
    let g2 = gs[b];
    let ty = route_type(c, fd, gs[t.1 as int].airport@, gs[t.2 as int].airport@);
    let d1 = st.dests[canon(gs, a)];
    let d2 = st.dests[canon(gs, b)];
    if d1.len() >= dest_limit(c, g1) || d2.len() >= dest_limit(c, g2) {
        Ok(st)
    } else {
        let s = gates_score_value(c, fd, gs[t.1 as int], gs[t.2 as int]) - min_int(
            low_i8(d1.len() as int),
            low_i8(d2.len() as int),
        );
        if s < -128 || s > 127 {
            Err(RunError::ScoreOverflow)
        } else if s < 0 {
            Ok(st)
        } else if route_taken(st.flights, g1.airport@, g2.airport@) {
            Ok(st)
        } else if d1.len() >= hard_limit(c, g1) || d2.len() >= hard_limit(c, g2) {
            Ok(st)
        } else if count_of_type(c, fd, g1.airport@, d1, ty) >= type_limit(c, ty, g1) || count_of_type(
            c,
            fd,
            g2.airport@,
            d2,
            ty,
        ) >= type_limit(c, ty, g2) {
            Ok(st)
        } else {
            let st2 = PlanView {
                dests: st.dests.update(canon(gs, a), d1.push(g2.airport)).update(canon(gs, b), d2.push(g1.airport)),
                ..st
            };
            assign_numbers(c, st2, g1, g2, s, ty)
        }
    }
}

/// The planner's state after the candidates of `r`, in order.
pub open spec fn plan_fold(c: Config, fd: FlightData, r: Seq<Candidate>) -> Result<PlanView, RunError>
    decreases r.len(),
{
    if r.len() == 0 {
        Ok(initial_plan(c))
    } else {
        match plan_fold(c, fd, r.drop_last()) {
            Ok(st) => plan_step(c, fd, st, r.last()),
            Err(e) => Err(e),
        }
    }
}

/// The planner's outcome `p` and the result `r` agree.
pub open spec fn outcome_is(p: Result<PlanView, RunError>, r: Result<Vec<Flight>, RunError>) -> bool {
    match p {
        Ok(v) => r matches Ok(fs) && fs@ == v.flights,
        Err(e) => r == Err::<Vec<Flight>, RunError>(e),
    }
}

} // verus!

verus! {

/// The first gate equal to gate `i` is unique.
proof fn lemma_canon(gs: Seq<Gate>, i: int, j: int)
    requires
        canon_at(gs, i, j),
    ensures
        canon(gs, i) == j,
{
    let c = choose|c: int| canon_at(gs, i, c);
    assert(canon_at(gs, i, c));
    if c < j {
        assert(!same_gate(gs[c], gs[i]));
    }
    if j < c {
        assert(!same_gate(gs[j], gs[i]));
    }
}

/// For each gate, the index of the first gate equal to it.
fn canonical_indices(gates: &Vec<Gate>) -> (r: Vec<usize>)
    ensures
        r.len() == gates.len(),
        forall|i: int| 0 <= i < gates.len() ==> canon_at(gates@, i, #[trigger] r@[i] as int),
{
    let mut r: Vec<usize> = Vec::new();
    let mut i: usize = 0;
    while i < gates.len()
        invariant
            i <= gates.len(),
            r.len() == i,
            forall|k: int| 0 <= k < i ==> canon_at(gates@, k, #[trigger] r@[k] as int),
        decreases gates.len() - i,
    {
        let mut j: usize = 0;
        while j < i && !gates[j].same_as(&gates[i])
            invariant
                j <= i < gates.len(),
                forall|k: int| 0 <= k < j ==> !same_gate(#[trigger] gates@[k], gates@[i as int]),
            decreases i - j,
        {
            j = j + 1;
        }
        r.push(j);
        proof {
            assert(canon_at(gates@, i as int, r@[i as int] as int));
        }
        i = i + 1;
    }
    r
}

/// Whether the previous plan had a flight between `g1` and `g2`.
fn was_planned(prev: Option<&Vec<Flight>>, g1: &Gate, g2: &Gate) -> (r: bool)
    ensures
        r == previously_planned(plan_view(prev), *g1, *g2),
{
    match prev {
        None => false,
        Some(fs) => {
            let mut k: usize = 0;
            while k < fs.len()
                invariant
                    k <= fs.len(),
                    prev == Some(fs),
                    forall|l: int| 0 <= l < k ==> !(same_endpoints(#[trigger] fs@[l], *g1, *g2) || same_endpoints(fs@[l], *g2, *g1)),
                decreases fs.len() - k,
            {
                let f = &fs[k];
                let fwd = f.airport1.0 == g1.airport && f.airport1.1 == g1.code && f.airport2.0 == g2.airport
                    && f.airport2.1 == g2.code;
                let back = f.airport1.0 == g2.airport && f.airport1.1 == g2.code && f.airport2.0 == g1.airport
                    && f.airport2.1 == g1.code;
                if fwd || back {
                    proof {
                        assert(plan_view(prev) == Some(fs@));
                        assert(same_endpoints(fs@[k as int], *g1, *g2) || same_endpoints(fs@[k as int], *g2, *g1));
                    }
                    return true;
                }
                k = k + 1;
            }
            false
        },
    }
}

/// Pairs `(i, j)` come in the order of the nested loops.
spec fn pair_before(i: int, j: int, k: int, l: int) -> bool {
    i < k || (i == k && j < l)
}

/// Every pair of gates that may be connected, with its ranking key; an error
/// where the score of such a pair leaves `i8`.
fn candidates(c: &Config, fd: &FlightData, prev: Option<&Vec<Flight>>) -> (r: Result<Vec<Candidate>, RunError>)
    ensures
        some_score_overflows(*c, *fd) ==> r == Err::<Vec<Candidate>, RunError>(RunError::ScoreOverflow),
        !some_score_overflows(*c, *fd) ==> (r matches Ok(v) && v@.no_duplicates() && forall|t: Candidate|
            v@.contains(t) <==> is_candidate(*c, *fd, plan_view(prev), t)),
{
    let gates = &c.gates;
    let n = gates.len();
    let ghost oldv = plan_view(prev);
    let mut v: Vec<Candidate> = Vec::new();
    let mut i: usize = 0;
    while i < n
        invariant
            n == gates.len(),
            gates == c.gates,
            oldv == plan_view(prev),
            i <= n,
            forall|k: int| 0 <= k < v.len() ==> is_candidate(*c, *fd, oldv, #[trigger] v@[k]) && v@[k].1 < i,
            forall|k: int, l: int| 0 <= k < l < v.len() ==> pair_before(#[trigger] v@[k].1 as int, v@[k].2 as int, #[trigger] v@[l].1 as int, v@[l].2 as int),
            forall|t: Candidate| #[trigger] is_candidate(*c, *fd, oldv, t) && t.1 < i ==> v@.contains(t),
            forall|p: int, q: int| 0 <= p < q < n && p < i && valid_flight(*c, *fd, gates@[p], gates@[q]) ==> gates_score_fits(*c, *fd, #[trigger] gates@[p], #[trigger] gates@[q]),
        decreases n - i,
    {
        let mut j: usize = i + 1;
        while j < n
            invariant
                n == gates.len(),
                gates == c.gates,
                oldv == plan_view(prev),
                i < n,
                i + 1 <= j <= n,
                forall|k: int| 0 <= k < v.len() ==> is_candidate(*c, *fd, oldv, #[trigger] v@[k]) && pair_before(v@[k].1 as int, v@[k].2 as int, i as int, j as int),
                forall|k: int, l: int| 0 <= k < l < v.len() ==> pair_before(#[trigger] v@[k].1 as int, v@[k].2 as int, #[trigger] v@[l].1 as int, v@[l].2 as int),
                forall|t: Candidate| #[trigger] is_candidate(*c, *fd, oldv, t) && pair_before(t.1 as int, t.2 as int, i as int, j as int) ==> v@.contains(t),
                forall|p: int, q: int| 0 <= p < q < n && pair_before(p, q, i as int, j as int) && valid_flight(*c, *fd, gates@[p], gates@[q]) ==> gates_score_fits(*c, *fd, #[trigger] gates@[p], #[trigger] gates@[q]),
            decreases n - j,
        {
            if c.is_valid_flight(fd, &gates[i], &gates[j]) {
                if !c.gates_score_in_range(fd, &gates[i], &gates[j]) {
                    proof {
                        assert(some_score_overflows(*c, *fd)) by {
                            assert(0 <= i < j < c.gates.len() && valid_flight(*c, *fd, c.gates@[i as int], c.gates@[j as int])
                                && !gates_score_fits(*c, *fd, c.gates@[i as int], c.gates@[j as int]));
                        }
                    }
                    return Err(RunError::ScoreOverflow);
                }
                let s = c.gates_score(fd, &gates[i], &gates[j]);
                let e: i16 = if was_planned(prev, &gates[i], &gates[j]) { 1 } else { 0 };
                let key: i16 = -(s as i16 + e);
                let t: Candidate = (key, i, j);
                proof {
                    assert(s == gates_score_value(*c, *fd, c.gates@[i as int], c.gates@[j as int]));
                    assert(e == (if previously_planned(oldv, c.gates@[i as int], c.gates@[j as int]) { 1int } else { 0int }));
                    assert(key == rank_key(*c, *fd, oldv, i as int, j as int));
                    assert(valid_flight(*c, *fd, c.gates@[t.1 as int], c.gates@[t.2 as int]));
                }
                let ghost v0 = v@;
                v.push(t);
                proof {
                    assert(is_candidate(*c, *fd, oldv, t));
                    assert forall|u: Candidate| #[trigger] is_candidate(*c, *fd, oldv, u) && pair_before(u.1 as int, u.2 as int, i as int, j + 1) implies v@.contains(u) by {
                        if u.1 == i && u.2 == j {
                            assert(u == t);
                            assert(v@[v.len() - 1] == t);
                        } else {
                            assert(v0.contains(u));
                            let k = choose|k: int| 0 <= k < v0.len() && v0[k] == u;
                            assert(v@[k] == u);
                        }
                    }
                }
            } else {
                proof {
                    assert forall|u: Candidate| #[trigger] is_candidate(*c, *fd, oldv, u) && pair_before(u.1 as int, u.2 as int, i as int, j + 1) implies v@.contains(u) by {
                        if u.1 == i && u.2 == j {
                            assert(false);
                        }
                    }
                }
            }
            j = j + 1;
        }
        proof {
            assert forall|u: Candidate| #[trigger] is_candidate(*c, *fd, oldv, u) && u.1 < i + 1 implies v@.contains(u) by {
                assert(pair_before(u.1 as int, u.2 as int, i as int, j as int));
            }
        }
        i = i + 1;
    }
    proof {
        assert(!some_score_overflows(*c, *fd));
        assert forall|k: int, l: int| 0 <= k < v.len() && 0 <= l < v.len() && k != l implies v@[k] != v@[l] by {
            if k < l {
                assert(pair_before(v@[k].1 as int, v@[k].2 as int, v@[l].1 as int, v@[l].2 as int));
            } else {
                assert(pair_before(v@[l].1 as int, v@[l].2 as int, v@[k].1 as int, v@[k].2 as int));
            }
        }
        assert forall|t: Candidate| v@.contains(t) <==> is_candidate(*c, *fd, oldv, t) by {
            if v@.contains(t) {
                let k = choose|k: int| 0 <= k < v.len() && v@[k] == t;
                assert(is_candidate(*c, *fd, oldv, v@[k]));
            }
        }
    }
    Ok(v)
}

} // verus!

verus! {

/// The candidates in increasing order. `Itertools::sorted` sorts by `Ord`,
/// which orders tuples of integers lexicographically; the result holds the
/// same elements as the input.
#[verifier::external_body]
fn sort_candidates(v: Vec<Candidate>) -> (r: Vec<Candidate>)
    ensures
        r@.to_multiset() == v@.to_multiset(),
        forall|k: int, l: int| 0 <= k < l < r.len() ==> r@[k] == r@[l] || ranks_before(r@[k], r@[l]),
{
    v.into_iter().sorted().collect()
}

/// The sorted candidates rank every candidate once, best first.
proof fn lemma_sorted_is_ranking(
    c: Config,
    fd: FlightData,
    prev: Option<Seq<Flight>>,
    v: Seq<Candidate>,
    r: Seq<Candidate>,
)
    requires
        v.no_duplicates(),
        forall|t: Candidate| v.contains(t) <==> is_candidate(c, fd, prev, t),
        r.to_multiset() == v.to_multiset(),
        forall|k: int, l: int| 0 <= k < l < r.len() ==> r[k] == r[l] || ranks_before(r[k], r[l]),
    ensures
        is_ranking(c, fd, prev, r),
{
    broadcast use vstd::seq_lib::group_to_multiset_ensures;

    v.lemma_multiset_has_no_duplicates();
    assert forall|x: Candidate| r.to_multiset().contains(x) implies r.to_multiset().count(x) == 1 by {
        assert(v.to_multiset().contains(x));
    }
    r.lemma_multiset_has_no_duplicates_conv();
    assert forall|t: Candidate| r.contains(t) <==> is_candidate(c, fd, prev, t) by {
        assert(r.contains(t) <==> r.to_multiset().count(t) > 0);
        assert(v.contains(t) <==> v.to_multiset().count(t) > 0);
    }
    assert forall|k: int, l: int| 0 <= k < l < r.len() implies ranks_before(r[k], r[l]) by {
        assert(r[k] != r[l]);
    }
}

/// The dispensers and the destinations and flights so far.
struct Planner {
    dests: Vec<Vec<String>>,
    flights: Vec<Flight>,
    h2h: FlightNumberGenerator,
    n2n: FlightNumberGenerator,
    h2n: Vec<(String, FlightNumberGenerator)>,
}

/// The dispensers of a list, by their views.
spec fn gens_view(m: Seq<(String, FlightNumberGenerator)>) -> Seq<(String, GenView)> {
    m.map_values(|p: (String, FlightNumberGenerator)| (p.0, p.1@))
}

/// The destination lists, by their views.
spec fn dests_view(d: Seq<Vec<String>>) -> Seq<Seq<String>> {
    d.map_values(|v: Vec<String>| v@)
}

impl Planner {
    spec fn state(&self) -> PlanView {
        PlanView {
            dests: dests_view(self.dests@),
            flights: self.flights@,
            h2h: self.h2h@,
            n2n: self.n2n@,
            h2n: gens_view(self.h2n@),
        }
    }

    fn new(c: &Config) -> (r: Planner)
        ensures
            r.state() == initial_plan(*c),
            r.dests.len() == c.gates.len(),
    {
        let mut dests: Vec<Vec<String>> = Vec::new();
        let mut i: usize = 0;
        while i < c.gates.len()
            invariant
                i <= c.gates.len(),
                dests.len() == i,
                forall|k: int| 0 <= k < i ==> (#[trigger] dests@[k])@ == Seq::<String>::empty(),
            decreases c.gates.len() - i,
        {
            dests.push(Vec::new());
            i = i + 1;
        }
        let r = Planner {
            dests,
            flights: Vec::new(),
            h2h: FlightNumberGenerator::new(&c.range_h2h),
            n2n: FlightNumberGenerator::new(&c.range_n2n),
            h2n: Vec::new(),
        };
        proof {
            assert(dests_view(r.dests@) =~= initial_plan(*c).dests);
            assert(gens_view(r.h2n@) =~= Seq::<(String, GenView)>::empty());
        }
        r
    }

    /// Adds the flights `g1` to `g2` and back, with numbers `n1` and `n2`.
    fn push_flights(&mut self, g1: &Gate, g2: &Gate, s: i8, t: FlightType, n1: Option<u16>, n2: Option<u16>) -> (r: Result<(), RunError>)
        ensures
            final(self).dests == old(self).dests,
            match add_flights(old(self).state(), *g1, *g2, s as int, t, n1, n2) {
                Ok(v) => r is Ok && final(self).state() == v,
                Err(e) => r == Err::<(), RunError>(e),
            },
    {
        match n1 {
            None => Err(RunError::NoFlightNumber { from: g1.airport.clone(), to: g2.airport.clone() }),
            Some(x) => match n2 {
                None => Err(RunError::NoFlightNumber { from: g2.airport.clone(), to: g1.airport.clone() }),
                Some(y) => {
                    let f1 = Flight {
                        number: x,
                        airport1: (g1.airport.clone(), g1.code.clone()),
                        airport2: (g2.airport.clone(), g2.code.clone()),
                        size: g1.size.clone(),
                        score: s,
                        ty: t,
                    };
                    let f2 = Flight {
                        number: y,
                        airport1: (g2.airport.clone(), g2.code.clone()),
                        airport2: (g1.airport.clone(), g1.code.clone()),
                        size: g2.size.clone(),
                        score: s,
                        ty: t,
                    };
                    self.flights.push(f1);
                    self.flights.push(f2);
                    proof {
                        assert(f1 == make_flight(x, *g1, *g2, s as int, t));
                        assert(f2 == make_flight(y, *g2, *g1, s as int, t));
                    }
                    Ok(())
                },
            },
        }
    }
}

/// Two numbers from dispenser `g`: the first, then the same again or the
/// next.
fn draw(g: &mut FlightNumberGenerator, fs: &Vec<Flight>, same: bool) -> (r: (Option<u16>, Option<u16>))
    ensures
        (r.0, r.1, final(g)@) == draw_numbers(old(g)@, fs@, same),
{
    let n1 = g.next_unused(fs);
    if same {
        (n1, n1)
    } else {
        let n2 = g.next_unused(fs);
        (n1, n2)
    }
}

} // verus!

verus! {

/// The dispenser lists keep their keys.
proof fn lemma_gens_keys(m: Seq<(String, FlightNumberGenerator)>, k: Seq<char>)
    ensures
        has_key(m, k) <==> has_key(gens_view(m), k),
        forall|i: int| key_at(m, k, i) <==> key_at(gens_view(m), k, i),
{
    let g = gens_view(m);
    assert forall|i: int| 0 <= i < m.len() implies #[trigger] g[i].0 == m[i].0 by {}
    if has_key(m, k) {
        let i = choose|i: int| 0 <= i < m.len() && #[trigger] m[i].0@ == k;
        assert(g[i].0@ == k);
    }
    if has_key(g, k) {
        let i = choose|i: int| 0 <= i < g.len() && #[trigger] g[i].0@ == k;
        assert(m[i].0@ == k);
    }
    assert forall|i: int| key_at(m, k, i) <==> key_at(g, k, i) by {
        if key_at(m, k, i) {
            assert forall|j: int| 0 <= j < i implies #[trigger] g[j].0@ != k by {
                assert(m[j].0@ != k);
            }
        }
        if key_at(g, k, i) {
            assert forall|j: int| 0 <= j < i implies #[trigger] m[j].0@ != k by {
                assert(g[j].0@ != k);
            }
        }
    }
}

impl Planner {
    /// Numbers for the flights between `g1` and `g2` from the dispenser of
    /// the route kind, and the flights.
    fn assign(&mut self, c: &Config, g1: &Gate, g2: &Gate, s: i8, t: FlightType) -> (r: Result<(), RunError>)
        ensures
            final(self).dests == old(self).dests,
            match assign_numbers(*c, old(self).state(), *g1, *g2, s as int, t) {
                Ok(v) => r is Ok && final(self).state() == v,
                Err(e) => r == Err::<(), RunError>(e),
            },
    {
        let same = c.both_dir_same_num;
        let h2h = t == FlightType::ExistingH2H || t == FlightType::NonExistingH2H;
        let n2n = t == FlightType::ExistingN2N || t == FlightType::NonExistingN2N;
        if h2h {
            let (n1, n2) = draw(&mut self.h2h, &self.flights, same);
            return self.push_flights(g1, g2, s, t, n1, n2);
        }
        if n2n {
            let (n1, n2) = draw(&mut self.n2n, &self.flights, same);
            return self.push_flights(g1, g2, s, t, n1, n2);
        }
        let key: &String = match find_key(&c.range_h2n, &g1.airport) {
            Some(_) => &g1.airport,
            None => &g2.airport,
        };
        let ghost st = self.state();
        proof {
            lemma_gens_keys(self.h2n@, key@);
        }
        match find_key(&self.h2n, key) {
            Some(k) => {
                proof {
                    lemma_key_at(gens_view(self.h2n@), key@, k as int);
                }
                let mut g = self.h2n[k].1.clone_gen();
                let (n1, n2) = draw(&mut g, &self.flights, same);
                let ghost before = self.h2n@;
                let ghost gv = g@;
                let kk = self.h2n[k].0.clone();
                self.h2n.set(k, (kk, g));
                proof {
                    assert(gens_view(self.h2n@) =~= put_gen(st.h2n, *key, gv));
                }
                self.push_flights(g1, g2, s, t, n1, n2)
            },
            None => match find_key(&c.range_h2n, key) {
                None => Err(RunError::MissingH2nRange { airport: g2.airport.clone() }),
                Some(ri) => {
                    let mut g = FlightNumberGenerator::new(&c.range_h2n[ri].1);
                    let (n1, n2) = draw(&mut g, &self.flights, same);
                    let ghost gv = g@;
                    self.h2n.push((key.clone(), g));
                    proof {
                        assert(gens_view(self.h2n@) =~= st.h2n.push((*key, gv)));
                    }
                    self.push_flights(g1, g2, s, t, n1, n2)
                },
            },
        }
    }
}

} // verus!

verus! {

fn dest_limit_of(c: &Config, g: &Gate) -> (r: usize)
    ensures
        r == dest_limit(*c, *g),
{
    match find_key(&c.max_dests_per_gate, &g.airport) {
        Some(k) => c.max_dests_per_gate[k].1 as usize,
        None => 255,
    }
}

fn hard_limit_of(c: &Config, g: &Gate) -> (r: usize)
    ensures
        r == hard_limit(*c, *g),
{
    match find_key(&c.max_dests_per_gate, &g.airport) {
        Some(k) => c.max_dests_per_gate[k].1 as usize,
        None => if c.is_hub(&g.airport) { c.hard_max_hub as usize } else { c.hard_max_nonhub as usize },
    }
}

fn type_limit_of(c: &Config, t: FlightType, g: &Gate) -> (r: usize)
    ensures
        r == type_limit(*c, t, *g),
{
    if t == FlightType::ExistingH2H || t == FlightType::NonExistingH2H {
        c.max_h2h as usize
    } else if t == FlightType::ExistingN2N || t == FlightType::NonExistingN2N {
        c.max_n2n as usize
    } else if c.is_hub(&g.airport) {
        c.max_h2n_hub as usize
    } else {
        c.max_h2n_nonhub as usize
    }
}

fn count_type(c: &Config, fd: &FlightData, a: &String, ds: &Vec<String>, t: FlightType) -> (r: usize)
    ensures
        r == count_of_type(*c, *fd, a@, ds@, t),
{
    let mut n: usize = 0;
    let mut i: usize = 0;
    while i < ds.len()
        invariant
            i <= ds.len(),
            n <= i,
            n == count_of_type(*c, *fd, a@, ds@.take(i as int), t),
        decreases ds.len() - i,
    {
        proof {
            assert(ds@.take(i + 1).drop_last() =~= ds@.take(i as int));
        }
        if c.airports_flight_type(fd, a, &ds[i]) == t {
            n = n + 1;
        }
        i = i + 1;
    }
    proof {
        assert(ds@.take(i as int) =~= ds@);
    }
    n
}

fn route_taken_in(fs: &Vec<Flight>, a1: &String, a2: &String) -> (r: bool)
    ensures
        r == route_taken(fs@, a1@, a2@),
{
    let mut k: usize = 0;
    while k < fs.len()
        invariant
            k <= fs.len(),
            forall|l: int| 0 <= l < k ==> !((#[trigger] fs@[l].airport1.0@ == a1@ && fs@[l].airport2.0@ == a2@) || (
            fs@[l].airport1.0@ == a2@ && fs@[l].airport2.0@ == a1@)),
        decreases fs.len() - k,
    {
        let f = &fs[k];
        if (f.airport1.0 == *a1 && f.airport2.0 == *a2) || (f.airport1.0 == *a2 && f.airport2.0 == *a1) {
            return true;
        }
        k = k + 1;
    }
    false
}

impl Planner {
    /// One step of the planner on candidate `t`.
    fn step(&mut self, c: &Config, fd: &FlightData, canon: &Vec<usize>, t: Candidate) -> (r: Result<(), RunError>)
        requires
            old(self).dests.len() == c.gates.len(),
            canon.len() == c.gates.len(),
            forall|i: int| 0 <= i < c.gates.len() ==> canon_at(c.gates@, i, #[trigger] canon@[i] as int),
            t.1 < t.2 < c.gates.len(),
            valid_flight(*c, *fd, c.gates@[t.1 as int], c.gates@[t.2 as int]),
            !some_score_overflows(*c, *fd),
        ensures
            final(self).dests.len() == c.gates.len(),
            match plan_step(*c, *fd, old(self).state(), t) {
                Ok(v) => r is Ok && final(self).state() == v,
                Err(e) => r == Err::<(), RunError>(e),
            },
    {
        let gates = &c.gates;
        let i = t.1;
        let j = t.2;
        let (a, b) = if c.is_hub(&gates[j].airport) && !c.is_hub(&gates[i].airport) {
            (j, i)
        } else {
            (i, j)
        };
        let g1 = &gates[a];
        let g2 = &gates[b];
        let ty = c.gates_flight_type(fd, &gates[i], &gates[j]);
        let ca = canon[a];
        let cb = canon[b];
        let ghost st = self.state();
        proof {
            assert(canon_at(gates@, a as int, ca as int));
            assert(canon_at(gates@, b as int, cb as int));
            lemma_canon(gates@, a as int, ca as int);
            lemma_canon(gates@, b as int, cb as int);
            assert((a as int, b as int) == oriented(*c, t));
            assert(ca != cb) by {
                assert(same_gate(gates@[ca as int], gates@[a as int]));
                assert(same_gate(gates@[cb as int], gates@[b as int]));
            }
            assert(gates_score_fits(*c, *fd, gates@[i as int], gates@[j as int]));
        }
        let len1 = self.dests[ca].len();
        let len2 = self.dests[cb].len();
        proof {
            assert(st.dests[ca as int] == self.dests@[ca as int]@);
            assert(st.dests[cb as int] == self.dests@[cb as int]@);
        }
        if len1 >= dest_limit_of(c, g1) || len2 >= dest_limit_of(c, g2) {
            return Ok(());
        }
        let s0 = c.gates_score(fd, &gates[i], &gates[j]) as i16;
        let m1 = low_i8_of(len1);
        let m2 = low_i8_of(len2);
        let m = if m1 <= m2 { m1 } else { m2 };
        let s = s0 - m;
        if s < -128 || s > 127 {
            return Err(RunError::ScoreOverflow);
        }
        if s < 0 {
            return Ok(());
        }
        if route_taken_in(&self.flights, &g1.airport, &g2.airport) {
            return Ok(());
        }
        if len1 >= hard_limit_of(c, g1) || len2 >= hard_limit_of(c, g2) {
            return Ok(());
        }
        if count_type(c, fd, &g1.airport, &self.dests[ca], ty) >= type_limit_of(c, ty, g1) || count_type(
            c,
            fd,
            &g2.airport,
            &self.dests[cb],
            ty,
        ) >= type_limit_of(c, ty, g2) {
            return Ok(());
        }
        let ghost d0 = self.dests@;
        self.dests[ca].push(g2.airport.clone());
        self.dests[cb].push(g1.airport.clone());
        proof {
            assert(dests_view(self.dests@) =~= st.dests.update(ca as int, st.dests[ca as int].push(g2.airport)).update(
                cb as int,
                st.dests[cb as int].push(g1.airport),
            ));
        }
        self.assign(c, g1, g2, s as i8, ty)
    }
}

/// Once the planner has stopped, the rest of the ranking changes nothing.
proof fn lemma_fold_error_stays(c: Config, fd: FlightData, r: Seq<Candidate>, k: int, e: RunError)
    requires
        0 <= k <= r.len(),
        plan_fold(c, fd, r.take(k)) == Err::<PlanView, RunError>(e),
    ensures
        plan_fold(c, fd, r) == Err::<PlanView, RunError>(e),
    decreases r.len() - k,
{
    if k < r.len() {
        assert(r.take(k + 1).drop_last() =~= r.take(k));
        lemma_fold_error_stays(c, fd, r, k + 1, e);
    } else {
        assert(r.take(k) =~= r);
    }
}

/// Plans the airline's flights: ranks every pair of gates that the
/// configuration lets the planner connect, best score first (a pair that
/// the previous plan served scores one more), then walks the ranking as
/// `plan_step` says and returns the flights.
pub fn run(config: &Config, fd: &FlightData, old_plan: Option<&Vec<Flight>>) -> (r: Result<Vec<Flight>, RunError>)
    ensures
        some_score_overflows(*config, *fd) ==> r == Err::<Vec<Flight>, RunError>(RunError::ScoreOverflow),
        !some_score_overflows(*config, *fd) ==> exists|ranked: Seq<Candidate>|
            is_ranking(*config, *fd, plan_view(old_plan), ranked) && outcome_is(
                #[trigger] plan_fold(*config, *fd, ranked),
                r,
            ),
{
    let cands = match candidates(config, fd, old_plan) {
        Ok(v) => v,
        Err(e) => {
            return Err(e);
        },
    };
    let ghost cv = cands@;
    let ranked = sort_candidates(cands);
    proof {
        lemma_sorted_is_ranking(*config, *fd, plan_view(old_plan), cv, ranked@);
    }
    let canon = canonical_indices(&config.gates);
    let mut p = Planner::new(config);
    let mut k: usize = 0;
    proof {
        assert(ranked@.take(0) =~= Seq::<Candidate>::empty());
    }
    while k < ranked.len()
        invariant
            k <= ranked.len(),
            !some_score_overflows(*config, *fd),
            is_ranking(*config, *fd, plan_view(old_plan), ranked@),
            p.dests.len() == config.gates.len(),
            canon.len() == config.gates.len(),
            forall|i: int| 0 <= i < config.gates.len() ==> canon_at(config.gates@, i, #[trigger] canon@[i] as int),
            plan_fold(*config, *fd, ranked@.take(k as int)) == Ok::<PlanView, RunError>(p.state()),
        decreases ranked.len() - k,
    {
        let t = ranked[k];
        proof {
            assert(ranked@.contains(t));
            assert(ranked@.take(k + 1).drop_last() =~= ranked@.take(k as int));
            assert(ranked@.take(k + 1).last() == t);
        }
        match p.step(config, fd, &canon, t) {
            Ok(()) => {},
            Err(e) => {
                proof {
                    lemma_fold_error_stays(*config, *fd, ranked@, k + 1, e);
                    assert(outcome_is(plan_fold(*config, *fd, ranked@), Err::<Vec<Flight>, RunError>(e)));
                }
                return Err(e);
            },
        }
        k = k + 1;
    }
    proof {
        assert(ranked@.take(k as int) =~= ranked@);
    }
    Ok(p.flights)
}

} // verus!
