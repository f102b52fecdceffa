//! What every plan that the planner produces satisfies: flights come in
//! pairs, one each way between two gates that may be connected, with the
//! kind and score of those gates; no two pairs
//! join the same two airports; scores are not negative; a new flight's
//! number is not taken by an earlier flight (both flights of a pair share it
//! where the configuration says so, and differ where it does not and the
//! ranges repeat no number); numbers come from the configured ranges; no
//! gate gets more destinations than its hard limit.
use vstd::prelude::*;
use crate::config::{Config, is_hub, valid_flight};
use crate::flight::{Flight, number_used};
use crate::flight_data::FlightData;
use crate::fng::{gen_find, lemma_gen_find_unused, range_numbers};
use crate::gate::{Gate, same_gate};
use crate::lists::lookup;
use crate::run::{
    Candidate, PlanView, RunError, add_flights, assign_numbers, canon, canon_at, draw_numbers, hard_limit,
    initial_plan, is_candidate, is_ranking, make_flight, oriented, plan_fold, plan_step, route_taken,
    same_endpoints,
};

verus! {

/// Flights `2k` and `2k + 1` of the plan.
pub open spec fn pair_at(fs: Seq<Flight>, k: int) -> (Flight, Flight) {
    (fs[2 * k], fs[2 * k + 1])
}

/// `g` is `f` the other way: same gates swapped, same score and kind.
pub open spec fn is_reverse(f: Flight, g: Flight) -> bool {
    &&& g.airport1.0@ == f.airport2.0@
    &&& g.airport1.1@ == f.airport2.1@
    &&& g.airport2.0@ == f.airport1.0@
    &&& g.airport2.1@ == f.airport1.1@
    &&& g.score == f.score
    &&& g.ty == f.ty
}

/// The score of a route between gates `g1` and `g2` whose gates have `n1`
/// and `n2` destinations: the gates' score less the smaller count (taken as
/// an `i8`).
pub open spec fn score_with_counts(c: Config, fd: FlightData, g1: Gate, g2: Gate, n1: int, n2: int) -> int {
    crate::score::gates_score_value(c, fd, g1, g2) - crate::run::min_int(crate::score::low_i8(n1), crate::score::low_i8(n2))
}

/// `f` is planned for the gates `i` and `j` of the configuration: its kind
/// is the route kind of their airports, and its score is their score less
/// the smaller of their destination counts, for counts below the gates'
/// hard limits.
pub open spec fn planned_for(c: Config, fd: FlightData, f: Flight, i: int, j: int) -> bool {
    &&& f.ty == crate::score::route_type(c, fd, c.gates@[i].airport@, c.gates@[j].airport@)
    &&& exists|n1: int, n2: int|
        0 <= n1 < hard_limit(c, c.gates@[i]) && 0 <= n2 < hard_limit(c, c.gates@[j]) && f.score == #[trigger] score_with_counts(
            c,
            fd,
            c.gates@[i],
            c.gates@[j],
            n1,
            n2,
        )
}

/// `f` flies between two gates that the configuration lets the planner
/// connect, with the kind and score planned for them.
pub open spec fn serves_valid_pair(c: Config, fd: FlightData, f: Flight) -> bool {
    exists|i: int, j: int|
        0 <= i < j < c.gates.len() && #[trigger] valid_flight(c, fd, c.gates@[i], c.gates@[j]) && (same_endpoints(
            f,
            c.gates@[i],
            c.gates@[j],
        ) || same_endpoints(f, c.gates@[j], c.gates@[i])) && planned_for(c, fd, f, i, j)
}

/// `f` and `g` join the same two airports.
pub open spec fn same_route(f: Flight, g: Flight) -> bool {
    ||| f.airport1.0@ == g.airport1.0@ && f.airport2.0@ == g.airport2.0@
    ||| f.airport1.0@ == g.airport2.0@ && f.airport2.0@ == g.airport1.0@
}

/// Pair `k` of the plan is well made.
pub open spec fn pair_ok(c: Config, fd: FlightData, fs: Seq<Flight>, k: int) -> bool {
    let (f1, f2) = pair_at(fs, k);
    &&& is_reverse(f1, f2)
    &&& f1.score >= 0
    &&& serves_valid_pair(c, fd, f1)
    &&& !number_used(fs.take(2 * k), f1.number)
    &&& !number_used(fs.take(2 * k), f2.number)
    &&& c.both_dir_same_num ==> f1.number == f2.number
}

/// The laws of a plan's flights.
pub open spec fn flights_laws(c: Config, fd: FlightData, fs: Seq<Flight>) -> bool {
    &&& fs.len() % 2 == 0
    &&& forall|k: int| 0 <= k < fs.len() / 2 ==> #[trigger] pair_ok(c, fd, fs, k)
    &&& forall|k: int, l: int|
        0 <= k < l < fs.len() / 2 ==> !same_route(#[trigger] pair_at(fs, k).0, #[trigger] pair_at(fs, l).0)
}

/// The laws of the planner's state: the laws of its flights, and no gate
/// with more destinations than its hard limit.
pub open spec fn plan_invariant(c: Config, fd: FlightData, st: PlanView) -> bool {
    &&& st.dests.len() == c.gates.len()
    &&& forall|i: int| 0 <= i < c.gates.len() ==> #[trigger] st.dests[i].len() <= hard_limit(c, c.gates@[i])
    &&& flights_laws(c, fd, st.flights)
}

proof fn lemma_draw_unused(g: crate::fng::GenView, fs: Seq<Flight>, same: bool)
    ensures
        draw_numbers(g, fs, same).0 matches Some(x) ==> !number_used(fs, x),
        draw_numbers(g, fs, same).1 matches Some(x) ==> !number_used(fs, x),
        same ==> draw_numbers(g, fs, same).0 == draw_numbers(g, fs, same).1,
{
    lemma_gen_find_unused(g.nums, g.pos, fs);
    lemma_gen_find_unused(g.nums, gen_find(g.nums, g.pos, fs).1, fs);
}

/// Adding flights keeps the destinations and adds one pair.
proof fn lemma_add_flights(st: PlanView, g1: Gate, g2: Gate, s: int, t: crate::flight_type::FlightType, n1: Option<u16>, n2: Option<u16>, v: PlanView)
    requires
        add_flights(st, g1, g2, s, t, n1, n2) == Ok::<PlanView, RunError>(v),
    ensures
        v.dests == st.dests,
        n1 is Some && n2 is Some,
        v.flights == st.flights.push(make_flight(n1->0, g1, g2, s, t)).push(make_flight(n2->0, g2, g1, s, t)),
{
}

/// What a successful number assignment does: it keeps the destinations and
/// adds a pair of flights with numbers that no earlier flight has.
proof fn lemma_assign(c: Config, st: PlanView, g1: Gate, g2: Gate, s: int, t: crate::flight_type::FlightType, v: PlanView)
    requires
        assign_numbers(c, st, g1, g2, s, t) == Ok::<PlanView, RunError>(v),
    ensures
        v.dests == st.dests,
        exists|x: u16, y: u16|
            {
                &&& v.flights == st.flights.push(make_flight(x, g1, g2, s, t)).push(make_flight(y, g2, g1, s, t))
                &&& !number_used(st.flights, x)
                &&& !number_used(st.flights, y)
                &&& c.both_dir_same_num ==> x == y
            },
{
    let same = c.both_dir_same_num;
    if crate::run::is_h2h(t) {
        lemma_draw_unused(st.h2h, st.flights, same);
        let (n1, n2, g) = draw_numbers(st.h2h, st.flights, same);
        lemma_add_flights(PlanView { h2h: g, ..st }, g1, g2, s, t, n1, n2, v);
        assert(st.flights == PlanView { h2h: g, ..st }.flights);
    } else if crate::run::is_n2n(t) {
        lemma_draw_unused(st.n2n, st.flights, same);
        let (n1, n2, g) = draw_numbers(st.n2n, st.flights, same);
        lemma_add_flights(PlanView { n2n: g, ..st }, g1, g2, s, t, n1, n2, v);
    } else {
        let key = if crate::lists::has_key(c.range_h2n@, g1.airport@) { g1.airport } else { g2.airport };
        match lookup(st.h2n, key@) {
            Some(gen) => {
                lemma_draw_unused(gen, st.flights, same);
                let (n1, n2, g) = draw_numbers(gen, st.flights, same);
                lemma_add_flights(PlanView { h2n: crate::run::put_gen(st.h2n, key, g), ..st }, g1, g2, s, t, n1, n2, v);
            },
            None => match lookup(c.range_h2n@, key@) {
                None => {},
                Some(ranges) => {
                    lemma_draw_unused(crate::fng::new_gen(ranges@), st.flights, same);
                    let (n1, n2, g) = draw_numbers(crate::fng::new_gen(ranges@), st.flights, same);
                    lemma_add_flights(PlanView { h2n: st.h2n.push((key, g)), ..st }, g1, g2, s, t, n1, n2, v);
                },
            },
        }
    }
}

/// Every gate has a first equal gate.
pub proof fn lemma_canon_exists(gs: Seq<Gate>, i: int, j: int)
    requires
        0 <= j <= i < gs.len(),
        forall|k: int| 0 <= k < j ==> !same_gate(#[trigger] gs[k], gs[i]),
    ensures
        canon_at(gs, i, canon(gs, i)),
    decreases i - j,
{
    if same_gate(gs[j], gs[i]) {
        assert(canon_at(gs, i, j));
    } else {
        lemma_canon_exists(gs, i, j + 1);
    }
}

/// Adding a pair of flights that join a new route between a valid pair of
/// gates, with fresh numbers, keeps the laws of the flights.
proof fn lemma_push_pair(c: Config, fd: FlightData, fs: Seq<Flight>, i: int, j: int, g1: Gate, g2: Gate, s: int, t: crate::flight_type::FlightType, x: u16, y: u16, n1: int, n2: int)
    requires
        flights_laws(c, fd, fs),
        0 <= i < j < c.gates.len(),
        valid_flight(c, fd, c.gates@[i], c.gates@[j]),
        t == crate::score::route_type(c, fd, c.gates@[i].airport@, c.gates@[j].airport@),
        0 <= n1 < hard_limit(c, c.gates@[i]),
        0 <= n2 < hard_limit(c, c.gates@[j]),
        s == score_with_counts(c, fd, c.gates@[i], c.gates@[j], n1, n2),
        (g1 == c.gates@[i] && g2 == c.gates@[j]) || (g1 == c.gates@[j] && g2 == c.gates@[i]),
        0 <= s <= 127,
        !route_taken(fs, g1.airport@, g2.airport@),
        !number_used(fs, x),
        !number_used(fs, y),
        c.both_dir_same_num ==> x == y,
    ensures
        flights_laws(c, fd, fs.push(make_flight(x, g1, g2, s, t)).push(make_flight(y, g2, g1, s, t))),
{
    let f1 = make_flight(x, g1, g2, s, t);
    let f2 = make_flight(y, g2, g1, s, t);
    let nf = fs.push(f1).push(f2);
    let n = fs.len() / 2;
    assert(nf.len() / 2 == n + 1);
    assert forall|k: int| 0 <= k < nf.len() / 2 implies #[trigger] pair_ok(c, fd, nf, k) by {
        if k < n {
            assert(pair_at(nf, k) == pair_at(fs, k));
            assert(nf.take(2 * k) =~= fs.take(2 * k));
            assert(pair_ok(c, fd, fs, k));
        } else {
            assert(pair_at(nf, k) == (f1, f2));
            assert(nf.take(2 * k) =~= fs);
            assert(valid_flight(c, fd, c.gates@[i], c.gates@[j]));
            assert(same_endpoints(f1, c.gates@[i], c.gates@[j]) || same_endpoints(f1, c.gates@[j], c.gates@[i]));
            assert(f1.score == score_with_counts(c, fd, c.gates@[i], c.gates@[j], n1, n2));
            assert(planned_for(c, fd, f1, i, j));
            assert(serves_valid_pair(c, fd, f1));
        }
    }
    assert forall|k: int, l: int| 0 <= k < l < nf.len() / 2 implies !same_route(#[trigger] pair_at(nf, k).0, #[trigger] pair_at(nf, l).0) by {
        assert(pair_at(nf, k) == pair_at(fs, k));
        if l < n {
            assert(pair_at(nf, l) == pair_at(fs, l));
        } else {
            assert(pair_at(nf, l).0 == f1);
            let f = fs[2 * k];
            if same_route(f, f1) {
                assert(0 <= 2 * k < fs.len());
                assert((fs[2 * k].airport1.0@ == g1.airport@ && fs[2 * k].airport2.0@ == g2.airport@) || (
                fs[2 * k].airport1.0@ == g2.airport@ && fs[2 * k].airport2.0@ == g1.airport@));
                assert(route_taken(fs, g1.airport@, g2.airport@));
            }
        }
    }
}

/// A successful step of the planner on a candidate keeps the laws.
pub proof fn lemma_step_keeps_laws(c: Config, fd: FlightData, prev: Option<Seq<Flight>>, st: PlanView, t: Candidate)
    requires
        plan_invariant(c, fd, st),
        is_candidate(c, fd, prev, t),
        plan_step(c, fd, st, t) is Ok,
    ensures
        plan_invariant(c, fd, plan_step(c, fd, st, t)->Ok_0),
{
    let gs = c.gates@;
    let (a, b) = oriented(c, t);
    let g1 = gs[a];
    let g2 = gs[b];
    let ty = crate::score::route_type(c, fd, gs[t.1 as int].airport@, gs[t.2 as int].airport@);
    lemma_canon_exists(gs, a, 0);
    lemma_canon_exists(gs, b, 0);
    let ca = canon(gs, a);
    let cb = canon(gs, b);
    assert(ca != cb) by {
        assert(same_gate(gs[ca], gs[a]));
        assert(same_gate(gs[cb], gs[b]));
    }
    let d1 = st.dests[ca];
    let d2 = st.dests[cb];
    let r = plan_step(c, fd, st, t);
    if r == Ok::<PlanView, RunError>(st) {
    } else {
        let s = crate::score::gates_score_value(c, fd, gs[t.1 as int], gs[t.2 as int]) - crate::run::min_int(
            crate::score::low_i8(d1.len() as int),
            crate::score::low_i8(d2.len() as int),
        );
        let st2 = PlanView {
            dests: st.dests.update(ca, d1.push(g2.airport)).update(cb, d2.push(g1.airport)),
            ..st
        };
        assert(r == assign_numbers(c, st2, g1, g2, s, ty));
        let v = r->Ok_0;
        lemma_assign(c, st2, g1, g2, s, ty, v);
        let (x, y) = choose|x: u16, y: u16|
            {
                &&& v.flights == st2.flights.push(make_flight(x, g1, g2, s, ty)).push(make_flight(y, g2, g1, s, ty))
                &&& !number_used(st2.flights, x)
                &&& !number_used(st2.flights, y)
                &&& c.both_dir_same_num ==> x == y
            };
        let (n1, n2) = if a == t.1 as int { (d1.len() as int, d2.len() as int) } else { (d2.len() as int, d1.len() as int) };
        assert(s == score_with_counts(c, fd, gs[t.1 as int], gs[t.2 as int], n1, n2));
        lemma_push_pair(c, fd, st.flights, t.1 as int, t.2 as int, g1, g2, s, ty, x, y, n1, n2);
        assert forall|k: int| 0 <= k < c.gates.len() implies #[trigger] v.dests[k].len() <= hard_limit(c, c.gates@[k]) by {
            if k == ca {
                assert(same_gate(gs[ca], gs[a]));
                assert(hard_limit(c, gs[ca]) == hard_limit(c, gs[a]));
            } else if k == cb {
                assert(same_gate(gs[cb], gs[b]));
                assert(hard_limit(c, gs[cb]) == hard_limit(c, gs[b]));
            } else {
                assert(v.dests[k] == st.dests[k]);
            }
        }
    }
}

/// The laws hold of the state after every prefix of a ranking.
proof fn lemma_fold_keeps_laws(c: Config, fd: FlightData, prev: Option<Seq<Flight>>, r: Seq<Candidate>)
    requires
        forall|k: int| 0 <= k < r.len() ==> is_candidate(c, fd, prev, #[trigger] r[k]),
    ensures
        plan_fold(c, fd, r) matches Ok(st) ==> plan_invariant(c, fd, st),
    decreases r.len(),
{
    if r.len() == 0 {
        let st = initial_plan(c);
        assert(st.flights.len() == 0);
    } else {
        assert forall|k: int| 0 <= k < r.drop_last().len() implies is_candidate(c, fd, prev, #[trigger] r.drop_last()[k]) by {
            assert(r.drop_last()[k] == r[k]);
        }
        lemma_fold_keeps_laws(c, fd, prev, r.drop_last());
        if let Ok(st) = plan_fold(c, fd, r.drop_last()) {
            if plan_step(c, fd, st, r.last()) is Ok {
                lemma_step_keeps_laws(c, fd, prev, st, r.last());
            }
        }
    }
}

/// Every plan that the planner returns keeps the laws: its flights come in
/// pairs, one each way between two gates that may be connected, with the
/// route kind of the gates' airports and the gates' score less the smaller
/// of their destination counts, a score that is not negative; no two pairs join the same two airports; a
/// flight's number is not taken by a flight of an earlier pair (and both
/// flights of a pair share it where `both_dir_same_num` is set); no gate has
/// more destinations than its hard limit.
pub proof fn plan_laws(c: Config, fd: FlightData, prev: Option<Seq<Flight>>, ranked: Seq<Candidate>)
    requires
        is_ranking(c, fd, prev, ranked),
        plan_fold(c, fd, ranked) is Ok,
    ensures
        plan_invariant(c, fd, plan_fold(c, fd, ranked)->Ok_0),
        flights_laws(c, fd, plan_fold(c, fd, ranked)->Ok_0.flights),
{
    assert forall|k: int| 0 <= k < ranked.len() implies is_candidate(c, fd, prev, #[trigger] ranked[k]) by {
        assert(ranked.contains(ranked[k]));
    }
    lemma_fold_keeps_laws(c, fd, prev, ranked);
}

/// Two sequences of candidates, each strictly in ranking order, that hold
/// the same candidates are equal.
proof fn lemma_sorted_unique(r1: Seq<Candidate>, r2: Seq<Candidate>)
    requires
        forall|k: int, l: int| 0 <= k < l < r1.len() ==> crate::run::ranks_before(r1[k], r1[l]),
        forall|k: int, l: int| 0 <= k < l < r2.len() ==> crate::run::ranks_before(r2[k], r2[l]),
        forall|t: Candidate| r1.contains(t) <==> r2.contains(t),
    ensures
        r1 == r2,
    decreases r1.len(),
{
    if r1.len() == 0 {
        if r2.len() > 0 {
            assert(r2.contains(r2[0]));
        }
        assert(r1 =~= r2);
    } else {
        assert(r1.contains(r1[0]));
        assert(r2.len() > 0);
        assert(r2.contains(r2[0]));
        let j = choose|j: int| 0 <= j < r2.len() && r2[j] == r1[0];
        let i = choose|i: int| 0 <= i < r1.len() && r1[i] == r2[0];
        if j > 0 {
            assert(crate::run::ranks_before(r2[0], r2[j]));
            if i > 0 {
                assert(crate::run::ranks_before(r1[0], r1[i]));
            }
            assert(false);
        }
        assert(r1[0] == r2[0]);
        let d1 = r1.drop_first();
        let d2 = r2.drop_first();
        assert forall|t: Candidate| d1.contains(t) <==> d2.contains(t) by {
            if d1.contains(t) {
                let a = choose|a: int| 0 <= a < d1.len() && d1[a] == t;
                assert(r1[a + 1] == t);
                assert(crate::run::ranks_before(r1[0], r1[a + 1]));
                assert(r2.contains(t));
                let b = choose|b: int| 0 <= b < r2.len() && r2[b] == t;
                assert(b != 0);
                assert(d2[b - 1] == t);
            }
            if d2.contains(t) {
                let a = choose|a: int| 0 <= a < d2.len() && d2[a] == t;
                assert(r2[a + 1] == t);
                assert(crate::run::ranks_before(r2[0], r2[a + 1]));
                assert(r1.contains(t));
                let b = choose|b: int| 0 <= b < r1.len() && r1[b] == t;
                assert(b != 0);
                assert(d1[b - 1] == t);
            }
        }
        lemma_sorted_unique(d1, d2);
        assert(r1 =~= r2) by {
            assert forall|k: int| 0 <= k < r1.len() implies r1[k] == r2[k] by {
                if k > 0 {
                    assert(d1[k - 1] == d2[k - 1]);
                }
            }
        }
    }
}

/// The ranking is unique: two rankings of the candidates are equal, so the
/// planner's result is determined by its inputs.
pub proof fn ranking_is_unique(c: Config, fd: FlightData, prev: Option<Seq<Flight>>, r1: Seq<Candidate>, r2: Seq<Candidate>)
    requires
        is_ranking(c, fd, prev, r1),
        is_ranking(c, fd, prev, r2),
    ensures
        r1 == r2,
{
    lemma_sorted_unique(r1, r2);
}

/// The numbers of the configured ranges of airport `a`'s hub-to-airport
/// routes hold `n`.
pub open spec fn in_hub_ranges(c: Config, a: Seq<char>, n: u16) -> bool {
    match lookup(c.range_h2n@, a) {
        Some(rs) => range_numbers(rs@).contains(n),
        None => false,
    }
}

/// Flight `f`'s number comes from the ranges of its route kind: the
/// hub-to-hub ranges, the airport-to-airport ranges, or the ranges of one of
/// its two airports.
pub open spec fn number_in_ranges(c: Config, f: Flight) -> bool {
    if crate::run::is_h2h(f.ty) {
        range_numbers(c.range_h2h@).contains(f.number)
    } else if crate::run::is_n2n(f.ty) {
        range_numbers(c.range_n2n@).contains(f.number)
    } else {
        in_hub_ranges(c, f.airport1.0@, f.number) || in_hub_ranges(c, f.airport2.0@, f.number)
    }
}

/// The dispensers hand out the numbers of their ranges, and every flight's
/// number comes from the ranges of its route kind.
pub open spec fn ranges_invariant(c: Config, st: PlanView) -> bool {
    &&& st.h2h.nums == range_numbers(c.range_h2h@)
    &&& st.n2n.nums == range_numbers(c.range_n2n@)
    &&& forall|k: int| 0 <= k < st.h2n.len() ==> match lookup(c.range_h2n@, (#[trigger] st.h2n[k]).0@) {
        Some(rs) => st.h2n[k].1.nums == range_numbers(rs@),
        None => false,
    }
    &&& forall|k: int| 0 <= k < st.flights.len() ==> number_in_ranges(c, #[trigger] st.flights[k])
}

proof fn lemma_gen_find_in(nums: Seq<u16>, pos: int, fs: Seq<Flight>)
    ensures
        gen_find(nums, pos, fs).0 matches Some(x) ==> nums.contains(x),
    decreases nums.len() - pos,
{
    if 0 <= pos < nums.len() {
        if number_used(fs, nums[pos]) {
            lemma_gen_find_in(nums, pos + 1, fs);
        }
    }
}

proof fn lemma_draw_in(g: crate::fng::GenView, fs: Seq<Flight>, same: bool)
    ensures
        draw_numbers(g, fs, same).0 matches Some(x) ==> g.nums.contains(x),
        draw_numbers(g, fs, same).1 matches Some(x) ==> g.nums.contains(x),
        draw_numbers(g, fs, same).2.nums == g.nums,
{
    lemma_gen_find_in(g.nums, g.pos, fs);
    lemma_gen_find_in(g.nums, gen_find(g.nums, g.pos, fs).1, fs);
}

/// A successful number assignment keeps the ranges invariant.
proof fn lemma_assign_ranges(c: Config, st: PlanView, g1: Gate, g2: Gate, s: int, t: crate::flight_type::FlightType, v: PlanView)
    requires
        ranges_invariant(c, st),
        assign_numbers(c, st, g1, g2, s, t) == Ok::<PlanView, RunError>(v),
    ensures
        ranges_invariant(c, v),
{
    let same = c.both_dir_same_num;
    if crate::run::is_h2h(t) {
        lemma_draw_in(st.h2h, st.flights, same);
        let (n1, n2, g) = draw_numbers(st.h2h, st.flights, same);
        lemma_add_flights(PlanView { h2h: g, ..st }, g1, g2, s, t, n1, n2, v);
        assert forall|k: int| 0 <= k < v.flights.len() implies number_in_ranges(c, #[trigger] v.flights[k]) by {
            if k < st.flights.len() {
                assert(v.flights[k] == st.flights[k]);
            }
        }
    } else if crate::run::is_n2n(t) {
        lemma_draw_in(st.n2n, st.flights, same);
        let (n1, n2, g) = draw_numbers(st.n2n, st.flights, same);
        lemma_add_flights(PlanView { n2n: g, ..st }, g1, g2, s, t, n1, n2, v);
        assert forall|k: int| 0 <= k < v.flights.len() implies number_in_ranges(c, #[trigger] v.flights[k]) by {
            if k < st.flights.len() {
                assert(v.flights[k] == st.flights[k]);
            }
        }
    } else {
        let key = if crate::lists::has_key(c.range_h2n@, g1.airport@) { g1.airport } else { g2.airport };
        match lookup(st.h2n, key@) {
            Some(gen) => {
                let i = choose|i: int| crate::lists::key_at(st.h2n, key@, i);
                assert(crate::lists::key_at(st.h2n, key@, i)) by {
                    let w = choose|w: int| 0 <= w < st.h2n.len() && #[trigger] st.h2n[w].0@ == key@;
                    crate::lists::lemma_first_key(st.h2n, key@, w);
                }
                crate::lists::lemma_key_at(st.h2n, key@, i);
                assert(gen == st.h2n[i].1);
                lemma_draw_in(gen, st.flights, same);
                let (n1, n2, g) = draw_numbers(gen, st.flights, same);
                let m = crate::run::put_gen(st.h2n, key, g);
                assert(m == st.h2n.update(i, (st.h2n[i].0, g)));
                lemma_add_flights(PlanView { h2n: m, ..st }, g1, g2, s, t, n1, n2, v);
                assert(st.h2n[i].0@ == key@);
                let rs = lookup(c.range_h2n@, key@)->0;
                assert(gen.nums == range_numbers(rs@));
                assert forall|k: int| 0 <= k < v.h2n.len() implies match lookup(c.range_h2n@, (#[trigger] v.h2n[k]).0@) {
                    Some(rs) => v.h2n[k].1.nums == range_numbers(rs@),
                    None => false,
                } by {
                    if k != i {
                        assert(v.h2n[k] == st.h2n[k]);
                    }
                }
                assert forall|k: int| 0 <= k < v.flights.len() implies number_in_ranges(c, #[trigger] v.flights[k]) by {
                    if k < st.flights.len() {
                        assert(v.flights[k] == st.flights[k]);
                    } else {
                        assert(in_hub_ranges(c, key@, v.flights[k].number));
                    }
                }
            },
            None => match lookup(c.range_h2n@, key@) {
                None => {},
                Some(ranges) => {
                    let g0 = crate::fng::new_gen(ranges@);
                    lemma_draw_in(g0, st.flights, same);
                    let (n1, n2, g) = draw_numbers(g0, st.flights, same);
                    lemma_add_flights(PlanView { h2n: st.h2n.push((key, g)), ..st }, g1, g2, s, t, n1, n2, v);
                    assert forall|k: int| 0 <= k < v.h2n.len() implies match lookup(c.range_h2n@, (#[trigger] v.h2n[k]).0@) {
                        Some(rs) => v.h2n[k].1.nums == range_numbers(rs@),
                        None => false,
                    } by {
                        if k < st.h2n.len() {
                            assert(v.h2n[k] == st.h2n[k]);
                        }
                    }
                    assert forall|k: int| 0 <= k < v.flights.len() implies number_in_ranges(c, #[trigger] v.flights[k]) by {
                        if k < st.flights.len() {
                            assert(v.flights[k] == st.flights[k]);
                        } else {
                            assert(in_hub_ranges(c, key@, v.flights[k].number));
                        }
                    }
                },
            },
        }
    }
}

/// The ranges invariant holds after every prefix of a ranking.
proof fn lemma_fold_ranges(c: Config, fd: FlightData, r: Seq<Candidate>)
    ensures
        plan_fold(c, fd, r) matches Ok(st) ==> ranges_invariant(c, st),
    decreases r.len(),
{
    if r.len() == 0 {
        let st = initial_plan(c);
        assert(ranges_invariant(c, st));
    } else {
        lemma_fold_ranges(c, fd, r.drop_last());
        if let Ok(st) = plan_fold(c, fd, r.drop_last()) {
            let t = r.last();
            let res = plan_step(c, fd, st, t);
            if res is Ok && res != Ok::<PlanView, RunError>(st) {
                let gs = c.gates@;
                let (a, b) = oriented(c, t);
                let g1 = gs[a];
                let g2 = gs[b];
                let ty = crate::score::route_type(c, fd, gs[t.1 as int].airport@, gs[t.2 as int].airport@);
                let d1 = st.dests[canon(gs, a)];
                let d2 = st.dests[canon(gs, b)];
                let s = crate::score::gates_score_value(c, fd, gs[t.1 as int], gs[t.2 as int]) - crate::run::min_int(
                    crate::score::low_i8(d1.len() as int),
                    crate::score::low_i8(d2.len() as int),
                );
                let st2 = PlanView {
                    dests: st.dests.update(canon(gs, a), d1.push(g2.airport)).update(canon(gs, b), d2.push(g1.airport)),
                    ..st
                };
                assert(res == assign_numbers(c, st2, g1, g2, s, ty));
                lemma_assign_ranges(c, st2, g1, g2, s, ty, res->Ok_0);
            }
        }
    }
}

/// Every flight of a plan has a number from the configured ranges of its
/// route kind: hub to hub, airport to airport, or the ranges of one of its
/// airports for routes between a hub and another airport.
pub proof fn plan_numbers_in_ranges(c: Config, fd: FlightData, ranked: Seq<Candidate>)
    requires
        plan_fold(c, fd, ranked) is Ok,
    ensures
        forall|k: int| 0 <= k < plan_fold(c, fd, ranked)->Ok_0.flights.len()
            ==> number_in_ranges(c, #[trigger] plan_fold(c, fd, ranked)->Ok_0.flights[k]),
{
    lemma_fold_ranges(c, fd, ranked);
}

/// No number repeats within the configured ranges: the hub-to-hub ranges,
/// the airport-to-airport ranges, and each airport's ranges.
pub open spec fn ranges_distinct(c: Config) -> bool {
    &&& range_numbers(c.range_h2h@).no_duplicates()
    &&& range_numbers(c.range_n2n@).no_duplicates()
    &&& forall|k: int| 0 <= k < c.range_h2n@.len() ==> range_numbers((#[trigger] c.range_h2n@[k]).1@).no_duplicates()
}

/// The two flights of each pair have different numbers.
pub open spec fn pairs_numbered_apart(fs: Seq<Flight>) -> bool {
    forall|k: int| 0 <= k < fs.len() / 2 ==> (#[trigger] pair_at(fs, k)).0.number != pair_at(fs, k).1.number
}

proof fn lemma_gen_find_at(nums: Seq<u16>, pos: int, fs: Seq<Flight>)
    ensures
        gen_find(nums, pos, fs).0 matches Some(x) ==> 0 <= pos < gen_find(nums, pos, fs).1 <= nums.len()
            && nums[gen_find(nums, pos, fs).1 - 1] == x,
    decreases nums.len() - pos,
{
    if 0 <= pos < nums.len() && number_used(fs, nums[pos]) {
        lemma_gen_find_at(nums, pos + 1, fs);
    }
}

proof fn lemma_draw_apart(g: crate::fng::GenView, fs: Seq<Flight>)
    requires
        g.nums.no_duplicates(),
    ensures
        draw_numbers(g, fs, false).0 matches Some(x) ==> (draw_numbers(g, fs, false).1 matches Some(y) ==> x != y),
{
    let (n1, p1) = gen_find(g.nums, g.pos, fs);
    lemma_gen_find_at(g.nums, g.pos, fs);
    lemma_gen_find_at(g.nums, p1, fs);
}

/// The value that a key looks up is the value of one of the map's entries.
proof fn lemma_lookup_some<V>(m: Seq<(String, V)>, k: Seq<char>)
    requires
        lookup(m, k) is Some,
    ensures
        exists|j: int| 0 <= j < m.len() && m[j].1 == lookup(m, k)->0,
{
    let w = choose|w: int| 0 <= w < m.len() && #[trigger] m[w].0@ == k;
    crate::lists::lemma_first_key(m, k, w);
    let i = choose|i: int| crate::lists::key_at(m, k, i);
    crate::lists::lemma_key_at(m, k, i);
}

/// Where the ranges repeat no number and the two directions need not share
/// one, a successful number assignment gives the two flights different
/// numbers.
proof fn lemma_assign_apart(c: Config, st: PlanView, g1: Gate, g2: Gate, s: int, t: crate::flight_type::FlightType, v: PlanView)
    requires
        ranges_invariant(c, st),
        ranges_distinct(c),
        !c.both_dir_same_num,
        assign_numbers(c, st, g1, g2, s, t) == Ok::<PlanView, RunError>(v),
    ensures
        exists|x: u16, y: u16|
            x != y && v.flights == st.flights.push(make_flight(x, g1, g2, s, t)).push(make_flight(y, g2, g1, s, t)),
{
    if crate::run::is_h2h(t) {
        lemma_draw_apart(st.h2h, st.flights);
        let (n1, n2, g) = draw_numbers(st.h2h, st.flights, false);
        lemma_add_flights(PlanView { h2h: g, ..st }, g1, g2, s, t, n1, n2, v);
    } else if crate::run::is_n2n(t) {
        lemma_draw_apart(st.n2n, st.flights);
        let (n1, n2, g) = draw_numbers(st.n2n, st.flights, false);
        lemma_add_flights(PlanView { n2n: g, ..st }, g1, g2, s, t, n1, n2, v);
    } else {
        let key = if crate::lists::has_key(c.range_h2n@, g1.airport@) { g1.airport } else { g2.airport };
        match lookup(st.h2n, key@) {
            Some(gen) => {
                lemma_lookup_some(st.h2n, key@);
                let i = choose|i: int| 0 <= i < st.h2n.len() && st.h2n[i].1 == gen;
                assert(match lookup(c.range_h2n@, st.h2n[i].0@) {
                    Some(rs) => st.h2n[i].1.nums == range_numbers(rs@),
                    None => false,
                });
                lemma_lookup_some(c.range_h2n@, st.h2n[i].0@);
                lemma_draw_apart(gen, st.flights);
                let (n1, n2, g) = draw_numbers(gen, st.flights, false);
                lemma_add_flights(PlanView { h2n: crate::run::put_gen(st.h2n, key, g), ..st }, g1, g2, s, t, n1, n2, v);
            },
            None => match lookup(c.range_h2n@, key@) {
                None => {},
                Some(ranges) => {
                    lemma_lookup_some(c.range_h2n@, key@);
                    lemma_draw_apart(crate::fng::new_gen(ranges@), st.flights);
                    let (n1, n2, g) = draw_numbers(crate::fng::new_gen(ranges@), st.flights, false);
                    lemma_add_flights(PlanView { h2n: st.h2n.push((key, g)), ..st }, g1, g2, s, t, n1, n2, v);
                },
            },
        }
    }
}

/// After every prefix of a ranking, the plan's pairs are numbered apart.
proof fn lemma_fold_apart(c: Config, fd: FlightData, r: Seq<Candidate>)
    requires
        ranges_distinct(c),
        !c.both_dir_same_num,
    ensures
        plan_fold(c, fd, r) matches Ok(st) ==> st.flights.len() % 2 == 0 && pairs_numbered_apart(st.flights),
    decreases r.len(),
{
    if r.len() == 0 {
        let st = initial_plan(c);
        assert(st.flights.len() == 0);
    } else {
        lemma_fold_apart(c, fd, r.drop_last());
        lemma_fold_ranges(c, fd, r.drop_last());
        if let Ok(st) = plan_fold(c, fd, r.drop_last()) {
            let t = r.last();
            let res = plan_step(c, fd, st, t);
            if res is Ok && res != Ok::<PlanView, RunError>(st) {
                let gs = c.gates@;
                let (a, b) = oriented(c, t);
                let g1 = gs[a];
                let g2 = gs[b];
                let ty = crate::score::route_type(c, fd, gs[t.1 as int].airport@, gs[t.2 as int].airport@);
                let d1 = st.dests[canon(gs, a)];
                let d2 = st.dests[canon(gs, b)];
                let s = crate::score::gates_score_value(c, fd, gs[t.1 as int], gs[t.2 as int]) - crate::run::min_int(
                    crate::score::low_i8(d1.len() as int),
                    crate::score::low_i8(d2.len() as int),
                );
                let st2 = PlanView {
                    dests: st.dests.update(canon(gs, a), d1.push(g2.airport)).update(canon(gs, b), d2.push(g1.airport)),
                    ..st
                };
                assert(res == assign_numbers(c, st2, g1, g2, s, ty));
                let v = res->Ok_0;
                lemma_assign_apart(c, st2, g1, g2, s, ty, v);
                let (x, y) = choose|x: u16, y: u16|
                    x != y && v.flights == st2.flights.push(make_flight(x, g1, g2, s, ty)).push(make_flight(y, g2, g1, s, ty));
                let fs = st.flights;
                let n = fs.len() / 2;
                assert(v.flights.len() / 2 == n + 1);
                assert forall|k: int| 0 <= k < v.flights.len() / 2 implies (#[trigger] pair_at(v.flights, k)).0.number
                    != pair_at(v.flights, k).1.number by {
                    if k < n {
                        assert(pair_at(v.flights, k) == pair_at(fs, k));
                    }
                }
            }
        }
    }
}

/// Where the configured ranges repeat no number and `both_dir_same_num` is
/// not set, the two flights of each pair of a plan have different numbers.
pub proof fn pair_numbers_differ(c: Config, fd: FlightData, ranked: Seq<Candidate>)
    requires
        ranges_distinct(c),
        !c.both_dir_same_num,
        plan_fold(c, fd, ranked) is Ok,
    ensures
        pairs_numbered_apart(plan_fold(c, fd, ranked)->Ok_0.flights),
{
    lemma_fold_apart(c, fd, ranked);
}

/// A pair of gates joined by a hub-to-airport route is refused for its
/// kind's limit only where one of its gates has reached that limit:
/// `max_h2n_hub` destinations of the route's kind at a hub's gate,
/// `max_h2n_nonhub` at another airport's gate. Where no other rule of the
/// step refuses the pair (destination limits, a score out of range or
/// negative, a route already flown, hard limits) and both gates are below
/// those limits, the step does not skip the pair: it adds it, or fails.
pub proof fn h2n_refused_only_at_limit(c: Config, fd: FlightData, st: PlanView, t: Candidate)
    ensures
        ({
            let gs = c.gates@;
            let (a, b) = oriented(c, t);
            let g1 = gs[a];
            let g2 = gs[b];
            let ty = crate::score::route_type(c, fd, gs[t.1 as int].airport@, gs[t.2 as int].airport@);
            let d1 = st.dests[canon(gs, a)];
            let d2 = st.dests[canon(gs, b)];
            let s = crate::score::gates_score_value(c, fd, gs[t.1 as int], gs[t.2 as int]) - crate::run::min_int(
                crate::score::low_i8(d1.len() as int),
                crate::score::low_i8(d2.len() as int),
            );
            (!crate::run::is_h2h(ty) && !crate::run::is_n2n(ty) && d1.len() < crate::run::dest_limit(c, g1)
                && d2.len() < crate::run::dest_limit(c, g2) && 0 <= s <= 127 && !route_taken(
                st.flights,
                g1.airport@,
                g2.airport@,
            ) && d1.len() < hard_limit(c, g1) && d2.len() < hard_limit(c, g2) && crate::run::count_of_type(
                c,
                fd,
                g1.airport@,
                d1,
                ty,
            ) < (if is_hub(c, g1.airport@) { c.max_h2n_hub as int } else { c.max_h2n_nonhub as int })
                && crate::run::count_of_type(c, fd, g2.airport@, d2, ty) < (if is_hub(c, g2.airport@) {
                c.max_h2n_hub as int
            } else {
                c.max_h2n_nonhub as int
            })) ==> plan_step(c, fd, st, t) != Ok::<PlanView, RunError>(st)
        }),
{
    let gs = c.gates@;
    let (a, b) = oriented(c, t);
    let g1 = gs[a];
    let g2 = gs[b];
    let ty = crate::score::route_type(c, fd, gs[t.1 as int].airport@, gs[t.2 as int].airport@);
    let d1 = st.dests[canon(gs, a)];
    let d2 = st.dests[canon(gs, b)];
    let s = crate::score::gates_score_value(c, fd, gs[t.1 as int], gs[t.2 as int]) - crate::run::min_int(
        crate::score::low_i8(d1.len() as int),
        crate::score::low_i8(d2.len() as int),
    );
    let st2 = PlanView {
        dests: st.dests.update(canon(gs, a), d1.push(g2.airport)).update(canon(gs, b), d2.push(g1.airport)),
        ..st
    };
    let r = assign_numbers(c, st2, g1, g2, s, ty);
    if r is Ok {
        lemma_assign(c, st2, g1, g2, s, ty, r->Ok_0);
        let v = r->Ok_0;
        assert(v.flights.len() == st.flights.len() + 2);
        assert(v != st);
    }
}

/// A pair of gates is refused for its route kind's limit only where one of
/// its gates has reached that limit: `max_h2h` for hub-to-hub routes,
/// `max_n2n` for routes between two other airports, and for hub-to-airport
/// routes `max_h2n_hub` at a hub's gate and `max_h2n_nonhub` at another
/// airport's gate. Where no other rule of the
/// step refuses the pair (destination limits, a score out of range or
/// negative, a route already flown, hard limits) and both gates are below
/// those limits, the step does not skip the pair: it adds it, or fails.
pub proof fn kind_limit_refuses_only_at_limit(c: Config, fd: FlightData, st: PlanView, t: Candidate)
    ensures
        ({
            let gs = c.gates@;
            let (a, b) = oriented(c, t);
            let g1 = gs[a];
            let g2 = gs[b];
            let ty = crate::score::route_type(c, fd, gs[t.1 as int].airport@, gs[t.2 as int].airport@);
            let d1 = st.dests[canon(gs, a)];
            let d2 = st.dests[canon(gs, b)];
            let s = crate::score::gates_score_value(c, fd, gs[t.1 as int], gs[t.2 as int]) - crate::run::min_int(
                crate::score::low_i8(d1.len() as int),
                crate::score::low_i8(d2.len() as int),
            );
            (d1.len() < crate::run::dest_limit(c, g1)
                && d2.len() < crate::run::dest_limit(c, g2) && 0 <= s <= 127 && !route_taken(
                st.flights,
                g1.airport@,
                g2.airport@,
            ) && d1.len() < hard_limit(c, g1) && d2.len() < hard_limit(c, g2) && crate::run::count_of_type(
                c,
                fd,
                g1.airport@,
                d1,
                ty,
            ) < (if crate::run::is_h2h(ty) { c.max_h2h as int } else if crate::run::is_n2n(ty) { c.max_n2n as int } else if is_hub(c, g1.airport@) { c.max_h2n_hub as int } else { c.max_h2n_nonhub as int })
                && crate::run::count_of_type(c, fd, g2.airport@, d2, ty) < (if crate::run::is_h2h(ty) { c.max_h2h as int } else if crate::run::is_n2n(ty) { c.max_n2n as int } else if is_hub(c, g2.airport@) { c.max_h2n_hub as int } else { c.max_h2n_nonhub as int })) ==> plan_step(c, fd, st, t) != Ok::<PlanView, RunError>(st)
        }),
{
    let gs = c.gates@;
    let (a, b) = oriented(c, t);
    let g1 = gs[a];
    let g2 = gs[b];
    let ty = crate::score::route_type(c, fd, gs[t.1 as int].airport@, gs[t.2 as int].airport@);
    let d1 = st.dests[canon(gs, a)];
    let d2 = st.dests[canon(gs, b)];
    let s = crate::score::gates_score_value(c, fd, gs[t.1 as int], gs[t.2 as int]) - crate::run::min_int(
        crate::score::low_i8(d1.len() as int),
        crate::score::low_i8(d2.len() as int),
    );
    let st2 = PlanView {
        dests: st.dests.update(canon(gs, a), d1.push(g2.airport)).update(canon(gs, b), d2.push(g1.airport)),
        ..st
    };
    let r = assign_numbers(c, st2, g1, g2, s, ty);
    if r is Ok {
        lemma_assign(c, st2, g1, g2, s, ty, r->Ok_0);
        let v = r->Ok_0;
        assert(v.flights.len() == st.flights.len() + 2);
        assert(v != st);
    }
}

} // verus!
