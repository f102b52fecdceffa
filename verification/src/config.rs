//! The airline's configuration: its gates, hubs, limits, flight number
//! ranges and route preferences.
//!
//! Maps of the configuration are association lists keyed by airport (or gate)
//! code; a key is looked up at its first entry.
use vstd::prelude::*;
use crate::gate::{Gate, PartialGate};
use crate::lists::{has_key, keys_distinct, entries_kept, lemma_lookup_kept, lemma_groups_kept, seq_has, contains_str, lookup, find_key, list_at_has, list_at_contains, some_group_has_both, any_group_has_both};
use crate::flight_data::FlightData;
use crate::flight_type::is_existing;
use crate::score::route_type;

verus! {

/// A range of flight numbers, both ends included.
pub type NumberRange = (u16, u16);

/// The planner's configuration.
#[derive(Clone, Debug)]
pub struct Config {
    pub airline_name: String,
    pub ignored_airlines: Vec<String>,
    pub hubs: Vec<String>,
    pub hub_threshold: usize,
    pub range_h2h: Vec<NumberRange>,
    pub range_n2n: Vec<NumberRange>,
    pub range_h2n: Vec<(String, Vec<NumberRange>)>,
    pub both_dir_same_num: bool,
    pub gate_file: Option<String>,
    pub gates_by_airport: Vec<(String, Vec<PartialGate>)>,
    pub hard_max_hub: u8,
    pub hard_max_nonhub: u8,
    pub max_h2h: u8,
    pub max_h2n_hub: u8,
    pub max_h2n_nonhub: u8,
    pub max_n2n: u8,
    pub restricted_between: Vec<Vec<String>>,
    pub restricted_to: Vec<(String, Vec<String>)>,
    pub no_dupes: Vec<String>,
    pub preferred_between: Vec<Vec<String>>,
    pub preferred_to: Vec<(String, Vec<String>)>,
    pub gate_allowed_dests: Vec<(String, Vec<(String, Vec<String>)>)>,
    pub gate_denied_dests: Vec<(String, Vec<(String, Vec<String>)>)>,
    pub max_dests_per_gate: Vec<(String, u8)>,
    pub gates: Vec<Gate>,
}

/// The airports of a list of gates, in the gates' order.
pub open spec fn gate_airports(gates: Seq<Gate>) -> Seq<Seq<char>> {
    gates.map_values(|g: Gate| g.airport@)
}

/// The characters of each string of a list.
pub open spec fn views(v: Seq<String>) -> Seq<Seq<char>> {
    v.map_values(|s: String| s@)
}

/// Each element of `s` at its first occurrence, in order.
pub open spec fn first_occurrences(s: Seq<Seq<char>>) -> Seq<Seq<char>>
    decreases s.len(),
{
    if s.len() == 0 {
        seq![]
    } else {
        let d = first_occurrences(s.drop_last());
        if d.contains(s.last()) {
            d
        } else {
            d.push(s.last())
        }
    }
}

/// Number of gates of airport `a`.
pub open spec fn airport_gate_count(gates: Seq<Gate>, a: Seq<char>) -> nat
    decreases gates.len(),
{
    if gates.len() == 0 {
        0
    } else {
        airport_gate_count(gates.drop_last(), a) + (if gates.last().airport@ == a {
            1nat
        } else {
            0nat
        })
    }
}

/// Airport `a` is a hub: listed as one, or, where no hub is listed, an
/// airport with at least `hub_threshold` gates.
pub open spec fn is_hub(c: Config, a: Seq<char>) -> bool {
    if c.hubs.len() == 0 {
        airport_gate_count(c.gates@, a) > 0 && airport_gate_count(c.gates@, a) >= c.hub_threshold
    } else {
        seq_has(c.hubs@, a)
    }
}

/// The airports of `s` with at least one gate and at least `hub_threshold`
/// gates, in order.
pub open spec fn counted_hubs(c: Config, s: Seq<Seq<char>>) -> Seq<Seq<char>>
    decreases s.len(),
{
    if s.len() == 0 {
        seq![]
    } else if airport_gate_count(c.gates@, s.last()) > 0 && airport_gate_count(c.gates@, s.last()) >= c.hub_threshold {
        counted_hubs(c, s.drop_last()).push(s.last())
    } else {
        counted_hubs(c, s.drop_last())
    }
}

/// The hubs as `hubs()` lists them: the listed hubs, or, where none is
/// listed, the airports with enough gates in the order of their first gate.
pub open spec fn hub_list(c: Config) -> Seq<Seq<char>> {
    if c.hubs.len() > 0 {
        views(c.hubs@)
    } else {
        counted_hubs(c, first_occurrences(gate_airports(c.gates@)))
    }
}

/// The gates that the configuration lists under their airports, airport by
/// airport.
pub open spec fn expand_gates(m: Seq<(String, Vec<PartialGate>)>) -> Seq<Gate>
    decreases m.len(),
{
    if m.len() == 0 {
        seq![]
    } else {
        expand_gates(m.drop_last()) + m.last().1@.map_values(
            |pg: PartialGate| Gate { airport: m.last().0, code: pg.code, size: pg.size },
        )
    }
}

proof fn lemma_seq_has_views(v: Seq<String>, s: Seq<char>)
    ensures
        seq_has(v, s) <==> views(v).contains(s),
{
    if seq_has(v, s) {
        let i = choose|i: int| 0 <= i < v.len() && #[trigger] v[i]@ == s;
        assert(views(v)[i] == s);
    }
    if views(v).contains(s) {
        let i = choose|i: int| 0 <= i < views(v).len() && views(v)[i] == s;
        assert(v[i]@ == s);
    }
}

proof fn lemma_first_occurrences_contains(s: Seq<Seq<char>>, a: Seq<char>)
    ensures
        first_occurrences(s).contains(a) <==> s.contains(a),
    decreases s.len(),
{
    if s.len() > 0 {
        lemma_first_occurrences_contains(s.drop_last(), a);
        let d = first_occurrences(s.drop_last());
        if s.contains(a) && !s.drop_last().contains(a) {
            let i = choose|i: int| 0 <= i < s.len() && s[i] == a;
            if i < s.len() - 1 {
                assert(s.drop_last()[i] == a);
            }
        }
        if s.drop_last().contains(a) {
            let i = choose|i: int| 0 <= i < s.drop_last().len() && s.drop_last()[i] == a;
            assert(s[i] == a);
        }
        if !d.contains(s.last()) {
            assert(d.push(s.last()).last() == s.last());
            if d.contains(a) {
                let i = choose|i: int| 0 <= i < d.len() && d[i] == a;
                assert(d.push(s.last())[i] == a);
            }
            if d.push(s.last()).contains(a) && a != s.last() {
                let i = choose|i: int| 0 <= i < d.len() + 1 && d.push(s.last())[i] == a;
                assert(d[i] == a);
            }
        }
    }
}

/// An airport has gates exactly when some gate belongs to it.
proof fn lemma_gate_count_positive(gates: Seq<Gate>, a: Seq<char>)
    ensures
        airport_gate_count(gates, a) > 0 <==> gate_airports(gates).contains(a),
    decreases gates.len(),
{
    if gates.len() > 0 {
        lemma_gate_count_positive(gates.drop_last(), a);
        let ga = gate_airports(gates);
        let gd = gate_airports(gates.drop_last());
        assert(gd =~= ga.drop_last());
        assert(ga[ga.len() - 1] == gates.last().airport@);
        if ga.contains(a) {
            let i = choose|i: int| 0 <= i < ga.len() && ga[i] == a;
            if i < ga.len() - 1 {
                assert(gd[i] == a);
            }
        }
        if gd.contains(a) {
            let i = choose|i: int| 0 <= i < gd.len() && gd[i] == a;
            assert(ga[i] == a);
        }
    }
}

/// Number of gates of `a` in the list.
pub fn count_airport_gates(gates: &Vec<Gate>, a: &String) -> (r: usize)
    ensures
        r == airport_gate_count(gates@, a@),
{
    let mut n: usize = 0;
    let mut i: usize = 0;
    while i < gates.len()
        invariant
            i <= gates.len(),
            n == airport_gate_count(gates@.take(i as int), a@),
            n <= i,
        decreases gates.len() - i,
    {
        proof {
            assert(gates@.take(i + 1).drop_last() =~= gates@.take(i as int));
        }
        if gates[i].airport == *a {
            n = n + 1;
        }
        i = i + 1;
    }
    proof {
        assert(gates@.take(i as int) =~= gates@);
    }
    n
}

impl Config {
    /// The airports that have gates, each once, in the order of their first
    /// gate.
    pub fn airports(&self) -> (r: Vec<String>)
        ensures
            views(r@) == first_occurrences(gate_airports(self.gates@)),
    {
        let mut r: Vec<String> = Vec::new();
        let mut i: usize = 0;
        while i < self.gates.len()
            invariant
                i <= self.gates.len(),
                views(r@) == first_occurrences(gate_airports(self.gates@.take(i as int))),
            decreases self.gates.len() - i,
        {
            let ghost prev = gate_airports(self.gates@.take(i as int));
            proof {
                assert(gate_airports(self.gates@.take(i + 1)).drop_last() =~= prev);
                assert(gate_airports(self.gates@.take(i + 1)).last() == self.gates@[i as int].airport@);
                lemma_seq_has_views(r@, self.gates@[i as int].airport@);
            }
            let ghost r0 = r@;
            if !contains_str(&r, &self.gates[i].airport) {
                r.push(self.gates[i].airport.clone());
                proof {
                    assert(views(r@) =~= views(r0).push(self.gates@[i as int].airport@));
                }
            }
            i = i + 1;
        }
        proof {
            assert(self.gates@.take(i as int) =~= self.gates@);
        }
        r
    }

    /// Whether `a` is a hub.
    pub fn is_hub(&self, a: &String) -> (r: bool)
        ensures
            r == is_hub(*self, a@),
    {
        if self.hubs.len() == 0 {
            let n = count_airport_gates(&self.gates, a);
            n > 0 && n >= self.hub_threshold
        } else {
            contains_str(&self.hubs, a)
        }
    }

    /// The hubs: those listed, or, where none is listed, each airport with at
    /// least `hub_threshold` gates, once.
    pub fn hubs(&self) -> (r: Vec<String>)
        ensures
            self.hubs.len() > 0 ==> r@ == self.hubs@,
            self.hubs.len() == 0 ==> views(r@).no_duplicates(),
            views(r@) == hub_list(*self),
            forall|a: Seq<char>| seq_has(r@, a) <==> is_hub(*self, a),
    {
        if self.hubs.len() > 0 {
            let r = self.hubs.clone();
            proof {
                assert(views(r@) =~= views(self.hubs@));
            }
            return r;
        }
        let airports = self.airports();
        let ghost all = first_occurrences(gate_airports(self.gates@));
        let mut r: Vec<String> = Vec::new();
        let mut i: usize = 0;
        while i < airports.len()
            invariant
                i <= airports.len(),
                self.hubs.len() == 0,
                views(airports@) == all,
                all == first_occurrences(gate_airports(self.gates@)),
                views(r@).no_duplicates(),
                views(r@) == counted_hubs(*self, all.take(i as int)),
                forall|k: int| 0 <= k < r.len() ==> exists|j: int| 0 <= j < i && #[trigger] r@[k]@ == airports@[j]@,
                forall|k: int| 0 <= k < r.len() ==> is_hub(*self, #[trigger] r@[k]@),
                forall|j: int| 0 <= j < i && is_hub(*self, #[trigger] airports@[j]@) ==> seq_has(r@, airports@[j]@),
            decreases airports.len() - i,
        {
            proof {
                assert(all.take(i + 1).drop_last() =~= all.take(i as int));
                assert(all.take(i + 1).last() == all[i as int]);
                assert(all[i as int] == airports@[i as int]@);
            }
            let n = count_airport_gates(&self.gates, &airports[i]);
            if n > 0 && n >= self.hub_threshold {
                proof {
                    assert(all.no_duplicates()) by {
                        lemma_first_occurrences_distinct(gate_airports(self.gates@));
                    }
                    assert forall|k: int| 0 <= k < r.len() implies #[trigger] r@[k]@ != airports@[i as int]@ by {
                        let j = choose|j: int| 0 <= j < i && #[trigger] r@[k]@ == airports@[j]@;
                        assert(all[j] == airports@[j]@);
                        assert(all[i as int] == airports@[i as int]@);
                    }
                }
                let ghost r0 = r@;
                r.push(airports[i].clone());
                proof {
                    assert(views(r@) =~= views(r0).push(airports@[i as int]@));
                    assert(r@[r.len() - 1]@ == airports@[i as int]@);
                    assert forall|j: int| 0 <= j < i + 1 && is_hub(*self, #[trigger] airports@[j]@)
                        implies seq_has(r@, airports@[j]@) by {
                        if j < i {
                            let k = choose|k: int| 0 <= k < r0.len() && #[trigger] r0[k]@ == airports@[j]@;
                            assert(r@[k] == r0[k]);
                        } else {
                            assert(r@[r.len() - 1]@ == airports@[j]@);
                        }
                    }
                    assert forall|k: int| 0 <= k < r.len() implies exists|j: int| 0 <= j < i + 1 && #[trigger] r@[k]@ == airports@[j]@ by {
                        if k < r.len() - 1 {
                            assert(r@[k] == r0[k]);
                        } else {
                            assert(r@[k]@ == airports@[i as int]@);
                        }
                    }
                }
            }
            i = i + 1;
        }
        proof {
            assert(all.take(i as int) =~= all);
            assert forall|a: Seq<char>| seq_has(r@, a) <==> is_hub(*self, a) by {
                lemma_first_occurrences_contains(gate_airports(self.gates@), a);
                lemma_gate_count_positive(self.gates@, a);
                if is_hub(*self, a) {
                    assert(all.contains(a));
                    let j = choose|j: int| 0 <= j < all.len() && all[j] == a;
                    assert(airports@[j]@ == a);
                }
                if seq_has(r@, a) {
                    let k = choose|k: int| 0 <= k < r@.len() && #[trigger] r@[k]@ == a;
                    assert(is_hub(*self, r@[k]@));
                }
            }
        }
        r
    }

    /// The airlines whose flights the planner ignores: those listed, or, where
    /// none is listed, the airline itself.
    pub fn ignored_airlines(&self) -> (r: Vec<String>)
        ensures
            self.ignored_airlines.len() > 0 ==> r@ == self.ignored_airlines@,
            self.ignored_airlines.len() == 0 ==> r@ == seq![self.airline_name],
    {
        if self.ignored_airlines.len() == 0 {
            let mut r: Vec<String> = Vec::new();
            r.push(self.airline_name.clone());
            r
        } else {
            self.ignored_airlines.clone()
        }
    }

    /// The gates listed under their airports in `gates_by_airport`, airport
    /// by airport.
    pub fn expand_gates(&self) -> (r: Vec<Gate>)
        ensures
            r@ == expand_gates(self.gates_by_airport@),
    {
        let m = &self.gates_by_airport;
        let mut r: Vec<Gate> = Vec::new();
        let mut i: usize = 0;
        while i < m.len()
            invariant
                i <= m.len(),
                r@ == expand_gates(m@.take(i as int)),
            decreases m.len() - i,
        {
            proof {
                assert(m@.take(i + 1).drop_last() =~= m@.take(i as int));
            }
            let ghost before = r@;
            let pgs = &m[i].1;
            let mut k: usize = 0;
            while k < pgs.len()
                invariant
                    k <= pgs.len(),
                    i < m.len(),
                    pgs == m@[i as int].1,
                    r@ == before + pgs@.take(k as int).map_values(
                        |pg: PartialGate| Gate { airport: m@[i as int].0, code: pg.code, size: pg.size },
                    ),
                decreases pgs.len() - k,
            {
                let g = Gate { airport: m[i].0.clone(), code: pgs[k].code.clone(), size: pgs[k].size.clone() };
                r.push(g);
                proof {
                    assert(pgs@.take(k + 1).map_values(
                        |pg: PartialGate| Gate { airport: m@[i as int].0, code: pg.code, size: pg.size },
                    ) =~= pgs@.take(k as int).map_values(
                        |pg: PartialGate| Gate { airport: m@[i as int].0, code: pg.code, size: pg.size },
                    ).push(g));
                }
                k = k + 1;
            }
            proof {
                assert(pgs@.take(k as int) =~= pgs@);
                assert(m@.take(i + 1).last() == m@[i as int]);
            }
            i = i + 1;
        }
        proof {
            assert(m@.take(i as int) =~= m@);
        }
        r
    }
}

/// No airport occurs twice in the first occurrences.
proof fn lemma_first_occurrences_distinct(s: Seq<Seq<char>>)
    ensures
        first_occurrences(s).no_duplicates(),
    decreases s.len(),
{
    if s.len() > 0 {
        lemma_first_occurrences_distinct(s.drop_last());
    }
}

/// The destination list that a per-gate map gives gate `code` of airport `a`.
pub open spec fn gate_list(m: Seq<(String, Vec<(String, Vec<String>)>)>, a: Seq<char>, code: Seq<char>) -> Option<Vec<String>> {
    match lookup(m, a) {
        Some(gs) => lookup(gs@, code),
        None => None,
    }
}

/// Gate `g` has a list of allowed destinations and `dest` is not on it.
pub open spec fn allowed_list_excludes(c: Config, g: Gate, dest: Seq<char>) -> bool {
    match gate_list(c.gate_allowed_dests@, g.airport@, g.code@) {
        Some(v) => !seq_has(v@, dest),
        None => false,
    }
}

/// Gate `g` has a list of denied destinations and `dest` is on it.
pub open spec fn denied_list_includes(c: Config, g: Gate, dest: Seq<char>) -> bool {
    match gate_list(c.gate_denied_dests@, g.airport@, g.code@) {
        Some(v) => seq_has(v@, dest),
        None => false,
    }
}

/// Whether the configuration lets the planner connect gates `g1` and `g2`.
/// Gates of one airport, or of different sizes, are never connected; then
/// restrictions (of airport pairs, of airports' destinations, of gates'
/// allowed and denied destinations) refuse a pair; then preferences accept
/// it; then an airport listed in `no_dupes` refuses routes that another
/// airline already flies.
pub open spec fn valid_flight(c: Config, fd: FlightData, g1: Gate, g2: Gate) -> bool {
    let a1 = g1.airport@;
    let a2 = g2.airport@;
    if a1 == a2 || g1.size@ != g2.size@ {
        false
    } else if some_group_has_both(c.restricted_between@, a1, a2) {
        false
    } else if list_at_has(c.restricted_to@, a1, a2) || list_at_has(c.restricted_to@, a2, a1) {
        false
    } else if allowed_list_excludes(c, g1, a2) || allowed_list_excludes(c, g2, a1) {
        false
    } else if denied_list_includes(c, g1, a2) || denied_list_includes(c, g2, a1) {
        false
    } else if some_group_has_both(c.preferred_between@, a1, a2) {
        true
    } else if list_at_has(c.preferred_to@, a1, a2) || list_at_has(c.preferred_to@, a2, a1) {
        true
    } else if seq_has(c.no_dupes@, a1) || seq_has(c.no_dupes@, a2) {
        !is_existing(route_type(c, fd, a1, a2))
    } else {
        true
    }
}

/// The destination list of gate `code` of airport `a` in a per-gate map.
fn find_gate_list<'a>(m: &'a Vec<(String, Vec<(String, Vec<String>)>)>, a: &String, code: &String) -> (r: Option<&'a Vec<String>>)
    ensures
        match r {
            Some(v) => gate_list(m@, a@, code@) == Some(*v),
            None => gate_list(m@, a@, code@) is None,
        },
{
    match find_key(m, a) {
        Some(i) => {
            let gs = &m[i].1;
            match find_key(gs, code) {
                Some(k) => Some(&gs[k].1),
                None => None,
            }
        },
        None => None,
    }
}

fn allowed_excludes(c: &Config, g: &Gate, dest: &String) -> (r: bool)
    ensures
        r == allowed_list_excludes(*c, *g, dest@),
{
    match find_gate_list(&c.gate_allowed_dests, &g.airport, &g.code) {
        Some(v) => !contains_str(v, dest),
        None => false,
    }
}

fn denied_includes(c: &Config, g: &Gate, dest: &String) -> (r: bool)
    ensures
        r == denied_list_includes(*c, *g, dest@),
{
    match find_gate_list(&c.gate_denied_dests, &g.airport, &g.code) {
        Some(v) => contains_str(v, dest),
        None => false,
    }
}

impl Config {
    /// Whether the planner may connect gates `g1` and `g2`.
    pub fn is_valid_flight(&self, fd: &FlightData, g1: &Gate, g2: &Gate) -> (r: bool)
        ensures
            r == valid_flight(*self, *fd, *g1, *g2),
    {
        let a1 = &g1.airport;
        let a2 = &g2.airport;
        if *a1 == *a2 || g1.size != g2.size {
            return false;
        }
        if any_group_has_both(&self.restricted_between, a1, a2) {
            return false;
        }
        if list_at_contains(&self.restricted_to, a1, a2) || list_at_contains(&self.restricted_to, a2, a1) {
            return false;
        }
        if allowed_excludes(self, g1, a2) || allowed_excludes(self, g2, a1) {
            return false;
        }
        if denied_includes(self, g1, a2) || denied_includes(self, g2, a1) {
            return false;
        }
        if any_group_has_both(&self.preferred_between, a1, a2) {
            return true;
        }
        if list_at_contains(&self.preferred_to, a1, a2) || list_at_contains(&self.preferred_to, a2, a1) {
            return true;
        }
        if contains_str(&self.no_dupes, a1) || contains_str(&self.no_dupes, a2) {
            return !self.gates_flight_type(fd, g1, g2).existing();
        }
        true
    }
}

/// The list of airports names each airport that has a gate, and each once.
pub proof fn airport_list_laws(gates: Seq<Gate>)
    ensures
        first_occurrences(gate_airports(gates)).no_duplicates(),
        forall|a: Seq<char>| first_occurrences(gate_airports(gates)).contains(a) <==> gate_airports(gates).contains(a),
{
    lemma_first_occurrences_distinct(gate_airports(gates));
    assert forall|a: Seq<char>| first_occurrences(gate_airports(gates)).contains(a) <==> gate_airports(gates).contains(a) by {
        lemma_first_occurrences_contains(gate_airports(gates), a);
    }
}

/// Appending restrictions never makes a pair of gates valid: where `c2` has
/// the groups, airport restrictions and denied gate destinations of `c`
/// with more appended (and agrees with `c` on everything else that the rules
/// read), a pair that `c2` accepts, `c` accepts too.
pub proof fn appended_restrictions_accept_less(
    c: Config,
    c2: Config,
    fd: FlightData,
    g1: Gate,
    g2: Gate,
    more_between: Seq<Vec<String>>,
    more_to: Seq<(String, Vec<String>)>,
    more_denied: Seq<(String, Vec<(String, Vec<String>)>)>,
)
    requires
        c2.restricted_between@ == c.restricted_between@ + more_between,
        c2.restricted_to@ == c.restricted_to@ + more_to,
        c2.gate_denied_dests@ == c.gate_denied_dests@ + more_denied,
        c2.gate_allowed_dests@ == c.gate_allowed_dests@,
        c2.preferred_between@ == c.preferred_between@,
        c2.preferred_to@ == c.preferred_to@,
        c2.no_dupes@ == c.no_dupes@,
        c2.hubs@ == c.hubs@,
        c2.gates@ == c.gates@,
        c2.hub_threshold == c.hub_threshold,
    ensures
        valid_flight(c2, fd, g1, g2) ==> valid_flight(c, fd, g1, g2),
{
    let a1 = g1.airport@;
    let a2 = g2.airport@;
    crate::lists::lemma_groups_prefix(c.restricted_between@, more_between, a1, a2);
    crate::lists::lemma_list_at_prefix(c.restricted_to@, more_to, a1, a2);
    crate::lists::lemma_list_at_prefix(c.restricted_to@, more_to, a2, a1);
    if crate::lists::has_key(c.gate_denied_dests@, a1) {
        crate::lists::lemma_lookup_prefix(c.gate_denied_dests@, more_denied, a1);
    }
    if crate::lists::has_key(c.gate_denied_dests@, a2) {
        crate::lists::lemma_lookup_prefix(c.gate_denied_dests@, more_denied, a2);
    }
    assert(denied_list_includes(c, g1, a2) ==> denied_list_includes(c2, g1, a2));
    assert(denied_list_includes(c, g2, a1) ==> denied_list_includes(c2, g2, a1));
    assert(forall|a: Seq<char>| is_hub(c, a) == is_hub(c2, a));
    assert(route_type(c, fd, a1, a2) == route_type(c2, fd, a1, a2));
}

/// Adding restrictions never makes a pair of gates valid: where `c2` keeps
/// every group of `c`'s `restricted_between`, and every entry of `c`'s
/// `restricted_to` and `gate_denied_dests` in maps without repeated keys,
/// wherever the kept and the added entries stand (and agrees with `c` on
/// everything else that the rules read), a pair that `c2` accepts, `c`
/// accepts too.
pub proof fn more_restrictions_accept_less(c: Config, c2: Config, fd: FlightData, g1: Gate, g2: Gate)
    requires
        forall|i: int| 0 <= i < c.restricted_between@.len() ==> c2.restricted_between@.contains(#[trigger] c.restricted_between@[i]),
        keys_distinct(c2.restricted_to@),
        entries_kept(c.restricted_to@, c2.restricted_to@),
        keys_distinct(c2.gate_denied_dests@),
        entries_kept(c.gate_denied_dests@, c2.gate_denied_dests@),
        c2.gate_allowed_dests@ == c.gate_allowed_dests@,
        c2.preferred_between@ == c.preferred_between@,
        c2.preferred_to@ == c.preferred_to@,
        c2.no_dupes@ == c.no_dupes@,
        c2.hubs@ == c.hubs@,
        c2.gates@ == c.gates@,
        c2.hub_threshold == c.hub_threshold,
    ensures
        valid_flight(c2, fd, g1, g2) ==> valid_flight(c, fd, g1, g2),
{
    let a1 = g1.airport@;
    let a2 = g2.airport@;
    lemma_groups_kept(c.restricted_between@, c2.restricted_between@, a1, a2);
    if has_key(c.restricted_to@, a1) {
        lemma_lookup_kept(c.restricted_to@, c2.restricted_to@, a1);
    }
    if has_key(c.restricted_to@, a2) {
        lemma_lookup_kept(c.restricted_to@, c2.restricted_to@, a2);
    }
    if has_key(c.gate_denied_dests@, a1) {
        lemma_lookup_kept(c.gate_denied_dests@, c2.gate_denied_dests@, a1);
    }
    if has_key(c.gate_denied_dests@, a2) {
        lemma_lookup_kept(c.gate_denied_dests@, c2.gate_denied_dests@, a2);
    }
    assert(denied_list_includes(c, g1, a2) ==> denied_list_includes(c2, g1, a2));
    assert(denied_list_includes(c, g2, a1) ==> denied_list_includes(c2, g2, a1));
    assert(forall|a: Seq<char>| is_hub(c, a) == is_hub(c2, a));
    assert(route_type(c, fd, a1, a2) == route_type(c2, fd, a1, a2));
}

/// A route that another airline already flies is refused where either of
/// the two gates' airports is listed in `no_dupes`, whichever of them it is,
/// unless a preference accepts the pair first.
pub proof fn no_dupes_refuses_flown_routes(c: Config, fd: FlightData, g1: Gate, g2: Gate)
    requires
        seq_has(c.no_dupes@, g1.airport@) || seq_has(c.no_dupes@, g2.airport@),
        !some_group_has_both(c.preferred_between@, g1.airport@, g2.airport@),
        !list_at_has(c.preferred_to@, g1.airport@, g2.airport@),
        !list_at_has(c.preferred_to@, g2.airport@, g1.airport@),
        is_existing(route_type(c, fd, g1.airport@, g2.airport@)),
    ensures
        !valid_flight(c, fd, g1, g2),
{
}

/// Where either gate's airport is listed in `no_dupes` and no restriction
/// or preference decides first, the pair is valid exactly when no other
/// airline already flies the route.
pub proof fn no_dupes_decides_by_existing_routes(c: Config, fd: FlightData, g1: Gate, g2: Gate)
    requires
        seq_has(c.no_dupes@, g1.airport@) || seq_has(c.no_dupes@, g2.airport@),
        g1.airport@ != g2.airport@,
        g1.size@ == g2.size@,
        !some_group_has_both(c.restricted_between@, g1.airport@, g2.airport@),
        !list_at_has(c.restricted_to@, g1.airport@, g2.airport@),
        !list_at_has(c.restricted_to@, g2.airport@, g1.airport@),
        !allowed_list_excludes(c, g1, g2.airport@),
        !allowed_list_excludes(c, g2, g1.airport@),
        !denied_list_includes(c, g1, g2.airport@),
        !denied_list_includes(c, g2, g1.airport@),
        !some_group_has_both(c.preferred_between@, g1.airport@, g2.airport@),
        !list_at_has(c.preferred_to@, g1.airport@, g2.airport@),
        !list_at_has(c.preferred_to@, g2.airport@, g1.airport@),
    ensures
        valid_flight(c, fd, g1, g2) == !is_existing(route_type(c, fd, g1.airport@, g2.airport@)),
{
}

} // verus!
