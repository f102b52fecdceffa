//! Statistics of a plan: how many flights and destinations, which gates are
//! full or unused, how many flights another airline already runs.
use vstd::prelude::*;
use crate::config::{Config, is_hub, first_occurrences, gate_airports};
use crate::flight::Flight;
use crate::flight_type::is_existing;
use crate::gate::Gate;
use crate::text::{chars_of, string_of, push_all, sort_strings, join_strings, join_with, string_views, text_order, lemma_sorted_texts_unique};

verus! {

/// Counts and gate lists of a plan. The ratios that the report prints are
/// computed from these counts where the report is written.
pub struct Stats {
    pub flights: usize,
    pub flight_pairs: usize,
    pub airports: usize,
    pub gates: usize,
    pub full_gates: Vec<Gate>,
    pub empty_gates: Vec<Gate>,
    pub full_gates_text: String,
    pub empty_gates_text: String,
    pub duped_flights: usize,
}

/// How the report names a gate: its airport, a space, its code.
pub open spec fn gate_text(g: Gate) -> Seq<char> {
    g.airport@ + seq![' '] + g.code@
}

/// The names of the gates `gs`, in order.
pub open spec fn gate_texts(gs: Seq<Gate>) -> Seq<Seq<char>> {
    gs.map_values(|g: Gate| gate_text(g))
}

/// The report's list of the gates `gs`: their names sorted by `text_order`
/// and joined by a comma and a space.
pub open spec fn gate_list_text(gs: Seq<Gate>) -> Seq<char> {
    join_with(gate_texts(gs).sort_by(text_order()), seq![',', ' '])
}

fn gate_name(g: &Gate) -> (r: String)
    ensures
        r@ == gate_text(*g),
{
    let mut out = chars_of(g.airport.as_str());
    out.push(' ');
    let code = chars_of(g.code.as_str());
    push_all(&mut out, code.as_slice());
    string_of(out.as_slice())
}

/// The report's list of the gates `gs`.
pub fn gate_list_string(gs: &Vec<Gate>) -> (r: String)
    ensures
        r@ == gate_list_text(gs@),
{
    let mut names: Vec<String> = Vec::new();
    let mut i: usize = 0;
    while i < gs.len()
        invariant
            i <= gs.len(),
            names.len() == i,
            string_views(names@) == gate_texts(gs@.take(i as int)),
        decreases gs.len() - i,
    {
        let name = gate_name(&gs[i]);
        let ghost before = names@;
        names.push(name);
        proof {
            assert forall|j: int| 0 <= j < i implies #[trigger] string_views(names@)[j] == gate_texts(gs@.take(i + 1))[j] by {
                assert(names@[j] == before[j]);
                assert(string_views(before)[j] == gate_texts(gs@.take(i as int))[j]);
            }
            assert(string_views(names@) =~= gate_texts(gs@.take(i + 1)));
        }
        i = i + 1;
    }
    proof {
        assert(gs@.take(i as int) =~= gs@);
    }
    let ghost unsorted = string_views(names@);
    let sorted = sort_strings(names);
    proof {
        lemma_sorted_texts_unique(string_views(sorted@), unsorted);
    }
    let sep: [char; 2] = [',', ' '];
    let r = join_strings(&sorted, sep.as_slice());
    proof {
        assert(sep@ =~= seq![',', ' ']);
    }
    r
}

/// Number of flights of `fs` that depart from gate `g`.
pub open spec fn departures(fs: Seq<Flight>, g: Gate) -> nat
    decreases fs.len(),
{
    if fs.len() == 0 {
        0
    } else {
        departures(fs.drop_last(), g) + (if fs.last().airport1.0@ == g.airport@ && fs.last().airport1.1@ == g.code@ {
            1nat
        } else {
            0nat
        })
    }
}

/// Gate `g` has as many departures as the hard maximum of its airport's
/// kind (hub or not) allows.
pub open spec fn is_full(c: Config, fs: Seq<Flight>, g: Gate) -> bool {
    departures(fs, g) >= (if is_hub(c, g.airport@) { c.hard_max_hub as nat } else { c.hard_max_nonhub as nat })
}

/// The gates of `gs` that are full, in order.
pub open spec fn full_gates(c: Config, fs: Seq<Flight>, gs: Seq<Gate>) -> Seq<Gate>
    decreases gs.len(),
{
    if gs.len() == 0 {
        seq![]
    } else if is_full(c, fs, gs.last()) {
        full_gates(c, fs, gs.drop_last()).push(gs.last())
    } else {
        full_gates(c, fs, gs.drop_last())
    }
}

/// The gates of `gs` without departures, in order.
pub open spec fn empty_gates(fs: Seq<Flight>, gs: Seq<Gate>) -> Seq<Gate>
    decreases gs.len(),
{
    if gs.len() == 0 {
        seq![]
    } else if departures(fs, gs.last()) == 0 {
        empty_gates(fs, gs.drop_last()).push(gs.last())
    } else {
        empty_gates(fs, gs.drop_last())
    }
}

/// Number of flights of `fs` on routes that another airline already flies.
pub open spec fn duplicated(fs: Seq<Flight>) -> nat
    decreases fs.len(),
{
    if fs.len() == 0 {
        0
    } else {
        duplicated(fs.drop_last()) + (if is_existing(fs.last().ty) { 1nat } else { 0nat })
    }
}

fn count_departures(fs: &[Flight], g: &Gate) -> (r: usize)
    ensures
        r == departures(fs@, *g),
{
    let mut n: usize = 0;
    let mut i: usize = 0;
    while i < fs.len()
        invariant
            i <= fs.len(),
            n <= i,
            n == departures(fs@.take(i as int), *g),
        decreases fs.len() - i,
    {
        proof {
            assert(fs@.take(i + 1).drop_last() =~= fs@.take(i as int));
        }
        if fs[i].airport1.0 == g.airport && fs[i].airport1.1 == g.code {
            n = n + 1;
        }
        i = i + 1;
    }
    proof {
        assert(fs@.take(i as int) =~= fs@);
    }
    n
}

/// The statistics of plan `res` under `config`.
pub fn get_stats(res: &[Flight], config: &Config) -> (r: Stats)
    ensures
        r.flights == res.len(),
        r.flight_pairs == res.len() / 2,
        r.airports == first_occurrences(gate_airports(config.gates@)).len(),
        r.gates == config.gates.len(),
        r.full_gates@ == full_gates(*config, res@, config.gates@),
        r.empty_gates@ == empty_gates(res@, config.gates@),
        r.full_gates_text@ == gate_list_text(full_gates(*config, res@, config.gates@)),
        r.empty_gates_text@ == gate_list_text(empty_gates(res@, config.gates@)),
        r.duped_flights == duplicated(res@),
{
    let airport_list = config.airports();
    let airports = airport_list.len();
    proof {
        assert(crate::config::views(airport_list@).len() == airport_list@.len());
    }
    let gates = &config.gates;
    let mut full: Vec<Gate> = Vec::new();
    let mut empty: Vec<Gate> = Vec::new();
    let mut i: usize = 0;
    while i < gates.len()
        invariant
            i <= gates.len(),
            full@ == full_gates(*config, res@, gates@.take(i as int)),
            empty@ == empty_gates(res@, gates@.take(i as int)),
        decreases gates.len() - i,
    {
        proof {
            assert(gates@.take(i + 1).drop_last() =~= gates@.take(i as int));
            assert(gates@.take(i + 1).last() == gates@[i as int]);
        }
        let g = &gates[i];
        let n = count_departures(res, g);
        let max = if config.is_hub(&g.airport) { config.hard_max_hub } else { config.hard_max_nonhub };
        if n >= max as usize {
            full.push(g.clone());
        }
        if n == 0 {
            empty.push(g.clone());
        }
        i = i + 1;
    }
    proof {
        assert(gates@.take(i as int) =~= gates@);
    }
    let mut duped: usize = 0;
    let mut k: usize = 0;
    while k < res.len()
        invariant
            k <= res.len(),
            duped <= k,
            duped == duplicated(res@.take(k as int)),
        decreases res.len() - k,
    {
        proof {
            assert(res@.take(k + 1).drop_last() =~= res@.take(k as int));
        }
        if res[k].ty.existing() {
            duped = duped + 1;
        }
        k = k + 1;
    }
    proof {
        assert(res@.take(k as int) =~= res@);
    }
    let full_gates_text = gate_list_string(&full);
    let empty_gates_text = gate_list_string(&empty);
    Stats {
        flights: res.len(),
        flight_pairs: res.len() / 2,
        airports,
        gates: gates.len(),
        full_gates: full,
        empty_gates: empty,
        full_gates_text,
        empty_gates_text,
        duped_flights: duped,
    }
}

/// Flight `f` departs from gate `g`: its first airport and gate are `g`'s.
pub open spec fn departs_from(f: Flight, g: Gate) -> bool {
    f.airport1.0@ == g.airport@ && f.airport1.1@ == g.code@
}

/// The count by which a gate is full or empty is the number of the plan's
/// flights that depart from it.
pub proof fn departures_are_departing_flights(fs: Seq<Flight>, g: Gate)
    ensures
        departures(fs, g) == fs.filter(|f: Flight| departs_from(f, g)).len(),
    decreases fs.len(),
{
    reveal_with_fuel(Seq::filter, 2);
    if fs.len() > 0 {
        departures_are_departing_flights(fs.drop_last(), g);
    }
}

/// A flight that does not depart from gate `g` (one that arrives there,
/// say) changes neither whether `g` is full nor whether it is empty; one
/// that departs from `g` adds one to its count.
pub proof fn only_departures_fill_gates(c: Config, fs: Seq<Flight>, f: Flight, g: Gate)
    ensures
        !departs_from(f, g) ==> is_full(c, fs.push(f), g) == is_full(c, fs, g),
        !departs_from(f, g) ==> (departures(fs.push(f), g) == 0) == (departures(fs, g) == 0),
        departs_from(f, g) ==> departures(fs.push(f), g) == departures(fs, g) + 1,
{
    departures_are_departing_flights(fs, g);
    departures_are_departing_flights(fs.push(f), g);
    assert(fs.push(f).drop_last() =~= fs);
}

} // verus!
