//! The plan as a map from each departure gate to its destinations and
//! flight numbers.
use vstd::prelude::*;
use crate::flight::Flight;
use crate::text::{chars_of, decimal, join_strings, join_with, lemma_sorted_texts_unique, push_all, push_decimal, sort_strings, string_of, string_views, text_order};

verus! {

/// A gate as (airport, gate code).
pub type Endpoint = (String, String);

/// A departure gate with its destinations and flight numbers.
pub type GateGroup = (Endpoint, Vec<(Endpoint, u16)>);

/// The characters of an endpoint.
pub open spec fn endpoint_view(p: Endpoint) -> (Seq<char>, Seq<char>) {
    (p.0@, p.1@)
}

/// A group by its characters.
pub open spec fn group_view(g: GateGroup) -> ((Seq<char>, Seq<char>), Seq<((Seq<char>, Seq<char>), u16)>) {
    (endpoint_view(g.0), g.1@.map_values(|e: (Endpoint, u16)| (endpoint_view(e.0), e.1)))
}

/// Groups by their characters.
pub open spec fn groups_view(v: Seq<GateGroup>) -> Seq<((Seq<char>, Seq<char>), Seq<((Seq<char>, Seq<char>), u16)>)> {
    v.map_values(|g: GateGroup| group_view(g))
}

/// The flights grouped by departure gate: one group per departure gate,
/// groups ordered as their gates first depart in the plan; in each group the
/// arrival gates and numbers of its flights, in plan order.
pub open spec fn gate_key_groups(fs: Seq<Flight>) -> Seq<((Seq<char>, Seq<char>), Seq<((Seq<char>, Seq<char>), u16)>)>
    decreases fs.len(),
{
    if fs.len() == 0 {
        seq![]
    } else {
        let g = gate_key_groups(fs.drop_last());
        let f = fs.last();
        let k = endpoint_view(f.airport1);
        let e = (endpoint_view(f.airport2), f.number);
        if exists|i: int| 0 <= i < g.len() && (#[trigger] g[i]).0 == k {
            let i = choose|i: int| 0 <= i < g.len() && (#[trigger] g[i]).0 == k;
            g.update(i, (k, g[i].1.push(e)))
        } else {
            g.push((k, seq![e]))
        }
    }
}

/// The groups name each departure gate once.
pub open spec fn distinct_keys(g: Seq<((Seq<char>, Seq<char>), Seq<((Seq<char>, Seq<char>), u16)>)>) -> bool {
    forall|i: int, j: int| 0 <= i < j < g.len() ==> (#[trigger] g[i]).0 != (#[trigger] g[j]).0
}

/// The flights grouped by departure gate.
pub fn gate_keys(fs: &Vec<Flight>) -> (r: Vec<GateGroup>)
    ensures
        groups_view(r@) == gate_key_groups(fs@),
        distinct_keys(groups_view(r@)),
{
    let mut r: Vec<GateGroup> = Vec::new();
    let mut n: usize = 0;
    while n < fs.len()
        invariant
            n <= fs.len(),
            groups_view(r@) == gate_key_groups(fs@.take(n as int)),
            distinct_keys(groups_view(r@)),
        decreases fs.len() - n,
    {
        let ghost g = groups_view(r@);
        proof {
            assert(fs@.take(n + 1).drop_last() =~= fs@.take(n as int));
            assert(fs@.take(n + 1).last() == fs@[n as int]);
        }
        let f = &fs[n];
        let k = (f.airport1.0.clone(), f.airport1.1.clone());
        let e = ((f.airport2.0.clone(), f.airport2.1.clone()), f.number);
        let ghost ev = (endpoint_view(e.0), e.1);
        let mut i: usize = 0;
        while i < r.len() && !(r[i].0.0 == k.0 && r[i].0.1 == k.1)
            invariant
                i <= r.len(),
                g == groups_view(r@),
                forall|j: int| 0 <= j < i ==> (#[trigger] g[j]).0 != endpoint_view(k),
            decreases r.len() - i,
        {
            i = i + 1;
        }
        if i < r.len() {
            proof {
                assert(g[i as int].0 == endpoint_view(k));
                let c = choose|c: int| 0 <= c < g.len() && (#[trigger] g[c]).0 == endpoint_view(k);
                if c != i as int {
                    if c < i {
                        assert(g[c].0 != endpoint_view(k));
                    } else {
                        assert(g[i as int].0 != g[c].0);
                    }
                }
            }
            let ghost r0 = r@;
            r[i].1.push(e);
            proof {
                assert(r@[i as int].0 == r0[i as int].0);
                assert(r@[i as int].1@ == r0[i as int].1@.push(e));
                assert(group_view(r@[i as int]).1 =~= g[i as int].1.push(ev));
                assert(groups_view(r@) =~= g.update(i as int, (endpoint_view(k), g[i as int].1.push(ev))));
            }
        } else {
            let ghost r0 = r@;
            let mut v: Vec<(Endpoint, u16)> = Vec::new();
            v.push(e);
            r.push((k, v));
            proof {
                assert(group_view(r@[r.len() - 1]).1 =~= seq![ev]);
                assert(groups_view(r@) =~= g.push((endpoint_view(k), seq![ev])));
                assert(!(exists|j: int| 0 <= j < g.len() && (#[trigger] g[j]).0 == endpoint_view(k)));
            }
        }
        n = n + 1;
    }
    proof {
        assert(fs@.take(n as int) =~= fs@);
    }
    r
}

} // verus!

verus! {

/// A destination as text: number, airport and gate with a space between
/// each two.
pub open spec fn destination_text(e: ((Seq<char>, Seq<char>), u16)) -> Seq<char> {
    decimal(e.1 as nat) + seq![' '] + e.0.0 + seq![' '] + e.0.1
}

/// A group's line: the departure airport and gate, a colon, and its
/// destinations joined by a comma and a space.
pub open spec fn group_line(g: ((Seq<char>, Seq<char>), Seq<((Seq<char>, Seq<char>), u16)>)) -> Seq<char> {
    g.0.0 + seq![' '] + g.0.1 + seq![':', ' '] + join_with(
        g.1.map_values(|e: ((Seq<char>, Seq<char>), u16)| destination_text(e)),
        seq![',', ' '],
    )
}

/// The departure gates of a plan as text: the lines of its groups in
/// `text_order`, with a newline between each two.
pub open spec fn gate_keys_text(fs: Seq<Flight>) -> Seq<char> {
    join_with(
        gate_key_groups(fs).map_values(
            |g: ((Seq<char>, Seq<char>), Seq<((Seq<char>, Seq<char>), u16)>)| group_line(g),
        ).sort_by(text_order()),
        seq!['\n'],
    )
}

fn destination_string(e: &(Endpoint, u16)) -> (r: String)
    ensures
        r@ == destination_text((endpoint_view(e.0), e.1)),
{
    let mut out: Vec<char> = Vec::new();
    push_decimal(&mut out, e.1 as u32);
    out.push(' ');
    let a = chars_of(e.0.0.as_str());
    push_all(&mut out, a.as_slice());
    out.push(' ');
    let g = chars_of(e.0.1.as_str());
    push_all(&mut out, g.as_slice());
    proof {
        assert(out@ =~= destination_text((endpoint_view(e.0), e.1)));
    }
    string_of(out.as_slice())
}

fn group_string(g: &GateGroup) -> (r: String)
    ensures
        r@ == group_line(group_view(*g)),
{
    let ghost gv = group_view(*g);
    let ghost texts = gv.1.map_values(|e: ((Seq<char>, Seq<char>), u16)| destination_text(e));
    let mut names: Vec<String> = Vec::new();
    let mut j: usize = 0;
    while j < g.1.len()
        invariant
            j <= g.1.len(),
            gv == group_view(*g),
            texts == gv.1.map_values(|e: ((Seq<char>, Seq<char>), u16)| destination_text(e)),
            names.len() == j,
            forall|k: int| 0 <= k < j ==> (#[trigger] names@[k])@ == texts[k],
        decreases g.1.len() - j,
    {
        let name = destination_string(&g.1[j]);
        names.push(name);
        j = j + 1;
    }
    proof {
        assert(string_views(names@) =~= texts);
    }
    let sep: [char; 2] = [',', ' '];
    let joined = join_strings(&names, sep.as_slice());
    proof {
        assert(sep@ =~= seq![',', ' ']);
    }
    let mut out = chars_of(g.0.0.as_str());
    out.push(' ');
    let code = chars_of(g.0.1.as_str());
    push_all(&mut out, code.as_slice());
    out.push(':');
    out.push(' ');
    let rest = chars_of(joined.as_str());
    push_all(&mut out, rest.as_slice());
    proof {
        assert(out@ =~= group_line(gv));
    }
    string_of(out.as_slice())
}

/// The departure gates of the plan `fs` with their destinations, as text.
pub fn gate_keys_string(fs: &Vec<Flight>) -> (r: String)
    ensures
        r@ == gate_keys_text(fs@),
{
    let groups = gate_keys(fs);
    let ghost lines = groups_view(groups@).map_values(
        |g: ((Seq<char>, Seq<char>), Seq<((Seq<char>, Seq<char>), u16)>)| group_line(g),
    );
    let mut names: Vec<String> = Vec::new();
    let mut i: usize = 0;
    while i < groups.len()
        invariant
            i <= groups.len(),
            lines == groups_view(groups@).map_values(
                |g: ((Seq<char>, Seq<char>), Seq<((Seq<char>, Seq<char>), u16)>)| group_line(g),
            ),
            names.len() == i,
            forall|k: int| 0 <= k < i ==> (#[trigger] names@[k])@ == lines[k],
        decreases groups.len() - i,
    {
        let line = group_string(&groups[i]);
        names.push(line);
        i = i + 1;
    }
    proof {
        assert(string_views(names@) =~= lines);
    }
    let sorted = sort_strings(names);
    proof {
        lemma_sorted_texts_unique(string_views(sorted@), lines);
    }
    let sep: [char; 1] = ['\n'];
    let r = join_strings(&sorted, sep.as_slice());
    proof {
        assert(sep@ =~= seq!['\n']);
    }
    r
}

/// Flight `f` as an entry of a group: its arrival airport and gate, and its
/// number.
pub open spec fn entry_of(f: Flight) -> ((Seq<char>, Seq<char>), u16) {
    (endpoint_view(f.airport2), f.number)
}

/// Flight `k` of `fs` is an entry of the group keyed by its departure
/// airport and gate.
pub open spec fn flight_grouped(fs: Seq<Flight>, k: int) -> bool {
    exists|i: int|
        0 <= i < gate_key_groups(fs).len() && (#[trigger] gate_key_groups(fs)[i]).0 == endpoint_view(fs[k].airport1)
            && gate_key_groups(fs)[i].1.contains(entry_of(fs[k]))
}

/// Entry `j` of group `i` comes from a flight that departs from the
/// group's airport and gate.
pub open spec fn entry_sourced(fs: Seq<Flight>, i: int, j: int) -> bool {
    exists|k: int|
        0 <= k < fs.len() && endpoint_view((#[trigger] fs[k]).airport1) == gate_key_groups(fs)[i].0
            && gate_key_groups(fs)[i].1[j] == entry_of(fs[k])
}

/// A group that a flight joins: the one keyed by its departure.
proof fn lemma_flight_in_group(fs: Seq<Flight>, k: int)
    requires
        0 <= k < fs.len(),
    ensures
        flight_grouped(fs, k),
    decreases fs.len(),
{
    let p = fs.drop_last();
    let g = gate_key_groups(p);
    let f = fs.last();
    let key = endpoint_view(f.airport1);
    let e = (endpoint_view(f.airport2), f.number);
    let ng = gate_key_groups(fs);
    if k < fs.len() - 1 {
        lemma_flight_in_group(p, k);
        assert(p[k] == fs[k]);
        let i = choose|i: int|
            0 <= i < g.len() && (#[trigger] g[i]).0 == endpoint_view(p[k].airport1) && g[i].1.contains(entry_of(p[k]));
        let j = choose|j: int| 0 <= j < g[i].1.len() && g[i].1[j] == entry_of(p[k]);
        if exists|w: int| 0 <= w < g.len() && (#[trigger] g[w]).0 == key {
            let w = choose|w: int| 0 <= w < g.len() && (#[trigger] g[w]).0 == key;
            assert(ng == g.update(w, (key, g[w].1.push(e))));
            assert(ng[i].1[j] == g[i].1[j]);
            assert(ng[i].0 == g[i].0);
        } else {
            assert(ng == g.push((key, seq![e])));
            assert(ng[i] == g[i]);
        }
        assert(ng[i].1.contains(entry_of(fs[k])));
    } else {
        if exists|w: int| 0 <= w < g.len() && (#[trigger] g[w]).0 == key {
            let w = choose|w: int| 0 <= w < g.len() && (#[trigger] g[w]).0 == key;
            assert(ng == g.update(w, (key, g[w].1.push(e))));
            assert(ng[w].1.last() == e);
            assert(ng[w].1.contains(e));
            assert(ng[w].0 == key);
        } else {
            assert(ng == g.push((key, seq![e])));
            assert(ng[g.len() as int].1[0] == e);
            assert(ng[g.len() as int].1.contains(e));
            assert(ng[g.len() as int].0 == key);
        }
    }
}

/// A group's entry comes from a flight that departs from its key.
proof fn lemma_entry_from_flight(fs: Seq<Flight>, i: int, j: int)
    requires
        0 <= i < gate_key_groups(fs).len(),
        0 <= j < gate_key_groups(fs)[i].1.len(),
    ensures
        entry_sourced(fs, i, j),
    decreases fs.len(),
{
    let p = fs.drop_last();
    let g = gate_key_groups(p);
    let f = fs.last();
    let key = endpoint_view(f.airport1);
    let e = (endpoint_view(f.airport2), f.number);
    let ng = gate_key_groups(fs);
    assert(fs.len() > 0);
    assert(fs[fs.len() - 1] == f);
    if exists|w: int| 0 <= w < g.len() && (#[trigger] g[w]).0 == key {
        let w = choose|w: int| 0 <= w < g.len() && (#[trigger] g[w]).0 == key;
        assert(ng == g.update(w, (key, g[w].1.push(e))));
        if i == w && j == g[w].1.len() {
            assert(ng[i].1[j] == e);
        } else {
            assert(ng[i].0 == g[i].0);
            assert(ng[i].1[j] == g[i].1[j]);
            lemma_entry_from_flight(p, i, j);
            let k = choose|k: int|
                0 <= k < p.len() && endpoint_view((#[trigger] p[k]).airport1) == g[i].0 && g[i].1[j] == entry_of(p[k]);
            assert(fs[k] == p[k]);
        }
    } else {
        assert(ng == g.push((key, seq![e])));
        if i == g.len() {
            assert(ng[i].1[j] == e);
        } else {
            assert(ng[i] == g[i]);
            lemma_entry_from_flight(p, i, j);
            let k = choose|k: int|
                0 <= k < p.len() && endpoint_view((#[trigger] p[k]).airport1) == g[i].0 && g[i].1[j] == entry_of(p[k]);
            assert(fs[k] == p[k]);
        }
    }
}

/// Every flight of the plan is an entry of the group keyed by its departure
/// airport and gate (both), and every entry of a group comes from a flight
/// that departs from the group's airport and gate.
pub proof fn groups_hold_their_departures(fs: Seq<Flight>)
    ensures
        forall|k: int| 0 <= k < fs.len() ==> #[trigger] flight_grouped(fs, k),
        forall|i: int, j: int|
            0 <= i < gate_key_groups(fs).len() && 0 <= j < gate_key_groups(fs)[i].1.len() ==> #[trigger] entry_sourced(fs, i, j),
{
    assert forall|k: int| 0 <= k < fs.len() implies #[trigger] flight_grouped(fs, k) by {
        lemma_flight_in_group(fs, k);
    }
    assert forall|i: int, j: int|
        0 <= i < gate_key_groups(fs).len() && 0 <= j < gate_key_groups(fs)[i].1.len() implies #[trigger] entry_sourced(fs, i, j) by {
        lemma_entry_from_flight(fs, i, j);
    }
}

} // verus!
