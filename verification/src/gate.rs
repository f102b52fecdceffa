//! Gates: the places at an airport where a flight departs and arrives.
use vstd::prelude::*;
use crate::text::{split_at_char, trimmed, chars_of, string_of, split_chars, trim};

verus! {

/// A gate of an airport, with the size class of aircraft it takes.
#[derive(Debug)]
pub struct Gate {
    pub airport: String,
    pub code: String,
    pub size: String,
}

/// A gate as the configuration lists it under its airport.
#[derive(Clone, Debug)]
pub struct PartialGate {
    pub code: String,
    pub size: String,
}

impl Clone for Gate {
    fn clone(&self) -> (r: Self)
        ensures
            r == *self,
    {
        Gate { airport: self.airport.clone(), code: self.code.clone(), size: self.size.clone() }
    }
}

/// Two gates are the same when airport, code and size agree.
pub open spec fn same_gate(a: Gate, b: Gate) -> bool {
    &&& a.airport@ == b.airport@
    &&& a.code@ == b.code@
    &&& a.size@ == b.size@
}

impl Gate {
    /// Whether two gates agree in airport, code and size.
    pub fn same_as(&self, other: &Gate) -> (r: bool)
        ensures
            r == same_gate(*self, *other),
    {
        self.airport == other.airport && self.code == other.code && self.size == other.size
    }
}

/// The lines of `ls` that hold more than white space, in order.
pub open spec fn meaningful_lines(ls: Seq<Seq<char>>) -> Seq<Seq<char>>
    decreases ls.len(),
{
    if ls.len() == 0 {
        seq![]
    } else if trimmed(ls.last()).len() == 0 {
        meaningful_lines(ls.drop_last())
    } else {
        meaningful_lines(ls.drop_last()).push(ls.last())
    }
}

/// A line of a gate file has at least three fields separated by spaces.
pub open spec fn gate_line_ok(l: Seq<char>) -> bool {
    split_at_char(l, ' ').len() >= 3
}

/// Gate `g` is the one that line `l` of a gate file describes: airport,
/// code and size are its first three space-separated fields, trimmed.
pub open spec fn gate_of_line(g: Gate, l: Seq<char>) -> bool {
    let p = split_at_char(l, ' ');
    &&& g.airport@ == trimmed(p[0])
    &&& g.code@ == trimmed(p[1])
    &&& g.size@ == trimmed(p[2])
}

/// The gates of a gate file: one per line that holds more than white space,
/// `airport code size`; nothing when such a line has fewer than three fields.
pub fn parse_gate_file(text: &str) -> (r: Option<Vec<Gate>>)
    ensures
        ({
            let ls = meaningful_lines(split_at_char(text@, '\n'));
            match r {
                Some(v) => v.len() == ls.len() && forall|k: int|
                    0 <= k < ls.len() ==> gate_line_ok(#[trigger] ls[k]) && gate_of_line(v@[k], ls[k]),
                None => exists|k: int| 0 <= k < ls.len() && !gate_line_ok(#[trigger] ls[k]),
            }
        }),
{
    let chars = chars_of(text);
    let lines = split_chars(chars.as_slice(), '\n');
    let ghost lv = lines@.map_values(|v: Vec<char>| v@);
    let ghost ls = meaningful_lines(lv);
    let mut out: Vec<Gate> = Vec::new();
    let mut i: usize = 0;
    while i < lines.len()
        invariant
            i <= lines.len(),
            lv == lines@.map_values(|v: Vec<char>| v@),
            lv == split_at_char(text@, '\n'),
            ls == meaningful_lines(lv),
            out.len() == meaningful_lines(lv.take(i as int)).len(),
            forall|k: int|
                0 <= k < out.len() ==> gate_line_ok(#[trigger] meaningful_lines(lv.take(i as int))[k]) && gate_of_line(
                    out@[k],
                    meaningful_lines(lv.take(i as int))[k],
                ),
        decreases lines.len() - i,
    {
        let ghost before = meaningful_lines(lv.take(i as int));
        proof {
            assert(lv.take(i + 1).drop_last() =~= lv.take(i as int));
            assert(lv.take(i + 1).last() == lines@[i as int]@);
        }
        let line = &lines[i];
        if trim(line.as_slice()).len() > 0 {
            let fields = split_chars(line.as_slice(), ' ');
            let ghost fv = fields@.map_values(|v: Vec<char>| v@);
            proof {
                assert(meaningful_lines(lv.take(i + 1)) == before.push(line@));
            }
            if fields.len() < 3 {
                proof {
                    lemma_meaningful_prefix(lv, i as int + 1);
                    assert(ls[before.len() as int] == line@);
                    assert(!gate_line_ok(ls[before.len() as int]));
                }
                return None;
            }
            let g = Gate {
                airport: string_of(trim(fields[0].as_slice()).as_slice()),
                code: string_of(trim(fields[1].as_slice()).as_slice()),
                size: string_of(trim(fields[2].as_slice()).as_slice()),
            };
            proof {
                assert(fv[0] == fields@[0]@);
                assert(fv[1] == fields@[1]@);
                assert(fv[2] == fields@[2]@);
            }
            out.push(g);
            proof {
                let now = meaningful_lines(lv.take(i + 1));
                assert forall|k: int| 0 <= k < out.len() implies gate_line_ok(#[trigger] now[k]) && gate_of_line(out@[k], now[k]) by {
                    if k < before.len() {
                        assert(now[k] == before[k]);
                    } else {
                        assert(now[k] == line@);
                    }
                }
            }
        } else {
            proof {
                assert(meaningful_lines(lv.take(i + 1)) == before);
            }
        }
        i = i + 1;
    }
    proof {
        assert(lv.take(i as int) =~= lv);
    }
    Some(out)
}

/// The meaningful lines of a prefix start those of the whole.
proof fn lemma_meaningful_prefix(ls: Seq<Seq<char>>, i: int)
    requires
        0 <= i <= ls.len(),
    ensures
        meaningful_lines(ls.take(i)).len() <= meaningful_lines(ls).len(),
        forall|k: int| 0 <= k < meaningful_lines(ls.take(i)).len() ==> #[trigger] meaningful_lines(ls)[k] == meaningful_lines(ls.take(i))[k],
    decreases ls.len() - i,
{
    if i < ls.len() {
        lemma_meaningful_prefix(ls, i + 1);
        assert(ls.take(i + 1).drop_last() =~= ls.take(i));
    } else {
        assert(ls.take(i) =~= ls);
    }
}

} // verus!
