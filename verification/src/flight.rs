//! Flights of the plan, and the text form in which the plan is written out
//! and read back.
use vstd::prelude::*;
use itertools::Itertools;
use crate::flight_type::{FlightType, type_code};
use crate::text::{decimal, digit_char, signed_decimal, push_decimal, push_signed_decimal, push_all, chars_of, string_of, split_at_char, split_chars, lemma_split_append, lemma_split_nonempty, lemma_decimal_digits};

verus! {

/// A flight of the plan: number, departure (airport, gate), arrival
/// (airport, gate), aircraft size, score and route kind.
#[derive(Debug)]
pub struct Flight {
    pub number: u16,
    pub airport1: (String, String),
    pub airport2: (String, String),
    pub size: String,
    pub score: i8,
    pub ty: FlightType,
}

impl Clone for Flight {
    fn clone(&self) -> (r: Self)
        ensures
            r == *self,
    {
        Flight {
            number: self.number,
            airport1: (self.airport1.0.clone(), self.airport1.1.clone()),
            airport2: (self.airport2.0.clone(), self.airport2.1.clone()),
            size: self.size.clone(),
            score: self.score,
            ty: self.ty,
        }
    }
}

/// Some flight of `fs` has number `n`.
pub open spec fn number_used(fs: Seq<Flight>, n: u16) -> bool {
    exists|i: int| 0 <= i < fs.len() && #[trigger] fs[i].number == n
}

/// Whether some flight of `fs` has number `n`.
pub fn has_number(fs: &Vec<Flight>, n: u16) -> (r: bool)
    ensures
        r == number_used(fs@, n),
{
    let mut i: usize = 0;
    while i < fs.len()
        invariant
            i <= fs.len(),
            forall|k: int| 0 <= k < i ==> #[trigger] fs@[k].number != n,
        decreases fs.len() - i,
    {
        if fs[i].number == n {
            return true;
        }
        i = i + 1;
    }
    false
}

/// The line that the plan prints for flight `f`:
/// `number (size): airport gate airport gate (score, kind)`.
pub open spec fn flight_line(f: Flight) -> Seq<char> {
    decimal(f.number as nat) + seq![' ', '('] + f.size@ + seq![')', ':', ' '] + f.airport1.0@ + seq![' ']
        + f.airport1.1@ + seq![' '] + f.airport2.0@ + seq![' '] + f.airport2.1@ + seq![' ', '(']
        + signed_decimal(f.score as int) + seq![',', ' '] + type_code(f.ty) + seq![')']
}

/// Lines joined by `\n`.
pub open spec fn join_lines(ls: Seq<Seq<char>>) -> Seq<char>
    decreases ls.len(),
{
    if ls.len() == 0 {
        seq![]
    } else if ls.len() == 1 {
        ls[0]
    } else {
        join_lines(ls.drop_last()) + seq!['\n'] + ls.last()
    }
}

/// Flight numbers with their positions, in increasing order.
pub open spec fn number_order(fs: Seq<Flight>, order: Seq<(u16, usize)>) -> bool {
    &&& forall|k: int, l: int|
        0 <= k < l < order.len() ==> (order[k].0 < order[l].0 || (order[k].0 == order[l].0 && order[k].1 < order[l].1))
    &&& forall|p: (u16, usize)| order.contains(p) <==> (p.1 < fs.len() && p.0 == fs[p.1 as int].number)
}

/// The plan's text: the lines of its flights by increasing number, flights
/// with equal numbers in their order in the plan.
pub open spec fn plan_text(fs: Seq<Flight>, order: Seq<(u16, usize)>) -> Seq<char> {
    join_lines(order.map_values(|p: (u16, usize)| flight_line(fs[p.1 as int])))
}

/// The key pairs in increasing order. `Itertools::sorted` sorts by `Ord`,
/// which orders tuples lexicographically; the result holds the same elements
/// as the input.
#[verifier::external_body]
fn sort_number_keys(v: Vec<(u16, usize)>) -> (r: Vec<(u16, usize)>)
    ensures
        r@.to_multiset() == v@.to_multiset(),
        forall|k: int, l: int|
            0 <= k < l < r.len() ==> (r@[k].0 < r@[l].0 || (r@[k].0 == r@[l].0 && r@[k].1 <= r@[l].1)),
{
    v.into_iter().sorted().collect()
}

impl Flight {
    /// The characters of the flight's line.
    pub fn line_chars(&self) -> (r: Vec<char>)
        ensures
            r@ == flight_line(*self),
    {
        let mut out: Vec<char> = Vec::new();
        push_decimal(&mut out, self.number as u32);
        out.push(' ');
        out.push('(');
        push_all(&mut out, chars_of(self.size.as_str()).as_slice());
        out.push(')');
        out.push(':');
        out.push(' ');
        push_all(&mut out, chars_of(self.airport1.0.as_str()).as_slice());
        out.push(' ');
        push_all(&mut out, chars_of(self.airport1.1.as_str()).as_slice());
        out.push(' ');
        push_all(&mut out, chars_of(self.airport2.0.as_str()).as_slice());
        out.push(' ');
        push_all(&mut out, chars_of(self.airport2.1.as_str()).as_slice());
        out.push(' ');
        out.push('(');
        push_signed_decimal(&mut out, self.score);
        out.push(',');
        out.push(' ');
        push_all(&mut out, self.ty.code().as_slice());
        out.push(')');
        proof {
            assert(out@ =~= flight_line(*self));
        }
        out
    }

    /// The flight's line of the plan.
    pub fn to_line(&self) -> (r: String)
        ensures
            r@ == flight_line(*self),
    {
        string_of(self.line_chars().as_slice())
    }

    /// The plan as text: one line per flight, by increasing number.
    pub fn vec_to_string(fs: &Vec<Flight>) -> (r: String)
        ensures
            exists|order: Seq<(u16, usize)>| number_order(fs@, order) && r@ == plan_text(fs@, order),
    {
        broadcast use vstd::seq_lib::group_to_multiset_ensures;

        let mut keys: Vec<(u16, usize)> = Vec::new();
        let mut i: usize = 0;
        while i < fs.len()
            invariant
                i <= fs.len(),
                keys.len() == i,
                forall|k: int| 0 <= k < i ==> #[trigger] keys@[k] == (fs@[k].number, k as usize),
            decreases fs.len() - i,
        {
            keys.push((fs[i].number, i));
            i = i + 1;
        }
        let ghost kv = keys@;
        proof {
            assert forall|k: int, l: int| 0 <= k < kv.len() && 0 <= l < kv.len() && k != l implies kv[k] != kv[l] by {
                assert(kv[k].1 == k && kv[l].1 == l);
            }
        }
        let order = sort_number_keys(keys);
        proof {
            kv.lemma_multiset_has_no_duplicates();
            assert forall|x: (u16, usize)| order@.to_multiset().contains(x) implies order@.to_multiset().count(x) == 1 by {
                assert(kv.to_multiset().contains(x));
            }
            order@.lemma_multiset_has_no_duplicates_conv();
            assert forall|p: (u16, usize)| order@.contains(p) <==> (p.1 < fs.len() && p.0 == fs@[p.1 as int].number) by {
                assert(order@.contains(p) <==> order@.to_multiset().count(p) > 0);
                assert(kv.contains(p) <==> kv.to_multiset().count(p) > 0);
                if p.1 < fs.len() && p.0 == fs@[p.1 as int].number {
                    assert(kv[p.1 as int] == p);
                }
            }
            assert forall|k: int, l: int| 0 <= k < l < order.len() implies (order@[k].0 < order@[l].0 || (order@[k].0
                == order@[l].0 && order@[k].1 < order@[l].1)) by {
                assert(order@[k] != order@[l]);
            }
            assert(number_order(fs@, order@));
        }
        let mut out: Vec<char> = Vec::new();
        let mut k: usize = 0;
        let ghost lines = order@.map_values(|p: (u16, usize)| flight_line(fs@[p.1 as int]));
        while k < order.len()
            invariant
                k <= order.len(),
                number_order(fs@, order@),
                lines == order@.map_values(|p: (u16, usize)| flight_line(fs@[p.1 as int])),
                out@ == join_lines(lines.take(k as int)),
            decreases order.len() - k,
        {
            let idx = order[k].1;
            proof {
                assert(order@.contains(order@[k as int]));
                assert(lines.take(k + 1).drop_last() =~= lines.take(k as int));
            }
            if k > 0 {
                out.push('\n');
            }
            let line = fs[idx].line_chars();
            push_all(&mut out, line.as_slice());
            proof {
                assert(lines.take(k + 1).last() == flight_line(fs@[idx as int]));
                if k == 0 {
                    assert(out@ =~= join_lines(lines.take(k + 1)));
                } else {
                    assert(out@ =~= join_lines(lines.take(k + 1)));
                }
            }
            k = k + 1;
        }
        proof {
            assert(lines.take(k as int) =~= lines);
        }
        string_of(out.as_slice())
    }
}

/// Why a plan's text could not be read back.
#[derive(Debug, PartialEq, Eq, Structural, Clone, Copy)]
pub enum PlanParseError {
    /// A line is not the line of a flight.
    InvalidLine,
    /// A flight number is not an unsigned 16-bit decimal number.
    BadNumber,
    /// A score is not a decimal number from 0 to 127.
    BadScore,
    /// A route kind is none of the six codes.
    BadKind,
}

/// The pattern of a flight's line: number, size, departure airport and
/// gate, arrival airport and gate, score, kind.
pub const FLIGHT_LINE_PATTERN: &'static str = r"(\d+) \((.*)\): (...) (.+) (...) (.+) \((\d+), (.2..)\)";

/// The groups (all but the whole match) that regular expression `pattern`
/// captures in `text` with the `regex` crate, where the pattern compiles,
/// matches, and every group takes part in the match.
pub uninterp spec fn regex_groups(pattern: Seq<char>, text: Seq<char>) -> Option<Seq<Seq<char>>>;

/// The groups that `pattern` captures in `text`: `regex::Regex::new`, then
/// `Regex::captures`, then each group but the whole match.
#[verifier::external_body]
fn regex_capture(pattern: &str, text: &str) -> (r: Option<Vec<String>>)
    ensures
        match r {
            Some(v) => regex_groups(pattern@, text@) == Some(v@.map_values(|s: String| s@)),
            None => regex_groups(pattern@, text@) is None,
        },
{
    let re = regex::Regex::new(pattern).ok()?;
    let caps = re.captures(text)?;
    caps.iter().skip(1).map(|m| m.map(|m| m.as_str().to_string())).collect()
}

/// The groups that the pattern of a flight's line captures in `line`.
pub open spec fn flight_line_captures(line: Seq<char>) -> Option<Seq<Seq<char>>> {
    regex_groups(FLIGHT_LINE_PATTERN@, line)
}

/// `s` is a non-empty run of ASCII digits.
pub open spec fn ascii_digits(s: Seq<char>) -> bool {
    s.len() > 0 && forall|k: int| 0 <= k < s.len() ==> '0' <= #[trigger] s[k] <= '9'
}

/// The value of a run of decimal digits.
pub open spec fn digits_value(s: Seq<char>) -> int
    decreases s.len(),
{
    if s.len() == 0 {
        0
    } else {
        digits_value(s.drop_last()) * 10 + (s.last() as int - '0' as int)
    }
}

/// The route kind with code `s`.
pub open spec fn kind_of_code(s: Seq<char>) -> Option<FlightType> {
    if s == type_code(FlightType::NonExistingH2H) {
        Some(FlightType::NonExistingH2H)
    } else if s == type_code(FlightType::NonExistingH2N) {
        Some(FlightType::NonExistingH2N)
    } else if s == type_code(FlightType::NonExistingN2N) {
        Some(FlightType::NonExistingN2N)
    } else if s == type_code(FlightType::ExistingH2H) {
        Some(FlightType::ExistingH2H)
    } else if s == type_code(FlightType::ExistingH2N) {
        Some(FlightType::ExistingH2N)
    } else if s == type_code(FlightType::ExistingN2N) {
        Some(FlightType::ExistingN2N)
    } else {
        None
    }
}

/// What is wrong with the captured groups of a line, if anything: a number
/// that is not a 16-bit unsigned decimal, a score that is not a decimal from
/// 0 to 127, or an unknown route kind, in that order.
pub open spec fn captures_error(caps: Seq<Seq<char>>) -> Option<PlanParseError> {
    if !(ascii_digits(caps[0]) && digits_value(caps[0]) <= 65535) {
        Some(PlanParseError::BadNumber)
    } else if !(ascii_digits(caps[6]) && digits_value(caps[6]) <= 127) {
        Some(PlanParseError::BadScore)
    } else if kind_of_code(caps[7]) is None {
        Some(PlanParseError::BadKind)
    } else {
        None
    }
}

/// What is wrong with a line of a plan, if anything.
pub open spec fn line_error(l: Seq<char>) -> Option<PlanParseError> {
    match flight_line_captures(l) {
        None => Some(PlanParseError::InvalidLine),
        Some(caps) => if caps.len() != 8 { Some(PlanParseError::InvalidLine) } else { captures_error(caps) },
    }
}

/// Flight `f` is the one that the groups describe.
pub open spec fn flight_of_captures(f: Flight, caps: Seq<Seq<char>>) -> bool {
    &&& f.number == digits_value(caps[0])
    &&& f.size@ == caps[1]
    &&& f.airport1.0@ == caps[2]
    &&& f.airport1.1@ == caps[3]
    &&& f.airport2.0@ == caps[4]
    &&& f.airport2.1@ == caps[5]
    &&& f.score == digits_value(caps[6])
    &&& kind_of_code(caps[7]) == Some(f.ty)
}

/// The lines that are not empty.
pub open spec fn nonempty_lines(ls: Seq<Seq<char>>) -> Seq<Seq<char>>
    decreases ls.len(),
{
    if ls.len() == 0 {
        seq![]
    } else if ls.last().len() == 0 {
        nonempty_lines(ls.drop_last())
    } else {
        nonempty_lines(ls.drop_last()).push(ls.last())
    }
}

/// The value of a run of ASCII digits, where it is at most `max`.
fn parse_digits(s: &Vec<char>, max: u32) -> (r: Option<u32>)
    requires
        max <= 65535,
    ensures
        match r {
            Some(v) => ascii_digits(s@) && digits_value(s@) <= max && v == digits_value(s@),
            None => !(ascii_digits(s@) && digits_value(s@) <= max),
        },
{
    if s.len() == 0 {
        return None;
    }
    let mut v: u32 = 0;
    let mut i: usize = 0;
    while i < s.len()
        invariant
            i <= s.len(),
            s.len() > 0,
            max <= 65535,
            v <= max,
            forall|k: int| 0 <= k < i ==> '0' <= #[trigger] s@[k] <= '9',
            v == digits_value(s@.take(i as int)),
        decreases s.len() - i,
    {
        proof {
            assert(s@.take(i + 1).drop_last() =~= s@.take(i as int));
        }
        let c = s[i];
        if c < '0' || c > '9' {
            return None;
        }
        let d = (c as u32) - ('0' as u32);
        let w = v * 10 + d;
        if w > max {
            proof {
                lemma_digits_grow(s@, i as int + 1);
            }
            return None;
        }
        v = w;
        i = i + 1;
    }
    proof {
        assert(s@.take(i as int) =~= s@);
    }
    Some(v)
}

/// Digits that follow never make the value smaller.
proof fn lemma_digits_grow(s: Seq<char>, i: int)
    requires
        0 <= i <= s.len(),
    ensures
        (forall|k: int| 0 <= k < s.len() ==> '0' <= #[trigger] s[k] <= '9') ==> digits_value(s) >= digits_value(s.take(i)),
    decreases s.len() - i,
{
    if i < s.len() {
        lemma_digits_grow(s, i + 1);
        assert(s.take(i + 1).drop_last() =~= s.take(i));
        if forall|k: int| 0 <= k < s.len() ==> '0' <= #[trigger] s[k] <= '9' {
            assert('0' <= s[i] <= '9');
            assert(digits_value(s.take(i + 1)) == digits_value(s.take(i)) * 10 + (s[i] as int - '0' as int));
            assert(digits_value(s.take(i)) >= 0) by {
                lemma_digits_nonneg(s.take(i));
            }
        }
    } else {
        assert(s.take(i) =~= s);
    }
}

proof fn lemma_digits_nonneg(s: Seq<char>)
    requires
        forall|k: int| 0 <= k < s.len() ==> '0' <= #[trigger] s[k] <= '9',
    ensures
        digits_value(s) >= 0,
    decreases s.len(),
{
    if s.len() > 0 {
        lemma_digits_nonneg(s.drop_last());
    }
}

/// Whether two character sequences are equal.
fn same_chars(a: &Vec<char>, b: &Vec<char>) -> (r: bool)
    ensures
        r == (a@ == b@),
{
    if a.len() != b.len() {
        return false;
    }
    let mut i: usize = 0;
    while i < a.len()
        invariant
            i <= a.len() == b.len(),
            forall|k: int| 0 <= k < i ==> a@[k] == b@[k],
        decreases a.len() - i,
    {
        if a[i] != b[i] {
            return false;
        }
        i = i + 1;
    }
    proof {
        assert(a@ =~= b@);
    }
    true
}

/// The route kind with code `s`.
fn kind_from_code(s: &Vec<char>) -> (r: Option<FlightType>)
    ensures
        r == kind_of_code(s@),
{
    if same_chars(s, &FlightType::NonExistingH2H.code()) {
        Some(FlightType::NonExistingH2H)
    } else if same_chars(s, &FlightType::NonExistingH2N.code()) {
        Some(FlightType::NonExistingH2N)
    } else if same_chars(s, &FlightType::NonExistingN2N.code()) {
        Some(FlightType::NonExistingN2N)
    } else if same_chars(s, &FlightType::ExistingH2H.code()) {
        Some(FlightType::ExistingH2H)
    } else if same_chars(s, &FlightType::ExistingH2N.code()) {
        Some(FlightType::ExistingH2N)
    } else if same_chars(s, &FlightType::ExistingN2N.code()) {
        Some(FlightType::ExistingN2N)
    } else {
        None
    }
}

impl Flight {
    /// The flight that the captured groups of a line describe.
    pub fn from_captures(caps: &Vec<String>) -> (r: Result<Flight, PlanParseError>)
        requires
            caps.len() == 8,
        ensures
            match r {
                Ok(f) => captures_error(caps@.map_values(|s: String| s@)) is None && flight_of_captures(
                    f,
                    caps@.map_values(|s: String| s@),
                ),
                Err(e) => captures_error(caps@.map_values(|s: String| s@)) == Some(e),
            },
    {
        let ghost cv = caps@.map_values(|s: String| s@);
        let number = match parse_digits(&chars_of(caps[0].as_str()), 65535) {
            Some(n) => n as u16,
            None => {
                return Err(PlanParseError::BadNumber);
            },
        };
        let score = match parse_digits(&chars_of(caps[6].as_str()), 127) {
            Some(n) => n as i8,
            None => {
                return Err(PlanParseError::BadScore);
            },
        };
        let ty = match kind_from_code(&chars_of(caps[7].as_str())) {
            Some(t) => t,
            None => {
                return Err(PlanParseError::BadKind);
            },
        };
        let f = Flight {
            number,
            airport1: (caps[2].clone(), caps[3].clone()),
            airport2: (caps[4].clone(), caps[5].clone()),
            size: caps[1].clone(),
            score,
            ty,
        };
        proof {
            assert(cv[0] == caps@[0]@);
            assert(cv[6] == caps@[6]@);
            assert(cv[7] == caps@[7]@);
        }
        Ok(f)
    }

    /// Reads a plan back from its text: every line that is not empty must be
    /// the line of a flight; else the error of the first line that is not.
    pub fn vec_from_str(s: &str) -> (r: Result<Vec<Flight>, PlanParseError>)
        ensures
            ({
                let ls = nonempty_lines(split_at_char(s@, '\n'));
                match r {
                    Ok(v) => v.len() == ls.len() && forall|k: int|
                        0 <= k < ls.len() ==> line_error(#[trigger] ls[k]) is None && flight_of_captures(
                            v@[k],
                            flight_line_captures(ls[k])->0,
                        ),
                    Err(e) => exists|k: int|
                        0 <= k < ls.len() && line_error(#[trigger] ls[k]) == Some(e) && forall|j: int|
                            0 <= j < k ==> line_error(#[trigger] ls[j]) is None,
                }
            }),
    {
        let chars = chars_of(s);
        let pieces = split_chars(chars.as_slice(), '\n');
        let ghost pv = pieces@.map_values(|v: Vec<char>| v@);
        let ghost ls = nonempty_lines(pv);
        let mut out: Vec<Flight> = Vec::new();
        let mut i: usize = 0;
        while i < pieces.len()
            invariant
                i <= pieces.len(),
                pv == pieces@.map_values(|v: Vec<char>| v@),
                pv == split_at_char(s@, '\n'),
                ls == nonempty_lines(pv),
                out.len() == nonempty_lines(pv.take(i as int)).len(),
                forall|k: int|
                    0 <= k < out.len() ==> line_error(#[trigger] nonempty_lines(pv.take(i as int))[k]) is None
                        && flight_of_captures(out@[k], flight_line_captures(nonempty_lines(pv.take(i as int))[k])->0),
            decreases pieces.len() - i,
        {
            let ghost before = nonempty_lines(pv.take(i as int));
            proof {
                assert(pv.take(i + 1).drop_last() =~= pv.take(i as int));
                assert(pv.take(i + 1).last() == pieces@[i as int]@);
            }
            if pieces[i].len() > 0 {
                let line = string_of(pieces[i].as_slice());
                proof {
                    assert(nonempty_lines(pv.take(i + 1)) == before.push(line@));
                }
                let groups = regex_capture(FLIGHT_LINE_PATTERN, line.as_str());
                let eight = match groups {
                    Some(v) => if v.len() == 8 { Some(v) } else { None },
                    None => None,
                };
                match eight {
                    None => {
                        proof {
                            assert(line_error(line@) == Some(PlanParseError::InvalidLine));
                            lemma_nonempty_prefix(pv, i as int + 1);
                            assert(ls[before.len() as int] == line@);
                            assert forall|j: int| 0 <= j < before.len() implies line_error(#[trigger] ls[j]) is None by {
                                assert(ls[j] == nonempty_lines(pv.take(i + 1))[j]);
                                assert(nonempty_lines(pv.take(i + 1))[j] == before[j]);
                            }
                        }
                        return Err(PlanParseError::InvalidLine);
                    },
                    Some(caps) => {
                        match Flight::from_captures(&caps) {
                            Ok(f) => {
                                out.push(f);
                                proof {
                                    let now = nonempty_lines(pv.take(i + 1));
                                    assert forall|k: int| 0 <= k < out.len() implies line_error(#[trigger] now[k]) is None
                                        && flight_of_captures(out@[k], flight_line_captures(now[k])->0) by {
                                        if k < before.len() {
                                            assert(now[k] == before[k]);
                                        } else {
                                            assert(now[k] == line@);
                                        }
                                    }
                                }
                            },
                            Err(e) => {
                                proof {
                                    lemma_nonempty_prefix(pv, i as int + 1);
                                    assert(ls[before.len() as int] == line@);
                                    assert(line_error(line@) == Some(e));
                                    assert forall|j: int| 0 <= j < before.len() implies line_error(#[trigger] ls[j]) is None by {
                                        assert(ls[j] == nonempty_lines(pv.take(i + 1))[j]);
                                        assert(nonempty_lines(pv.take(i + 1))[j] == before[j]);
                                    }
                                }
                                return Err(e);
                            },
                        }
                    },
                }
            } else {
                proof {
                    assert(nonempty_lines(pv.take(i + 1)) == before);
                }
            }
            i = i + 1;
        }
        proof {
            assert(pv.take(i as int) =~= pv);
        }
        Ok(out)
    }
}

/// The lines that are not empty of a prefix start those of the whole.
proof fn lemma_nonempty_prefix(ls: Seq<Seq<char>>, i: int)
    requires
        0 <= i <= ls.len(),
    ensures
        nonempty_lines(ls.take(i)).len() <= nonempty_lines(ls).len(),
        forall|k: int| 0 <= k < nonempty_lines(ls.take(i)).len() ==> #[trigger] nonempty_lines(ls)[k] == nonempty_lines(ls.take(i))[k],
    decreases ls.len() - i,
{
    if i < ls.len() {
        lemma_nonempty_prefix(ls, i + 1);
        assert(ls.take(i + 1).drop_last() =~= ls.take(i));
    } else {
        assert(ls.take(i) =~= ls);
    }
}

/// The groups that the line of flight `f` holds: number, size, departure
/// airport and gate, arrival airport and gate, score, kind.
pub open spec fn printed_fields(f: Flight) -> Seq<Seq<char>> {
    seq![
        decimal(f.number as nat),
        f.size@,
        f.airport1.0@,
        f.airport1.1@,
        f.airport2.0@,
        f.airport2.1@,
        signed_decimal(f.score as int),
        type_code(f.ty),
    ]
}

/// `w` and `f` agree in every field.
pub open spec fn same_flight(w: Flight, f: Flight) -> bool {
    &&& w.number == f.number
    &&& w.size@ == f.size@
    &&& w.airport1.0@ == f.airport1.0@
    &&& w.airport1.1@ == f.airport1.1@
    &&& w.airport2.0@ == f.airport2.0@
    &&& w.airport2.1@ == f.airport2.1@
    &&& w.score == f.score
    &&& w.ty == f.ty
}

/// `s` holds no line break.
pub open spec fn single_line(s: Seq<char>) -> bool {
    forall|k: int| 0 <= k < s.len() ==> s[k] != '\n'
}

/// The texts of flight `f` hold no line break and its score is not
/// negative: what the planner's flights satisfy when the configuration's
/// codes hold no line break.
pub open spec fn printable(f: Flight) -> bool {
    &&& single_line(f.size@)
    &&& single_line(f.airport1.0@)
    &&& single_line(f.airport1.1@)
    &&& single_line(f.airport2.0@)
    &&& single_line(f.airport2.1@)
    &&& f.score >= 0
}

proof fn lemma_digits_of_decimal(n: nat)
    ensures
        digits_value(decimal(n)) == n,
    decreases n,
{
    if n >= 10 {
        lemma_digits_of_decimal(n / 10);
        let d = decimal(n / 10);
        let r = n % 10;
        assert(decimal(n) == d.push(digit_char(r as int)));
        assert(d.push(digit_char(r as int)).drop_last() =~= d);
        assert(d.push(digit_char(r as int)).last() == digit_char(r as int));
        assert(digit_char(r as int) as int - '0' as int == r);
        assert(digits_value(d.push(digit_char(r as int))) == digits_value(d) * 10 + r);
        assert((n / 10) * 10 + n % 10 == n) by (nonlinear_arith);
    } else {
        let c = digit_char(n as int);
        assert(decimal(n) == seq![c]);
        assert(seq![c].drop_last() =~= Seq::<char>::empty());
        assert(digits_value(Seq::<char>::empty()) == 0);
        assert(c as int - '0' as int == n);
        assert(digits_value(seq![c]) == digits_value(seq![c].drop_last()) * 10 + (c as int - '0' as int));
    }
}

proof fn lemma_kind_of_code(t: FlightType)
    ensures
        kind_of_code(type_code(t)) == Some(t),
{
    let c = type_code(t);
    match t {
        FlightType::NonExistingH2H => {},
        FlightType::NonExistingH2N => {
            assert(c[2] != type_code(FlightType::NonExistingH2H)[2]);
        },
        FlightType::NonExistingN2N => {
            assert(c[0] != type_code(FlightType::NonExistingH2H)[0]);
            assert(c[0] != type_code(FlightType::NonExistingH2N)[0]);
        },
        FlightType::ExistingH2H => {
            assert(c[3] != type_code(FlightType::NonExistingH2H)[3]);
            assert(c[2] != type_code(FlightType::NonExistingH2N)[2]);
            assert(c[0] != type_code(FlightType::NonExistingN2N)[0]);
        },
        FlightType::ExistingH2N => {
            assert(c[2] != type_code(FlightType::NonExistingH2H)[2]);
            assert(c[3] != type_code(FlightType::NonExistingH2N)[3]);
            assert(c[0] != type_code(FlightType::NonExistingN2N)[0]);
            assert(c[2] != type_code(FlightType::ExistingH2H)[2]);
        },
        FlightType::ExistingN2N => {
            assert(c[0] != type_code(FlightType::NonExistingH2H)[0]);
            assert(c[0] != type_code(FlightType::NonExistingH2N)[0]);
            assert(c[3] != type_code(FlightType::NonExistingN2N)[3]);
            assert(c[0] != type_code(FlightType::ExistingH2H)[0]);
            assert(c[0] != type_code(FlightType::ExistingH2N)[0]);
        },
    }
}

/// The groups of a printed line describe the flight: they hold no error,
/// and a flight that they describe agrees with it in every field.
proof fn lemma_printed_fields(f: Flight)
    requires
        f.score >= 0,
    ensures
        captures_error(printed_fields(f)) is None,
        forall|w: Flight| flight_of_captures(w, printed_fields(f)) ==> same_flight(w, f),
{
    let p = printed_fields(f);
    lemma_decimal_digits(f.number as nat);
    lemma_decimal_digits(f.score as nat);
    lemma_digits_of_decimal(f.number as nat);
    lemma_digits_of_decimal(f.score as nat);
    lemma_kind_of_code(f.ty);
    assert(p[0] == decimal(f.number as nat));
    assert(p[6] == decimal(f.score as nat));
    assert(p[7] == type_code(f.ty));
}

/// A flight's line is not empty and holds no line break.
proof fn lemma_line_single(f: Flight)
    requires
        printable(f),
    ensures
        flight_line(f).len() > 0,
        single_line(flight_line(f)),
{
    lemma_decimal_digits(f.number as nat);
    lemma_decimal_digits(f.score as nat);
    let l = flight_line(f);
    let parts = seq![
        decimal(f.number as nat), seq![' ', '('], f.size@, seq![')', ':', ' '], f.airport1.0@, seq![' '],
        f.airport1.1@, seq![' '], f.airport2.0@, seq![' '], f.airport2.1@, seq![' ', '('],
        signed_decimal(f.score as int), seq![',', ' '], type_code(f.ty), seq![')'],
    ];
    assert forall|i: int| 0 <= i < parts.len() implies single_line(#[trigger] parts[i]) by {
        if i == 0 {
            assert forall|k: int| 0 <= k < parts[0].len() implies parts[0][k] != '\n' by {
                assert('0' <= decimal(f.number as nat)[k] <= '9');
            }
        } else if i == 12 {
            assert forall|k: int| 0 <= k < parts[12].len() implies parts[12][k] != '\n' by {
                assert('0' <= decimal(f.score as nat)[k] <= '9');
            }
        }
    }
    lemma_concat_single(parts);
    assert(parts.fold_left(Seq::<char>::empty(), |acc: Seq<char>, x: Seq<char>| acc + x) =~= l) by {
        reveal_with_fuel(Seq::fold_left, 17);
    }
}

/// A concatenation of texts without line breaks has none.
proof fn lemma_concat_single(parts: Seq<Seq<char>>)
    requires
        forall|i: int| 0 <= i < parts.len() ==> single_line(#[trigger] parts[i]),
    ensures
        single_line(parts.fold_left(Seq::<char>::empty(), |acc: Seq<char>, x: Seq<char>| acc + x)),
    decreases parts.len(),
{
    if parts.len() > 0 {
        let d = parts.drop_last();
        assert forall|i: int| 0 <= i < d.len() implies single_line(#[trigger] d[i]) by {
            assert(d[i] == parts[i]);
        }
        lemma_concat_single(d);
        let a = d.fold_left(Seq::<char>::empty(), |acc: Seq<char>, x: Seq<char>| acc + x);
        assert(single_line(parts[parts.len() - 1]));
        assert(single_line(a + parts.last())) by {
            assert forall|k: int| 0 <= k < (a + parts.last()).len() implies (a + parts.last())[k] != '\n' by {
                if k >= a.len() {
                    assert((a + parts.last())[k] == parts.last()[k - a.len()]);
                }
            }
        }
    }
}

/// Splitting joined lines without line breaks at line breaks gives the
/// lines back.
proof fn lemma_split_join(ls: Seq<Seq<char>>)
    requires
        ls.len() > 0,
        forall|k: int| 0 <= k < ls.len() ==> single_line(#[trigger] ls[k]),
    ensures
        split_at_char(join_lines(ls), '\n') == ls,
    decreases ls.len(),
{
    if ls.len() == 1 {
        lemma_split_append(Seq::<char>::empty(), ls[0], '\n');
        assert(Seq::<char>::empty() + ls[0] =~= ls[0]);
        assert(Seq::<char>::empty() + ls[0] =~= ls[0]);
        assert(seq![Seq::<char>::empty()].update(0, ls[0]) =~= ls);
    } else {
        let d = ls.drop_last();
        assert forall|k: int| 0 <= k < d.len() implies single_line(#[trigger] d[k]) by {
            assert(d[k] == ls[k]);
        }
        lemma_split_join(d);
        let s = join_lines(d) + seq!['\n'];
        assert(s.drop_last() =~= join_lines(d));
        assert(split_at_char(s, '\n') == d.push(seq![]));
        assert(single_line(ls[ls.len() - 1]));
        lemma_split_append(s, ls.last(), '\n');
        assert(join_lines(ls) == s + ls.last());
        assert(d.push(seq![]).update(d.len() as int, Seq::<char>::empty() + ls.last()) =~= ls);
    }
}

proof fn lemma_nonempty_all(ls: Seq<Seq<char>>)
    requires
        forall|k: int| 0 <= k < ls.len() ==> (#[trigger] ls[k]).len() > 0,
    ensures
        nonempty_lines(ls) == ls,
    decreases ls.len(),
{
    if ls.len() > 0 {
        let d = ls.drop_last();
        assert forall|k: int| 0 <= k < d.len() implies (#[trigger] d[k]).len() > 0 by {
            assert(d[k] == ls[k]);
        }
        lemma_nonempty_all(d);
        assert(ls[ls.len() - 1].len() > 0);
        assert(d.push(ls.last()) =~= ls);
    }
}

/// A printed plan reads back: where the pattern captures, in each printed
/// line, the fields that it printed, reading the text of `vec_to_string`
/// gives (through `vec_from_str`) one flight per printed flight, in the
/// printed order, equal to it in every field: the plan sorted by number.
pub proof fn printed_plan_reads_back(fs: Seq<Flight>, order: Seq<(u16, usize)>)
    requires
        number_order(fs, order),
        forall|k: int| 0 <= k < fs.len() ==> printable(#[trigger] fs[k]),
        forall|k: int| 0 <= k < fs.len() ==> flight_line_captures(flight_line(#[trigger] fs[k])) == Some(printed_fields(fs[k])),
    ensures
        ({
            let ls = nonempty_lines(split_at_char(plan_text(fs, order), '\n'));
            &&& ls.len() == order.len()
            &&& forall|k: int| 0 <= k < order.len() ==> line_error(#[trigger] ls[k]) is None
            &&& forall|k: int, w: Flight| 0 <= k < order.len() && #[trigger] flight_of_captures(w, flight_line_captures(ls[k])->0)
                ==> same_flight(w, fs[order[k].1 as int])
        }),
{
    let lines = order.map_values(|p: (u16, usize)| flight_line(fs[p.1 as int]));
    assert forall|k: int| 0 <= k < lines.len() implies single_line(#[trigger] lines[k]) && lines[k].len() > 0 by {
        assert(order.contains(order[k]));
        lemma_line_single(fs[order[k].1 as int]);
    }
    if order.len() == 0 {
        assert(plan_text(fs, order) =~= Seq::<char>::empty());
        let e = split_at_char(Seq::<char>::empty(), '\n');
        assert(e == seq![Seq::<char>::empty()]);
        assert(e.drop_last() =~= Seq::<Seq<char>>::empty());
        assert(nonempty_lines(Seq::<Seq<char>>::empty()) =~= Seq::<Seq<char>>::empty());
        assert(e.last().len() == 0);
        assert(nonempty_lines(e) == nonempty_lines(e.drop_last()));
        assert(nonempty_lines(e) =~= Seq::<Seq<char>>::empty());
    } else {
        lemma_split_join(lines);
        lemma_nonempty_all(lines);
    }
    let ls = nonempty_lines(split_at_char(plan_text(fs, order), '\n'));
    assert(ls == lines);
    assert forall|k: int| 0 <= k < order.len() implies line_error(#[trigger] ls[k]) is None by {
        assert(order.contains(order[k]));
        let f = fs[order[k].1 as int];
        lemma_printed_fields(f);
        assert(ls[k] == flight_line(f));
    }
    assert forall|k: int, w: Flight| 0 <= k < order.len() && #[trigger] flight_of_captures(w, flight_line_captures(ls[k])->0)
        implies same_flight(w, fs[order[k].1 as int]) by {
        assert(order.contains(order[k]));
        let f = fs[order[k].1 as int];
        lemma_printed_fields(f);
        assert(ls[k] == flight_line(f));
    }
}

} // verus!
