//! Flight number dispensers: each hands out the numbers of a list of ranges,
//! in order, skipping those that a flight of the plan already has.
use vstd::prelude::*;
use crate::flight::{Flight, number_used, has_number};

verus! {

/// The numbers of one range, both ends included, in increasing order.
pub open spec fn span(r: (u16, u16)) -> Seq<u16> {
    if r.0 <= r.1 {
        Seq::new((r.1 - r.0 + 1) as nat, |k: int| (r.0 + k) as u16)
    } else {
        seq![]
    }
}

/// The numbers of a list of ranges, range after range.
pub open spec fn range_numbers(ranges: Seq<(u16, u16)>) -> Seq<u16>
    decreases ranges.len(),
{
    if ranges.len() == 0 {
        seq![]
    } else {
        range_numbers(ranges.drop_last()) + span(ranges.last())
    }
}

/// A dispenser: the numbers it hands out, and how many it has passed.
pub struct GenView {
    pub nums: Seq<u16>,
    pub pos: int,
}

/// A dispenser that has handed out nothing yet.
pub open spec fn new_gen(ranges: Seq<(u16, u16)>) -> GenView {
    GenView { nums: range_numbers(ranges), pos: 0 }
}

/// The first number at or after `pos` that no flight of `fs` has, and the
/// position just past it; or nothing, with the position at the end.
pub open spec fn gen_find(nums: Seq<u16>, pos: int, fs: Seq<Flight>) -> (Option<u16>, int)
    decreases nums.len() - pos,
{
    if pos < 0 || pos >= nums.len() {
        (None, pos)
    } else if !number_used(fs, nums[pos]) {
        (Some(nums[pos]), pos + 1)
    } else {
        gen_find(nums, pos + 1, fs)
    }
}

/// A dispenser of flight numbers.
pub struct FlightNumberGenerator {
    numbers: Vec<u16>,
    pos: usize,
}

impl View for FlightNumberGenerator {
    type V = GenView;

    closed spec fn view(&self) -> GenView {
        GenView { nums: self.numbers@, pos: self.pos as int }
    }
}

impl FlightNumberGenerator {
    /// A dispenser for the numbers of `ranges`.
    pub fn new(ranges: &Vec<(u16, u16)>) -> (r: FlightNumberGenerator)
        ensures
            r@ == new_gen(ranges@),
    {
        let mut numbers: Vec<u16> = Vec::new();
        let mut i: usize = 0;
        while i < ranges.len()
            invariant
                i <= ranges.len(),
                numbers@ == range_numbers(ranges@.take(i as int)),
            decreases ranges.len() - i,
        {
            proof {
                assert(ranges@.take(i + 1).drop_last() =~= ranges@.take(i as int));
            }
            let (lo, hi) = ranges[i];
            let ghost before = numbers@;
            if lo <= hi {
                let mut k: u32 = lo as u32;
                while k <= hi as u32
                    invariant
                        lo <= hi,
                        lo as u32 <= k <= hi as u32 + 1,
                        numbers@ == before + span((lo, hi)).take(k - lo),
                    decreases hi as u32 + 1 - k,
                {
                    numbers.push(k as u16);
                    proof {
                        assert(span((lo, hi)).take(k + 1 - lo) =~= span((lo, hi)).take(k - lo).push(k as u16));
                    }
                    k = k + 1;
                }
                proof {
                    assert(span((lo, hi)).take(k - lo) =~= span((lo, hi)));
                }
            } else {
                proof {
                    assert(numbers@ =~= before + span((lo, hi)));
                }
            }
            proof {
                assert(ranges@.take(i + 1).last() == (lo, hi));
            }
            i = i + 1;
        }
        proof {
            assert(ranges@.take(i as int) =~= ranges@);
        }
        FlightNumberGenerator { numbers, pos: 0 }
    }

    /// A dispenser in the same state.
    pub fn clone_gen(&self) -> (r: FlightNumberGenerator)
        ensures
            r@ == self@,
    {
        FlightNumberGenerator { numbers: self.numbers.clone(), pos: self.pos }
    }

    /// The next number that no flight of `fs` has, or nothing once the
    /// ranges are used up.
    pub fn next_unused(&mut self, fs: &Vec<Flight>) -> (r: Option<u16>)
        ensures
            (r, final(self)@.pos) == gen_find(old(self)@.nums, old(self)@.pos, fs@),
            final(self)@.nums == old(self)@.nums,
    {
        if self.pos >= self.numbers.len() {
            return None;
        }
        while self.pos < self.numbers.len()
            invariant
                self.numbers@ == old(self)@.nums,
                gen_find(self.numbers@, self.pos as int, fs@) == gen_find(old(self)@.nums, old(self)@.pos, fs@),
            decreases self.numbers.len() - self.pos,
        {
            let n = self.numbers[self.pos];
            self.pos = self.pos + 1;
            if !has_number(fs, n) {
                return Some(n);
            }
        }
        None
    }
}

/// A number that a dispenser hands out is not taken by a flight of `fs`.
pub proof fn lemma_gen_find_unused(nums: Seq<u16>, pos: int, fs: Seq<Flight>)
    ensures
        gen_find(nums, pos, fs).0 matches Some(x) ==> !number_used(fs, x),
    decreases nums.len() - pos,
{
    if 0 <= pos < nums.len() && number_used(fs, nums[pos]) {
        lemma_gen_find_unused(nums, pos + 1, fs);
    }
}

} // verus!
