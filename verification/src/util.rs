//! Random draws.

use rand::Rng;
use vstd::prelude::*;
use crate::data::Point;

verus! {

/// Draws a number below `bound` from the thread's generator.
///
/// Calls `rand::thread_rng` and `Rng::gen_range` on the range from zero up
/// to, and without, `bound`. Taken on trust: the draw lies in that range.
/// An empty range makes `gen_range` panic, so the bound must not be zero.
/// The generator seeds itself from the system when a thread first uses it,
/// and `rand` panics where the system gives it nothing to seed from.
#[verifier::external_body]
pub(crate) fn uniform_below(bound: u128) -> (r: u128)
    requires
        bound > 0,
    ensures
        r < bound,
{
    rand::thread_rng().gen_range(0..bound)
}

/// Where draws come from.
#[derive(Debug, Clone)]
pub enum Draws {
    /// The thread's random generator.
    Random,
    /// A list of numbers that are taken in turn, and over again from the
    /// first when the list is through. `next` is the place of the number
    /// that comes next.
    Replay { numbers: Vec<u128>, next: usize },
}

impl Draws {
    /// Draws that replay a list of numbers from its first.
    pub fn replay(numbers: Vec<u128>) -> (draws: Draws)
        ensures
            draws == (Draws::Replay { numbers, next: 0 }),
    {
        Draws::Replay { numbers, next: 0 }
    }

    /// The draw that a replay gives below `bound`: the number at its place,
    /// reduced by `bound`; zero where the list is empty.
    pub open spec fn spec_replayed(numbers: Seq<u128>, next: usize, bound: u128) -> u128 {
        if numbers.len() == 0 {
            0
        } else {
            numbers[next as int % numbers.len() as int] % bound
        }
    }

    /// The place of a replay after a draw.
    pub open spec fn spec_advanced(numbers: Seq<u128>, next: usize) -> usize {
        if numbers.len() == 0 {
            next
        } else {
            (next as int % numbers.len() as int + 1) as usize
        }
    }

    /// Two states of one source: both random, or replays of one list.
    pub open spec fn same_source(self, other: Draws) -> bool {
        match (self, other) {
            (Draws::Random, Draws::Random) => true,
            (Draws::Replay { numbers: a, .. }, Draws::Replay { numbers: b, .. }) => a == b,
            _ => false,
        }
    }

    /// Draws a number below `bound`.
    ///
    /// A random source gives any number below the bound. A replay gives
    /// the number at its place, reduced by the bound, and moves on.
    pub fn below(&mut self, bound: u128) -> (r: u128)
        requires
            bound > 0,
        ensures
            r < bound,
            final(self).same_source(*old(self)),
            *old(self) is Random ==> *final(self) is Random,
            *old(self) is Replay ==> {
                &&& r == Draws::spec_replayed(old(self)->numbers@, old(self)->next, bound)
                &&& *final(self) is Replay
                &&& final(self)->numbers == old(self)->numbers
                &&& final(self)->next == Draws::spec_advanced(old(self)->numbers@, old(self)->next)
            },
    {
        match self {
            Draws::Random => uniform_below(bound),
            Draws::Replay { numbers, next } => {
                let count = numbers.len();
                if count == 0 {
                    0
                } else {
                    let place = *next % count;
                    let r = numbers[place] % bound;
                    *next = place + 1;
                    r
                }
            },
        }
    }
}

/// Moves a draw below the width of a range into the range that starts at `from`.
pub fn place_in_range(from: i32, until: i32, draw: u128) -> (r: i32)
    requires
        from <= until,
        draw <= until - from,
    ensures
        r == from + draw,
{
    (from as i64 + draw as i64) as i32
}

/// A random number between `from` and `until`, both included.
pub fn generate_random_i32(from: i32, until: i32) -> (r: i32)
    requires
        from <= until,
    ensures
        from <= r <= until,
{
    let width: u128 = (until as i64 - from as i64) as u128 + 1;
    let draw = uniform_below(width);
    place_in_range(from, until, draw)
}

/// The size of a number, without its sign.
pub open spec fn spec_abs(v: int) -> nat {
    if v < 0 {
        (-v) as nat
    } else {
        v as nat
    }
}

/// The multiple of `accuracy` nearest to `value`; half a step rounds away
/// from zero. The sign of `accuracy` does not matter.
pub open spec fn spec_round_to(value: int, accuracy: int) -> int {
    let size = spec_abs(value) as int;
    let step = spec_abs(accuracy) as int;
    if value < 0 {
        -(spec_steps(size, step) * step)
    } else {
        spec_steps(size, step) * step
    }
}

/// The steps that a size is rounded to: the whole steps in it, and one
/// more where half a step or more is left over.
pub open spec fn spec_steps(size: int, step: int) -> int {
    if 2 * (size % step) >= step {
        size / step + 1
    } else {
        size / step
    }
}

/// A larger size is not rounded to fewer steps.
pub proof fn lemma_steps_monotone(small: int, large: int, step: int)
    requires
        0 <= small <= large,
        step > 0,
    ensures
        0 <= spec_steps(small, step) <= spec_steps(large, step),
        0 <= spec_steps(small, step) * step <= spec_steps(large, step) * step,
{
    let q1 = small / step;
    let q2 = large / step;
    let r1 = small % step;
    let r2 = large % step;
    vstd::arithmetic::div_mod::lemma_div_is_ordered(small, large, step);
    vstd::arithmetic::div_mod::lemma_div_is_ordered(0, small, step);
    vstd::arithmetic::div_mod::lemma_fundamental_div_mod(small, step);
    vstd::arithmetic::div_mod::lemma_fundamental_div_mod(large, step);
    assert(0int / step == 0) by (nonlinear_arith)
        requires
            step > 0,
    ;
    assert(0 <= r1 < step && 0 <= r2 < step) by (nonlinear_arith)
        requires
            step > 0,
            r1 == small % step,
            r2 == large % step,
    ;
    if q1 == q2 {
        assert(step * q1 == step * q2);
        assert(r1 <= r2);
    }
    let t1 = spec_steps(small, step);
    let t2 = spec_steps(large, step);
    assert(0 <= t1 <= t2);
    assert(0 <= t1 * step <= t2 * step) by (nonlinear_arith)
        requires
            0 <= t1 <= t2,
            step > 0,
    ;
}

/// A larger number is not rounded to a smaller one.
pub proof fn lemma_round_monotone(small: int, large: int, accuracy: int)
    requires
        small <= large,
        accuracy != 0,
    ensures
        spec_round_to(small, accuracy) <= spec_round_to(large, accuracy),
{
    let step = spec_abs(accuracy) as int;
    if small >= 0 {
        lemma_steps_monotone(small, large, step);
    } else if large < 0 {
        lemma_steps_monotone(-large, -small, step);
    } else {
        lemma_steps_monotone(0, -small, step);
        lemma_steps_monotone(0, large, step);
    }
}

/// Rounds a number to the nearest multiple of `accuracy`.
pub fn round_to(value: i32, accuracy: i32) -> (r: i64)
    requires
        accuracy != 0,
    ensures
        r == spec_round_to(value as int, accuracy as int),
        (r as int) % (spec_abs(accuracy as int) as int) == 0,
        2 * (r - value) <= spec_abs(accuracy as int),
        2 * (value - r) <= spec_abs(accuracy as int),
{
    let size: i64 = if value < 0 {
        -(value as i64)
    } else {
        value as i64
    };
    let step: i64 = if accuracy < 0 {
        -(accuracy as i64)
    } else {
        accuracy as i64
    };
    let whole: i64 = size / step;
    let rest: i64 = size % step;
    let steps: i64 = if 2 * rest >= step {
        whole + 1
    } else {
        whole
    };
    proof {
        let a = step as int;
        let m = size as int;
        let q = whole as int;
        let t = steps as int;
        let rem = rest as int;
        assert(m == q * a + rem && 0 <= rem < a && 0 <= q <= m) by (nonlinear_arith)
            requires
                a > 0,
                m >= 0,
                q == m / a,
                rem == m % a,
        ;
        assert(t * a == q * a + (t - q) * a) by (nonlinear_arith);
        assert((t - q) * a == if t == q {
            0
        } else {
            a
        }) by (nonlinear_arith)
            requires
                t == q || t == q + 1,
        ;
        vstd::arithmetic::div_mod::lemma_mod_multiples_basic(t, a);
        vstd::arithmetic::div_mod::lemma_mod_multiples_basic(-t, a);
        assert((-t) * a == -(t * a)) by (nonlinear_arith);
    }
    if value < 0 {
        -(steps * step)
    } else {
        steps * step
    }
}

/// A random coordinate: a number is drawn from the range from `from` to
/// `until`, both ends included, and rounded to the nearest multiple of
/// `accuracy`. All three are in grid units; both ends, rounded, must be
/// coordinates.
pub fn generate_random_f32(from: i32, until: i32, accuracy: i32) -> (r: i32)
    requires
        from <= until,
        accuracy != 0,
        i32::MIN <= spec_round_to(from as int, accuracy as int),
        spec_round_to(until as int, accuracy as int) <= i32::MAX,
    ensures
        (r as int) % (spec_abs(accuracy as int) as int) == 0,
        spec_round_to(from as int, accuracy as int) <= r <= spec_round_to(until as int, accuracy as int),
        exists|drawn: int| from <= drawn <= until && r == #[trigger] spec_round_to(drawn, accuracy as int),
{
    let drawn = generate_random_i32(from, until);
    let rounded = round_to(drawn, accuracy);
    proof {
        lemma_round_monotone(from as int, drawn as int, accuracy as int);
        lemma_round_monotone(drawn as int, until as int, accuracy as int);
        assert(rounded == spec_round_to(drawn as int, accuracy as int));
    }
    rounded as i32
}

impl Point {
    /// A random point: each coordinate is drawn from its range and rounded
    /// to its accuracy.
    pub fn generate_random(
        from_x: i32,
        until_x: i32,
        accuracy_x: i32,
        from_y: i32,
        until_y: i32,
        accuracy_y: i32,
    ) -> (p: Point)
        requires
            from_x <= until_x,
            accuracy_x != 0,
            i32::MIN <= spec_round_to(from_x as int, accuracy_x as int),
            spec_round_to(until_x as int, accuracy_x as int) <= i32::MAX,
            from_y <= until_y,
            accuracy_y != 0,
            i32::MIN <= spec_round_to(from_y as int, accuracy_y as int),
            spec_round_to(until_y as int, accuracy_y as int) <= i32::MAX,
        ensures
            (p.x as int) % (spec_abs(accuracy_x as int) as int) == 0,
            (p.y as int) % (spec_abs(accuracy_y as int) as int) == 0,
            spec_round_to(from_x as int, accuracy_x as int) <= p.x <= spec_round_to(
                until_x as int,
                accuracy_x as int,
            ),
            spec_round_to(from_y as int, accuracy_y as int) <= p.y <= spec_round_to(
                until_y as int,
                accuracy_y as int,
            ),
    {
        Point {
            x: generate_random_f32(from_x, until_x, accuracy_x),
            y: generate_random_f32(from_y, until_y, accuracy_y),
        }
    }

    /// A random point whose two coordinates come from one range with one
    /// accuracy.
    pub fn generate_random_proportional(from: i32, until: i32, accuracy: i32) -> (p: Point)
        requires
            from <= until,
            accuracy != 0,
            i32::MIN <= spec_round_to(from as int, accuracy as int),
            spec_round_to(until as int, accuracy as int) <= i32::MAX,
        ensures
            (p.x as int) % (spec_abs(accuracy as int) as int) == 0,
            (p.y as int) % (spec_abs(accuracy as int) as int) == 0,
            spec_round_to(from as int, accuracy as int) <= p.x <= spec_round_to(
                until as int,
                accuracy as int,
            ),
            spec_round_to(from as int, accuracy as int) <= p.y <= spec_round_to(
                until as int,
                accuracy as int,
            ),
    {
        Point::generate_random(from, until, accuracy, from, until, accuracy)
    }
}

} // verus!
