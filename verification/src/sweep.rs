//! The sweep worker: for each array size from a minimum to a maximum in
//! fixed steps, it repeats a timed linear-search trial a fixed number of
//! times and records the truncating average of the measured durations.

use crate::clock::duration_as_nanos;
use crate::clock::instant_elapsed;
use crate::clock::instant_now;
use crate::codec::dec_of;
use crate::codec::dec_string;
use crate::dist::range_for;
use crate::dist::size_fits;
use crate::dist::spec_high;
use crate::dist::spec_low;
use crate::dist::Shape;
use crate::output::print_line;
use crate::rng::sample_inclusive;
use crate::search::contains_target;
use vstd::arithmetic::div_mod::lemma_div_is_ordered;
use vstd::arithmetic::div_mod::lemma_fundamental_div_mod;
use vstd::arithmetic::div_mod::lemma_fundamental_div_mod_converse;
use vstd::prelude::*;
use vstd::string::StringExecFns;

verus! {

/// How many sizes a sweep from `min` to `max` by `step` visits.
pub open spec fn swept_len(min: int, max: int, step: int) -> nat {
    if step <= 0 || min > max {
        0
    } else {
        ((max - min) / step + 1) as nat
    }
}

/// The swept sizes: the arithmetic progression `min, min + step,
/// min + 2*step, ...`, capped at `max` inclusive.
pub open spec fn swept(min: int, max: int, step: int) -> Seq<int> {
    Seq::new(swept_len(min, max, step), |i: int| min + i * step)
}

/// A size sequence's values as mathematical integers.
pub open spec fn sizes_as_ints(v: Seq<usize>) -> Seq<int> {
    v.map_values(|x: usize| x as int)
}

/// Law: the swept sizes are exactly the arithmetic progression
/// `min, min + step, min + 2*step, ...` of every value up to `max`
/// inclusive; each lies between `min` and `max`, and the sequence increases
/// strictly, by `step` from one entry to the next.
pub proof fn lemma_swept_progression(min: int, max: int, step: int)
    requires
        step > 0,
    ensures
        min > max ==> swept(min, max, step).len() == 0,
        min <= max ==> swept(min, max, step).len() == (max - min) / step + 1,
        forall|i: int|
            0 <= i < swept(min, max, step).len() ==> #[trigger] swept(min, max, step)[i] == min + i
                * step,
        forall|i: int|
            0 <= i < swept(min, max, step).len() ==> min <= #[trigger] swept(min, max, step)[i]
                <= max,
        forall|i: int|
            0 <= i < swept(min, max, step).len() - 1 ==> #[trigger] swept(min, max, step)[i] + step
                == swept(min, max, step)[i + 1],
{
    assert forall|i: int| 0 <= i < swept(min, max, step).len() - 1 implies #[trigger] swept(
        min,
        max,
        step,
    )[i] + step == swept(min, max, step)[i + 1] by {
        assert((i + 1) * step == i * step + step) by (nonlinear_arith);
    }
    if min <= max {
        let q = (max - min) / step;
        lemma_fundamental_div_mod(max - min, step);
        assert(0 <= q) by (nonlinear_arith)
            requires
                step > 0,
                max - min >= 0,
                max - min == q * step + (max - min) % step,
                0 <= (max - min) % step < step,
        ;
        assert forall|i: int| 0 <= i < swept(min, max, step).len() implies min
            <= #[trigger] swept(min, max, step)[i] <= max by {
            assert(swept(min, max, step)[i] == min + i * step);
            assert(0 <= i * step <= q * step) by (nonlinear_arith)
                requires
                    0 <= i <= q,
                    step > 0,
            ;
            assert(q * step <= max - min);
        }
    }
}

/// Law: the sizes a sweep lists are fixed by `min`, `max` and `step` alone.
/// Two sweeps over the same parameters list identical sizes, whatever their
/// distribution shapes or random draws.
pub proof fn lemma_swept_deterministic(s1: Seq<int>, s2: Seq<int>, min: int, max: int, step: int)
    requires
        s1 == swept(min, max, step),
        s2 == swept(min, max, step),
    ensures
        s1 == s2,
{
}

/// A range that fits at some size fits at every smaller size.
proof fn lemma_size_fits_mono(shape: Shape, small: int, large: int)
    requires
        0 <= small <= large,
        size_fits(shape, large),
    ensures
        size_fits(shape, small),
{
    match shape {
        Shape::Wide => {
            assert(small * 10 <= large * 10) by (nonlinear_arith)
                requires
                    small <= large,
            ;
        },
        _ => {},
    }
}

/// Draws one value for `shape` at array size `size`. The draw never falls
/// outside the shape's range: `[0, size/2]` for narrow, `[-size, size]` for
/// normal, `[-size*10, size*10]` for wide.
pub fn draw_for_shape(rng: &mut rand::rngs::ThreadRng, shape: Shape, size: usize) -> (v: i32)
    requires
        size_fits(shape, size as int),
    ensures
        spec_low(shape, size as int) <= v <= spec_high(shape, size as int),
{
    let (low, high) = range_for(shape, size);
    sample_inclusive(rng, low, high)
}

/// Overwrites every slot of `haystack` with an independent draw from
/// `[low, high]`; the length does not change.
pub fn refill_random(haystack: &mut Vec<i32>, rng: &mut rand::rngs::ThreadRng, low: i32, high: i32)
    requires
        low <= high,
    ensures
        final(haystack)@.len() == old(haystack)@.len(),
        forall|i: int| 0 <= i < final(haystack)@.len() ==> low <= #[trigger] final(haystack)@[i] <= high,
{
    let n = haystack.len();
    let mut i: usize = 0;
    while i < n
        invariant
            haystack@.len() == n,
            low <= high,
            i <= n,
            forall|j: int| 0 <= j < i ==> low <= #[trigger] haystack@[j] <= high,
        decreases n - i,
    {
        let v = sample_inclusive(rng, low, high);
        haystack.set(i, v);
        i += 1;
    }
}

/// Adds one measured trial duration to a running total. The sum is exact
/// wherever it fits; a real clock cannot reach `u128::MAX` nanoseconds, so
/// past that the total saturates instead of carrying an unprovable bound on
/// what the trusted clock returns.
pub fn add_duration(total: u128, nanos: u128) -> (r: u128)
    ensures
        r as int == if total as int + nanos as int <= u128::MAX as int {
            total as int + nanos as int
        } else {
            u128::MAX as int
        },
{
    if total <= u128::MAX - nanos {
        total + nanos
    } else {
        u128::MAX
    }
}

/// The average duration over `times` trials: the truncating quotient of the
/// accumulated total by the trial count.
pub fn average_duration(total: u128, times: usize) -> (r: u128)
    requires
        times >= 1,
    ensures
        r as int == total as int / times as int,
{
    total / (times as u128)
}

/// Measures one size: `times` trials, each of which refills the array,
/// draws a target and times the linear scan; then the truncating average,
/// computed by `add_duration` and `average_duration`, whose contracts pin
/// the arithmetic for every value the clock hands back. What the clock
/// reads is up to the machine, so of the average itself only its range
/// holds on every outcome; the second component counts the scans that
/// found their target — the consumed search outcomes, kept so the timed
/// work cannot be discarded.
pub fn run_size(
    size: usize,
    times: usize,
    low: i32,
    high: i32,
    rng: &mut rand::rngs::ThreadRng,
) -> (r: (u128, usize))
    requires
        low <= high,
        times >= 1,
    ensures
        r.0 as int <= u128::MAX as int / times as int,
        r.1 <= times,
{
    let mut haystack: Vec<i32> = Vec::new();
    let mut k: usize = 0;
    while k < size
        invariant
            haystack@.len() == k,
            k <= size,
        decreases size - k,
    {
        haystack.push(0);
        k += 1;
    }
    let mut total: u128 = 0;
    let mut hits: usize = 0;
    let mut t: usize = 0;
    while t < times
        invariant
            t <= times,
            hits <= t,
            haystack@.len() == size,
            low <= high,
        decreases times - t,
    {
        refill_random(&mut haystack, rng, low, high);
        let needle = sample_inclusive(rng, low, high);
        let start = instant_now();
        let found = contains_target(&haystack, needle);
        let elapsed = instant_elapsed(&start);
        let nanos = duration_as_nanos(&elapsed);
        // consume the scan's outcome so the timed loop has an observable effect
        if found {
            hits += 1;
        }
        total = add_duration(total, nanos);
        t += 1;
    }
    let avg = average_duration(total, times);
    proof {
        lemma_div_is_ordered(total as int, u128::MAX as int, times as int);
    }
    (avg, hits)
}

/// Prints the per-sweep diagnostic line for the accumulated search hits,
/// whose consumption keeps the timed scans from being optimized out.
fn print_garbage_counter(garbage: usize) {
    let mut line = "garbage counter (consumed search hits) = ".to_owned();
    let d = dec_string(garbage as u128);
    line.append(d.as_str());
    print_line(line.as_str());
}

/// The progress line printed after each measured size.
pub fn progress_line(size: usize, avg: u128) -> (s: String)
    ensures
        s@ == "size = "@ + dec_of(size as nat) + ", total = "@ + dec_of(avg as nat),
{
    let mut s = "size = ".to_owned();
    let d1 = dec_string(size as u128);
    s.append(d1.as_str());
    s.append(", total = ");
    let d2 = dec_string(avg);
    s.append(d2.as_str());
    s
}

/// One full sweep. For every size from `min` to `max` inclusive, advancing
/// by `step`, it runs `times` trials and records the truncating average of
/// the measured scan durations in nanoseconds — accumulated and divided by
/// `add_duration` and `average_duration` under their exact contracts —
/// printing one progress line per size and one diagnostic counter line at
/// the end. The returned sizes are exactly the arithmetic progression
/// `swept(min, max, step)` — the same for every shape and every random draw
/// — with one averaged duration per size, each a non-negative integer of at
/// most `u128::MAX / times`.
pub fn worker(
    min: usize,
    max: usize,
    step: usize,
    times: usize,
    rng: &mut rand::rngs::ThreadRng,
    shape: Shape,
) -> (r: (Vec<usize>, Vec<u128>))
    requires
        step >= 1,
        times >= 1,
        size_fits(shape, max as int),
    ensures
        sizes_as_ints(r.0@) == swept(min as int, max as int, step as int),
        r.1@.len() == r.0@.len(),
        forall|i: int|
            0 <= i < r.1@.len() ==> 0 <= (#[trigger] r.1@[i]) as int <= u128::MAX as int / (
            times as int),
{
    let mut sizes: Vec<usize> = Vec::new();
    let mut totals: Vec<u128> = Vec::new();
    let mut garbage: usize = 0;
    if min > max {
        print_garbage_counter(garbage);
        proof {
            assert(sizes_as_ints(sizes@) =~= swept(min as int, max as int, step as int));
        }
        return (sizes, totals);
    }
    let mut size = min;
    proof {
        assert(sizes@.len() == 0);
        assert(0 * (step as int) == 0);
    }
    loop
        invariant_except_break
            min <= size <= max,
            size as int == min + sizes@.len() * (step as int),
        invariant
            step >= 1,
            times >= 1,
            size_fits(shape, max as int),
            sizes@.len() == totals@.len(),
            forall|j: int|
                0 <= j < sizes@.len() ==> (#[trigger] sizes@[j]) as int == min + j * (step as int),
            forall|j: int|
                0 <= j < totals@.len() ==> 0 <= (#[trigger] totals@[j]) as int <= u128::MAX as int
                    / (times as int),
        ensures
            sizes@.len() >= 1,
            min + (sizes@.len() - 1) * (step as int) <= max as int,
            (max as int) - (min + (sizes@.len() - 1) * (step as int)) < step as int,
        decreases max - size,
    {
        proof {
            lemma_size_fits_mono(shape, size as int, max as int);
        }
        let (low, high) = range_for(shape, size);
        let (avg, hits) = run_size(size, times, low, high, rng);
        let line = progress_line(size, avg);
        print_line(line.as_str());
        sizes.push(size);
        totals.push(avg);
        garbage = if garbage <= usize::MAX - hits {
            garbage + hits
        } else {
            usize::MAX
        };
        if max - size < step {
            break;
        }
        size += step;
        proof {
            let k = sizes@.len() as int;
            assert(k * (step as int) == (k - 1) * (step as int) + (step as int)) by (nonlinear_arith);
        }
    }
    print_garbage_counter(garbage);
    proof {
        let mi = min as int;
        let ma = max as int;
        let st = step as int;
        let k = sizes@.len() - 1;
        let last = mi + k * st;
        lemma_fundamental_div_mod_converse(ma - mi, st, k, ma - last);
        assert((ma - mi) / st == k);
        assert(swept(mi, ma, st).len() == k + 1);
        assert(sizes_as_ints(sizes@) =~= swept(mi, ma, st));
    }
    (sizes, totals)
}

} // verus!
