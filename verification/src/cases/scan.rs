//! Inclusive prefix sums of 64-bit words under wrapping addition.

use vstd::prelude::*;

pub mod chained;
pub mod half_sized_blocks;
pub mod half_sized_variant;
pub mod no_lookback_chained;
pub mod our_chained;
pub mod our_half_sized_blocks;
pub mod our_reduce_then_scan;
pub mod our_scan_then_propagate;
pub mod reduce_then_scan;
pub mod scan_then_propagate;
pub mod unchanged_half_sized;

verus! {

/// Number of elements of the large benchmark array.
pub const SIZE: usize = 1024 * 1024 * 64;

/// The exact sum of a sequence of words.
pub open spec fn sum(s: Seq<u64>) -> int
    decreases s.len(),
{
    if s.len() == 0 {
        0
    } else {
        sum(s.drop_last()) + s.last() as int
    }
}

/// Reduction of an exact value to a 64-bit word, as wrapping addition does it.
pub open spec fn wrap(v: int) -> u64 {
    (v % 0x1_0000_0000_0000_0000) as u64
}

/// Element `i` of the inclusive scan of `input` that starts from `initial`.
pub open spec fn scan_at(input: Seq<u64>, initial: u64, i: int) -> u64 {
    wrap(initial as int + sum(input.take(i + 1)))
}

/// The inclusive scan of `input` that starts from `initial`.
pub open spec fn scan_from(input: Seq<u64>, initial: u64) -> Seq<u64> {
    Seq::new(input.len(), |i: int| scan_at(input, initial, i))
}

/// The inclusive prefix sum of `input`.
pub open spec fn inclusive_scan(input: Seq<u64>) -> Seq<u64> {
    scan_from(input, 0)
}

/// The pseudo-random word for a seed: xor-shifts by 13, 17 and 5, cut to 32 bits.
pub open spec fn random_spec(seed: u64) -> u32 {
    let a = seed ^ (seed << 13);
    let b = a ^ (a >> 17);
    let c = b ^ (b << 5);
    c as u32
}

/// A sum of words is not negative.
pub proof fn lemma_sum_nonnegative(s: Seq<u64>)
    ensures
        0 <= sum(s),
    decreases s.len(),
{
    if s.len() > 0 {
        lemma_sum_nonnegative(s.drop_last());
    }
}

/// The sum of a concatenation is the sum of the sums.
pub proof fn lemma_sum_concat(a: Seq<u64>, b: Seq<u64>)
    ensures
        sum(a + b) == sum(a) + sum(b),
    decreases b.len(),
{
    if b.len() == 0 {
        assert(a + b =~= a);
    } else {
        assert((a + b).drop_last() =~= a + b.drop_last());
        lemma_sum_concat(a, b.drop_last());
    }
}

/// The sum of a prefix that is one element longer.
pub proof fn lemma_sum_take_step(s: Seq<u64>, i: int)
    requires
        0 <= i < s.len(),
    ensures
        sum(s.take(i + 1)) == sum(s.take(i)) + s[i] as int,
{
    assert(s.take(i + 1).drop_last() =~= s.take(i));
}

/// A segment's sum is the difference of two prefix sums.
pub proof fn lemma_sum_subrange(s: Seq<u64>, lo: int, hi: int)
    requires
        0 <= lo <= hi <= s.len(),
    ensures
        sum(s.take(hi)) == sum(s.take(lo)) + sum(s.subrange(lo, hi)),
{
    assert(s.take(hi) =~= s.take(lo) + s.subrange(lo, hi));
    lemma_sum_concat(s.take(lo), s.subrange(lo, hi));
}

/// Wrapping addition of a word to a reduced value reduces the exact sum.
pub proof fn lemma_wrap_add(v: int, w: u64)
    ensures
        vstd::wrapping::u64_specs::wrapping_add(wrap(v), w) == wrap(v + w as int),
{
}

/// Reduction is idempotent under addition of an exact value.
pub proof fn lemma_wrap_add_int(v: int, w: int)
    ensures
        wrap(wrap(v) as int + w) == wrap(v + w),
        wrap(v + wrap(w) as int) == wrap(v + w),
{
    vstd::arithmetic::div_mod::lemma_add_mod_noop_right(w, v, 0x1_0000_0000_0000_0000);
    vstd::arithmetic::div_mod::lemma_add_mod_noop_right(v, w, 0x1_0000_0000_0000_0000);
    assert(wrap(v) as int + w == w + wrap(v) as int);
}

/// A value that fits in a word is its own reduction.
pub proof fn lemma_wrap_small(v: int)
    requires
        0 <= v <= u64::MAX,
    ensures
        wrap(v) == v,
{
}

/// The pseudo-random word for a seed.
pub fn random(seed: u64) -> (r: u32)
    ensures
        r == random_spec(seed),
{
    let mut s: u64 = seed;
    s ^= s << 13;
    s ^= s >> 17;
    s ^= s << 5;
    s as u32
}

/// Overwrites every cell with the pseudo-random word of its index.
pub fn fill(values: &mut Vec<u64>)
    ensures
        final(values)@.len() == old(values)@.len(),
        forall|i: int| 0 <= i < final(values)@.len() ==> final(values)@[i] == random_spec(i as u64) as u64,
{
    let n: usize = values.len();
    let mut idx: usize = 0;
    while idx < n
        invariant
            values@.len() == n,
            idx <= n,
            forall|i: int| 0 <= i < idx ==> values@[i] == random_spec(i as u64) as u64,
        decreases n - idx,
    {
        values[idx] = random(idx as u64) as u64;
        idx += 1;
    }
}

/// A checksum over four fixed cells of a scanned array.
pub fn compute_output(output: &[u64]) -> (r: u64)
    requires
        output@.len() > 98238,
    ensures
        r == wrap(
            output@[0] + output@[98238] + output@[output@.len() - 123] + output@[output@.len() - 1],
        ),
{
    let n: usize = output.len();
    output[0].wrapping_add(output[98238]).wrapping_add(output[n - 123]).wrapping_add(output[n - 1])
}

/// Scans `input[start..end]` into the same cells of `output`, starting from `initial`.
pub fn scan_range(input: &[u64], start: usize, end: usize, initial: u64, output: &mut Vec<u64>) -> (last: u64)
    requires
        start <= end <= input@.len(),
        end <= old(output)@.len(),
    ensures
        final(output)@.len() == old(output)@.len(),
        forall|i: int| start <= i < end ==> final(output)@[i] == scan_at(input@.subrange(start as int, end as int), initial, i - start),
        forall|i: int| 0 <= i < final(output)@.len() && !(start <= i < end) ==> final(output)@[i] == old(output)@[i],
        last == wrap(initial as int + sum(input@.subrange(start as int, end as int))),
{
    let ghost block = input@.subrange(start as int, end as int);
    let mut accumulator: u64 = initial;
    let mut i: usize = start;
    proof {
        assert(block.take(0) =~= Seq::<u64>::empty());
    }
    while i < end
        invariant
            start <= i <= end <= input@.len(),
            end <= output@.len(),
            output@.len() == old(output)@.len(),
            block == input@.subrange(start as int, end as int),
            accumulator == wrap(initial as int + sum(block.take(i - start))),
            forall|j: int| start <= j < i ==> output@[j] == scan_at(block, initial, j - start),
            forall|j: int| 0 <= j < output@.len() && !(start <= j < i) ==> output@[j] == old(output)@[j],
        decreases end - i,
    {
        proof {
            lemma_sum_take_step(block, i - start);
            lemma_wrap_add(initial as int + sum(block.take(i - start)), input@[i as int]);
        }
        accumulator = accumulator.wrapping_add(input[i]);
        output[i] = accumulator;
        i += 1;
    }
    proof {
        assert(block.take(end - start) =~= block);
    }
    accumulator
}

/// Writes the inclusive scan of `input`, started from `initial`, to `output`,
/// and returns the final accumulator.
pub fn scan_sequential(input: &[u64], initial: u64, output: &mut Vec<u64>) -> (last: u64)
    requires
        input@.len() == old(output)@.len(),
    ensures
        final(output)@ == scan_from(input@, initial),
        last == wrap(initial as int + sum(input@)),
{
    let n: usize = input.len();
    let last = scan_range(input, 0, n, initial, output);
    proof {
        assert(input@.subrange(0, n as int) =~= input@);
        assert(output@ =~= scan_from(input@, initial));
    }
    last
}

/// The sequential baseline: scans `input` into `output` and returns the checksum.
pub fn reference_sequential_single(input: &[u64], output: &mut Vec<u64>) -> (r: u64)
    requires
        input@.len() == old(output)@.len(),
        input@.len() > 98238,
    ensures
        final(output)@ == inclusive_scan(input@),
        r == wrap(
            final(output)@[0] + final(output)@[98238] + final(output)@[final(output)@.len() - 123]
                + final(output)@[final(output)@.len() - 1],
        ),
{
    scan_sequential(input, 0, output);
    compute_output(output.as_slice())
}

/// The wrapping sum of an array.
pub fn fold_sequential(array: &[u64]) -> (total: u64)
    ensures
        total == wrap(sum(array@)),
{
    let mut accumulator: u64 = 0;
    let mut i: usize = 0;
    proof {
        assert(array@.take(0) =~= Seq::<u64>::empty());
    }
    while i < array.len()
        invariant
            i <= array@.len(),
            accumulator == wrap(sum(array@.take(i as int))),
        decreases array@.len() - i,
    {
        proof {
            lemma_sum_take_step(array@, i as int);
            lemma_wrap_add(sum(array@.take(i as int)), array@[i as int]);
        }
        accumulator = accumulator.wrapping_add(array[i]);
        i += 1;
    }
    proof {
        assert(array@.take(array@.len() as int) =~= array@);
    }
    accumulator
}


/// The wrapping sum of `input[from..=at]`.
pub open spec fn running(input: Seq<u64>, from: int, at: int) -> u64 {
    wrap(sum(input.subrange(from, at + 1)))
}

/// A running sum from `from`, raised by the prefix sum before `from`, is the
/// prefix sum.
pub proof fn lemma_running_prefix(input: Seq<u64>, from: int, at: int)
    requires
        0 <= from <= at < input.len(),
    ensures
        vstd::wrapping::u64_specs::wrapping_add(running(input, from, at), wrap(sum(input.take(from)))) == wrap(
            sum(input.take(at + 1)),
        ),
        vstd::wrapping::u64_specs::wrapping_add(wrap(sum(input.take(from))), running(input, from, at)) == wrap(
            sum(input.take(at + 1)),
        ),
{
    lemma_sum_subrange(input, from, at + 1);
    let a = sum(input.take(from));
    let b = sum(input.subrange(from, at + 1));
    lemma_wrap_add(a, wrap(b));
    lemma_wrap_add_int(a, b);
    lemma_wrap_add(b, wrap(a));
    lemma_wrap_add_int(b, a);
}

/// Adds `base` to every cell of `output[start..end]`, wrapping.
pub fn propagate_range(output: &mut Vec<u64>, start: usize, end: usize, base: u64)
    requires
        start <= end <= old(output)@.len(),
    ensures
        final(output)@.len() == old(output)@.len(),
        forall|i: int|
            start <= i < end ==> #[trigger] final(output)@[i] == vstd::wrapping::u64_specs::wrapping_add(
                old(output)@[i],
                base,
            ),
        forall|i: int| 0 <= i < final(output)@.len() && !(start <= i < end) ==> final(output)@[i] == old(output)@[i],
{
    let mut i: usize = start;
    while i < end
        invariant
            start <= i <= end <= output@.len(),
            output@.len() == old(output)@.len(),
            forall|j: int|
                start <= j < i ==> #[trigger] output@[j] == vstd::wrapping::u64_specs::wrapping_add(
                    old(output)@[j],
                    base,
                ),
            forall|j: int| 0 <= j < output@.len() && !(start <= j < i) ==> output@[j] == old(output)@[j],
        decreases end - i,
    {
        output[i] = output[i].wrapping_add(base);
        i += 1;
    }
}

} // verus!
