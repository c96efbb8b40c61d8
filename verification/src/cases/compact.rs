//! Stream compaction: packing the words that pass a fixed hash predicate,
//! in input order.

use vstd::prelude::*;

pub mod chained;
pub mod half_sized_blocks;
pub mod half_sized_variant;
pub mod no_lookback_chained;
pub mod our_chained;
pub mod our_half_sized_blocks;
pub mod our_reduce_then_scan;
pub mod our_scan_then_propagate;
pub mod reduce_then_scan;
pub mod scan_then_propagate;
pub mod unchanged_half_sized;

verus! {

/// Number of elements of the large benchmark array.
pub const SIZE: usize = 1024 * 1024 * 256;

/// Number of blocks that the three-phase variants aim for.
pub const BLOCK_COUNT: u64 = 32 * 8;

/// Smallest block that the three-phase variants hand out.
pub const MIN_BLOCK_SIZE: u64 = 1024;

/// The pseudo-random word for a seed: xor-shifts by 13, 17 and 5, cut to 32 bits.
pub open spec fn random_spec(seed: u64) -> u32 {
    let a = seed ^ (seed << 13);
    let b = a ^ (a >> 17);
    let c = b ^ (b << 5);
    c as u32
}

/// Whether a word is kept: its hash by xor-shifts of 11, 7 and 5 has every bit of `mask` set.
pub open spec fn predicate_spec(mask: u64, value: u64) -> bool {
    let a = value ^ (value >> 11);
    let b = a ^ (a << 7);
    let c = b ^ (b >> 5);
    (c & mask) == mask
}

/// The kept words of a sequence, in order.
pub open spec fn kept(mask: u64, s: Seq<u64>) -> Seq<u64>
    decreases s.len(),
{
    if s.len() == 0 {
        Seq::empty()
    } else if predicate_spec(mask, s.last()) {
        kept(mask, s.drop_last()).push(s.last())
    } else {
        kept(mask, s.drop_last())
    }
}

/// The number of kept words of a sequence.
pub open spec fn count(mask: u64, s: Seq<u64>) -> nat {
    kept(mask, s).len()
}

/// No more words are kept than there are.
pub proof fn lemma_count_bound(mask: u64, s: Seq<u64>)
    ensures
        count(mask, s) <= s.len(),
    decreases s.len(),
{
    if s.len() > 0 {
        lemma_count_bound(mask, s.drop_last());
    }
}

/// The kept words of a concatenation are those of its parts, in order.
pub proof fn lemma_kept_concat(mask: u64, a: Seq<u64>, b: Seq<u64>)
    ensures
        kept(mask, a + b) == kept(mask, a) + kept(mask, b),
    decreases b.len(),
{
    if b.len() == 0 {
        assert(a + b =~= a);
        assert(kept(mask, a) + kept(mask, b) =~= kept(mask, a));
    } else {
        assert((a + b).drop_last() =~= a + b.drop_last());
        assert((a + b).last() == b.last());
        lemma_kept_concat(mask, a, b.drop_last());
        if predicate_spec(mask, b.last()) {
            assert(kept(mask, a + b) =~= kept(mask, a) + kept(mask, b));
        }
    }
}

/// The kept words of a prefix that is one element longer.
pub proof fn lemma_kept_take_step(mask: u64, s: Seq<u64>, i: int)
    requires
        0 <= i < s.len(),
    ensures
        kept(mask, s.take(i + 1)) == if predicate_spec(mask, s[i]) {
            kept(mask, s.take(i)).push(s[i])
        } else {
            kept(mask, s.take(i))
        },
{
    assert(s.take(i + 1).drop_last() =~= s.take(i));
}

/// The kept words of a prefix are a prefix of the kept words.
pub proof fn lemma_kept_split(mask: u64, s: Seq<u64>, lo: int, hi: int)
    requires
        0 <= lo <= hi <= s.len(),
    ensures
        kept(mask, s.take(hi)) == kept(mask, s.take(lo)) + kept(mask, s.subrange(lo, hi)),
        count(mask, s.take(hi)) == count(mask, s.take(lo)) + count(mask, s.subrange(lo, hi)),
{
    assert(s.take(hi) =~= s.take(lo) + s.subrange(lo, hi));
    lemma_kept_concat(mask, s.take(lo), s.subrange(lo, hi));
}

fn random(seed: u64) -> (r: u32)
    ensures
        r == random_spec(seed),
{
    let mut s: u64 = seed;
    s ^= s << 13;
    s ^= s >> 17;
    s ^= s << 5;
    s as u32
}

/// Whether the predicate keeps `value` under `mask`.
pub fn predicate(mask: u64, value: u64) -> (keep: bool)
    ensures
        keep == predicate_spec(mask, value),
{
    let mut v: u64 = value;
    v ^= v >> 11;
    v ^= v << 7;
    v ^= v >> 5;
    (v & mask) == mask
}

/// An array of `size` words, each the pseudo-random word of its index.
pub fn create_input(size: usize) -> (input: Vec<u64>)
    ensures
        input@.len() == size,
        forall|i: int| 0 <= i < size ==> input@[i] == random_spec(i as u64) as u64,
{
    let mut input: Vec<u64> = Vec::new();
    let mut x: usize = 0;
    while x < size
        invariant
            x <= size,
            input@.len() == x,
            forall|i: int| 0 <= i < x ==> input@[i] == random_spec(i as u64) as u64,
        decreases size - x,
    {
        input.push(random(x as u64) as u64);
        x += 1;
    }
    input
}

/// The match count with a checksum over three cells of a compacted array.
pub fn compute_output(output: &[u64], count: usize) -> (r: (usize, u64))
    requires
        output@.len() > 98238,
        1 <= count <= output@.len(),
    ensures
        r.0 == count,
        r.1 == crate::cases::scan::wrap(output@[0] + output@[98238] + output@[count - 1]),
{
    (count, output[0].wrapping_add(output[98238]).wrapping_add(output[count - 1]))
}

/// Stores the kept words of `input` in `output` from `output_index` on and
/// returns the index after the last one stored.
pub fn compact_sequential(mask: u64, input: &[u64], output: &mut Vec<u64>, output_index: usize) -> (next: usize)
    requires
        output_index + count(mask, input@) <= old(output)@.len(),
    ensures
        next == output_index + count(mask, input@),
        final(output)@.len() == old(output)@.len(),
        forall|k: int| 0 <= k < count(mask, input@) ==> final(output)@[output_index + k] == kept(mask, input@)[k],
        forall|k: int| 0 <= k < final(output)@.len() && !(output_index <= k < next) ==> final(output)@[k] == old(output)@[k],
{
    let mut index: usize = output_index;
    let mut i: usize = 0;
    let capacity: usize = output.len();
    proof {
        assert(input@.take(0) =~= Seq::<u64>::empty());
    }
    while i < input.len()
        invariant
            i <= input@.len(),
            capacity == output@.len(),
            output@.len() == old(output)@.len(),
            output_index + count(mask, input@) <= output@.len(),
            index == output_index + count(mask, input@.take(i as int)),
            forall|k: int| 0 <= k < count(mask, input@.take(i as int)) ==> output@[output_index + k] == kept(mask, input@.take(i as int))[k],
            forall|k: int| 0 <= k < output@.len() && !(output_index <= k < index) ==> output@[k] == old(output)@[k],
        decreases input@.len() - i,
    {
        let value: u64 = input[i];
        proof {
            lemma_kept_take_step(mask, input@, i as int);
            lemma_kept_split(mask, input@, i + 1, input@.len() as int);
            assert(input@.take(input@.len() as int) =~= input@);
            assert(count(mask, input@.take(i + 1)) <= count(mask, input@));
            if predicate_spec(mask, value) {
                assert(count(mask, input@.take(i + 1)) == count(mask, input@.take(i as int)) + 1);
            }
        }
        if predicate(mask, value) {
            output[index] = value;
            index += 1;
        }
        i += 1;
    }
    proof {
        assert(input@.take(input@.len() as int) =~= input@);
    }
    index
}

/// The sequential baseline: compacts `input` into `output` and returns the
/// match count with the checksum.
pub fn reference_sequential_single(mask: u64, input: &[u64], output: &mut Vec<u64>) -> (r: (usize, u64))
    requires
        input@.len() <= old(output)@.len(),
        old(output)@.len() > 98238,
        count(mask, input@) >= 1,
    ensures
        r.0 == count(mask, input@),
        final(output)@.len() == old(output)@.len(),
        final(output)@.take(r.0 as int) == kept(mask, input@),
        final(output)@.skip(r.0 as int) == old(output)@.skip(r.0 as int),
        r.1 == crate::cases::scan::wrap(final(output)@[0] + final(output)@[98238] + final(output)@[r.0 - 1]),
{
    proof {
        lemma_count_bound(mask, input@);
    }
    let output_count = compact_sequential(mask, input, output, 0);
    proof {
        assert(output@.take(output_count as int) =~= kept(mask, input@));
        assert(output@.skip(output_count as int) =~= old(output)@.skip(output_count as int));
    }
    compute_output(output.as_slice(), output_count)
}

/// The number of kept words of `input`.
pub fn count_sequential(mask: u64, input: &[u64]) -> (total: usize)
    ensures
        total == count(mask, input@),
{
    let mut total: usize = 0;
    let mut i: usize = 0;
    proof {
        assert(input@.take(0) =~= Seq::<u64>::empty());
    }
    while i < input.len()
        invariant
            i <= input@.len(),
            total == count(mask, input@.take(i as int)),
            total <= i,
        decreases input@.len() - i,
    {
        proof {
            lemma_kept_take_step(mask, input@, i as int);
        }
        if predicate(mask, input[i]) {
            total += 1;
        }
        i += 1;
    }
    proof {
        assert(input@.take(input@.len() as int) =~= input@);
    }
    total
}

/// Writes to each cell of `output[start..end]` the number of kept words of
/// `input[start..end]` up to and including that cell, and returns the last.
pub fn scan_indices_range(mask: u64, input: &[u64], start: usize, end: usize, output: &mut Vec<u64>) -> (total: usize)
    requires
        start <= end <= input@.len(),
        end <= old(output)@.len(),
    ensures
        total == count(mask, input@.subrange(start as int, end as int)),
        final(output)@.len() == old(output)@.len(),
        forall|i: int| start <= i < end ==> final(output)@[i] == count(mask, input@.subrange(start as int, end as int).take(i - start + 1)),
        forall|i: int| 0 <= i < final(output)@.len() && !(start <= i < end) ==> final(output)@[i] == old(output)@[i],
{
    let ghost block = input@.subrange(start as int, end as int);
    let mut total: usize = 0;
    let mut i: usize = start;
    proof {
        assert(block.take(0) =~= Seq::<u64>::empty());
    }
    while i < end
        invariant
            start <= i <= end <= input@.len(),
            end <= output@.len(),
            output@.len() == old(output)@.len(),
            block == input@.subrange(start as int, end as int),
            total == count(mask, block.take(i - start)),
            total <= i - start,
            forall|j: int| start <= j < i ==> output@[j] == count(mask, block.take(j - start + 1)),
            forall|j: int| 0 <= j < output@.len() && !(start <= j < i) ==> output@[j] == old(output)@[j],
        decreases end - i,
    {
        proof {
            lemma_kept_take_step(mask, block, i - start);
        }
        if predicate(mask, input[i]) {
            total += 1;
        }
        output[i] = total as u64;
        i += 1;
    }
    proof {
        assert(block.take(end - start) =~= block);
    }
    total
}

/// Writes to each cell of `output` the number of kept words of `input` up to
/// and including that cell, and returns the total.
pub fn scan_indices_sequential(mask: u64, input: &[u64], output: &mut Vec<u64>) -> (total: usize)
    requires
        input@.len() == old(output)@.len(),
    ensures
        total == count(mask, input@),
        final(output)@.len() == input@.len(),
        forall|i: int| 0 <= i < input@.len() ==> final(output)@[i] == count(mask, input@.take(i + 1)),
{
    let n: usize = input.len();
    let total = scan_indices_range(mask, input, 0, n, output);
    proof {
        assert(input@.subrange(0, n as int) =~= input@);
    }
    total
}


/// The output cells of the kept words of `input[lo..hi]` hold those words.
pub open spec fn packed(mask: u64, input: Seq<u64>, output: Seq<u64>, lo: int, hi: int) -> bool {
    forall|c: int|
        count(mask, input.take(lo)) <= c < count(mask, input.take(hi)) ==> #[trigger] output[c] == kept(mask, input)[c]
}

/// The number of kept words before a position grows with the position.
pub proof fn lemma_count_monotonic(mask: u64, input: Seq<u64>, lo: int, hi: int)
    requires
        0 <= lo <= hi <= input.len(),
    ensures
        count(mask, input.take(lo)) <= count(mask, input.take(hi)) <= count(mask, input) <= input.len(),
        count(mask, input.take(hi)) <= hi,
{
    lemma_kept_split(mask, input, lo, hi);
    lemma_kept_split(mask, input, hi, input.len() as int);
    assert(input.take(input.len() as int) =~= input);
    lemma_count_bound(mask, input);
    lemma_count_bound(mask, input.take(hi));
}

/// Stores the kept words of `input[start..end]` in `output` from `base` on,
/// the number of kept words before `start`, and returns the number of kept
/// words before `end`.
pub fn compact_range(mask: u64, input: &[u64], start: usize, end: usize, base: usize, output: &mut Vec<u64>) -> (next: usize)
    requires
        start <= end <= input@.len(),
        input@.len() <= old(output)@.len(),
        base == count(mask, input@.take(start as int)),
    ensures
        final(output)@.len() == old(output)@.len(),
        next == count(mask, input@.take(end as int)),
        packed(mask, input@, final(output)@, start as int, end as int),
        forall|c: int|
            0 <= c < final(output)@.len() && !(base <= c < next) ==> #[trigger] final(output)@[c] == old(output)@[c],
{
    let block = &input[start..end];
    proof {
        lemma_count_monotonic(mask, input@, start as int, end as int);
        lemma_kept_split(mask, input@, start as int, end as int);
        lemma_kept_split(mask, input@, end as int, input@.len() as int);
        assert(input@.take(input@.len() as int) =~= input@);
    }
    let next = compact_sequential(mask, block, output, base);
    proof {
        assert forall|c: int| base <= c < next implies #[trigger] output@[c] == kept(mask, input@)[c] by {
            let k = c - base;
            assert(output@[base + k] == kept(mask, block@)[k]);
            assert(kept(mask, input@.take(end as int))[c] == kept(mask, block@)[k]);
            assert(kept(mask, input@)[c] == kept(mask, input@.take(end as int))[c]);
        }
    }
    next
}

/// When the words of every position are packed, the output starts with the
/// kept words of the input.
pub proof fn lemma_packed_all(mask: u64, input: Seq<u64>, output: Seq<u64>)
    requires
        input.len() <= output.len(),
        packed(mask, input, output, 0, input.len() as int),
    ensures
        output.take(count(mask, input) as int) == kept(mask, input),
{
    assert(input.take(0) =~= Seq::<u64>::empty());
    assert(input.take(input.len() as int) =~= input);
    lemma_count_bound(mask, input);
    assert(output.take(count(mask, input) as int) =~= kept(mask, input));
}


/// Packed segments that follow each other are packed as one.
pub proof fn lemma_packed_join(mask: u64, input: Seq<u64>, output: Seq<u64>, lo: int, mid: int, hi: int)
    requires
        packed(mask, input, output, lo, mid),
        packed(mask, input, output, mid, hi),
    ensures
        packed(mask, input, output, lo, hi),
{
}

/// A segment stays packed when only the cells of a segment apart from it change.
pub proof fn lemma_packed_apart(
    mask: u64,
    input: Seq<u64>,
    before: Seq<u64>,
    after: Seq<u64>,
    lo: int,
    hi: int,
    other_lo: int,
    other_hi: int,
)
    requires
        0 <= lo <= hi <= input.len(),
        0 <= other_lo <= other_hi <= input.len(),
        hi <= other_lo || other_hi <= lo,
        input.len() <= before.len(),
        before.len() == after.len(),
        packed(mask, input, before, lo, hi),
        forall|c: int|
            0 <= c < after.len() && !(count(mask, input.take(other_lo)) <= c < count(mask, input.take(other_hi)))
                ==> #[trigger] after[c] == before[c],
    ensures
        packed(mask, input, after, lo, hi),
{
    lemma_count_monotonic(mask, input, lo, hi);
    lemma_count_monotonic(mask, input, other_lo, other_hi);
    if hi <= other_lo {
        lemma_count_monotonic(mask, input, hi, other_lo);
    } else {
        lemma_count_monotonic(mask, input, other_hi, lo);
    }
    assert forall|c: int| count(mask, input.take(lo)) <= c < count(mask, input.take(hi)) implies #[trigger] after[c]
        == kept(mask, input)[c] by {
        assert(before[c] == kept(mask, input)[c]);
    }
}

} // verus!
