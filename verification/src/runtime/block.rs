//! Blocks of an array, and the per-block records of the chained algorithms.

use vstd::prelude::*;

verus! {

/// Nothing is published for the block.
pub const STATE_INITIALIZED: u64 = 0;

/// The block's own reduction is published in `aggregate`.
pub const STATE_AGGREGATE_AVAILABLE: u64 = 1;

/// The reduction of everything up to the end of the block is published in `prefix`.
pub const STATE_PREFIX_AVAILABLE: u64 = 2;

/// The record of one block. Its state only ever advances, and a field is
/// written before the state that announces it.
#[derive(Clone, Copy)]
pub struct BlockInfo {
    pub state: u64,
    pub aggregate: u64,
    pub prefix: u64,
}

/// Every record is in its initial state, with all three fields zero.
pub open spec fn initialized(temp: Seq<BlockInfo>) -> bool {
    forall|i: int|
        0 <= i < temp.len() ==> (#[trigger] temp[i]).state == STATE_INITIALIZED && temp[i].aggregate == 0
            && temp[i].prefix == 0
}

/// The number of blocks of `block_size` elements that cover `len` elements.
pub open spec fn block_count(len: int, block_size: int) -> int {
    (len + block_size - 1) / block_size
}

/// The index of the first element of block `i`.
pub open spec fn block_start(i: int, block_size: int) -> int {
    i * block_size
}

/// The index after the last element of block `i` of an array of `len` elements.
pub open spec fn block_end(i: int, block_size: int, len: int) -> int {
    if (i + 1) * block_size < len {
        (i + 1) * block_size
    } else {
        len
    }
}

/// The blocks cover the array, and the last one starts inside it.
pub proof fn lemma_block_count(len: int, block_size: int)
    requires
        0 <= len,
        0 < block_size,
    ensures
        0 <= block_count(len, block_size) <= len,
        block_count(len, block_size) * block_size >= len,
        len > 0 ==> (block_count(len, block_size) - 1) * block_size < len,
        len == 0 ==> block_count(len, block_size) == 0,
{
    let q = block_count(len, block_size);
    let r = (len + block_size - 1) % block_size;
    vstd::arithmetic::div_mod::lemma_fundamental_div_mod(len + block_size - 1, block_size);
    vstd::arithmetic::div_mod::lemma_mod_bound(len + block_size - 1, block_size);
    assert(len + block_size - 1 == block_size * q + r);
    assert(block_size * q == q * block_size) by (nonlinear_arith);
    assert((q - 1) * block_size == q * block_size - block_size) by (nonlinear_arith);
    if len == 0 {
        vstd::arithmetic::div_mod::lemma_small_mod((block_size - 1) as nat, block_size as nat);
        assert(q * block_size == 0);
        assert(q == 0) by (nonlinear_arith)
            requires
                q * block_size == 0,
                block_size > 0,
        ;
    }
    assert(0 <= q <= len) by (nonlinear_arith)
        requires
            q * block_size >= len,
            (q - 1) * block_size < len || len == 0,
            q * block_size <= len + block_size - 1,
            block_size >= 1,
            len >= 0,
            len == 0 ==> q == 0,
    ;
}

/// The blocks tile the array: each starts inside it, is not empty, and ends
/// where the next one starts or where the array ends.
pub proof fn lemma_block_bounds(len: int, block_size: int, i: int)
    requires
        0 <= len,
        0 < block_size,
        0 <= i < block_count(len, block_size),
    ensures
        0 <= block_start(i, block_size) < block_end(i, block_size, len) <= len,
        block_end(i, block_size, len) <= block_start(i, block_size) + block_size,
        i + 1 < block_count(len, block_size) ==> block_end(i, block_size, len) == block_start(i + 1, block_size)
            && block_end(i, block_size, len) == block_start(i, block_size) + block_size,
        i + 1 == block_count(len, block_size) ==> block_end(i, block_size, len) == len,
{
    lemma_block_count(len, block_size);
    let q = block_count(len, block_size);
    assert(i * block_size <= (q - 1) * block_size) by (nonlinear_arith)
        requires
            0 <= i <= q - 1,
            block_size > 0,
    ;
    assert((i + 1) * block_size == i * block_size + block_size) by (nonlinear_arith);
    assert(0 <= i * block_size) by (nonlinear_arith)
        requires
            0 <= i,
            block_size > 0,
    ;
    if i + 1 < q {
        assert((i + 1) * block_size <= (q - 1) * block_size) by (nonlinear_arith)
            requires
                i + 1 <= q - 1,
                block_size > 0,
        ;
    }
}

/// The number of blocks of `block_size` elements that cover `len` elements.
pub fn blocks_for(len: usize, block_size: usize) -> (blocks: usize)
    requires
        block_size > 0,
    ensures
        blocks == block_count(len as int, block_size as int),
{
    let whole: usize = len / block_size;
    let rest: usize = len % block_size;
    proof {
        let l = len as int;
        let b = block_size as int;
        vstd::arithmetic::div_mod::lemma_fundamental_div_mod(l, b);
        assert(b * (l / b) == (l / b) * b) by (nonlinear_arith);
        if l % b == 0 {
            vstd::arithmetic::div_mod::lemma_fundamental_div_mod_converse(l + b - 1, b, l / b, b - 1);
        } else {
            assert((l / b + 1) * b == (l / b) * b + b) by (nonlinear_arith);
            vstd::arithmetic::div_mod::lemma_fundamental_div_mod_converse(l + b - 1, b, l / b + 1, l % b - 1);
        }
        lemma_block_count(l, b);
    }
    if rest == 0 {
        whole
    } else {
        whole + 1
    }
}

/// The bounds of block `i`.
pub fn block_range(i: usize, block_size: usize, len: usize) -> (range: (usize, usize))
    requires
        block_size > 0,
        i < block_count(len as int, block_size as int),
    ensures
        range.0 == block_start(i as int, block_size as int),
        range.1 == block_end(i as int, block_size as int, len as int),
{
    proof {
        lemma_block_bounds(len as int, block_size as int, i as int);
        assert((i + 1) * block_size == i * block_size + block_size) by (nonlinear_arith);
    }
    let start: usize = i * block_size;
    let end: usize = if len - start > block_size {
        start + block_size
    } else {
        len
    };
    (start, end)
}

/// `blocks` records in their initial state.
pub fn create_records(blocks: usize) -> (temp: Vec<BlockInfo>)
    ensures
        temp@.len() == blocks,
        initialized(temp@),
{
    let mut temp: Vec<BlockInfo> = Vec::new();
    let mut i: usize = 0;
    while i < blocks
        invariant
            i <= blocks,
            temp@.len() == i,
            initialized(temp@),
        decreases blocks - i,
    {
        temp.push(BlockInfo { state: STATE_INITIALIZED, aggregate: 0, prefix: 0 });
        i += 1;
    }
    temp
}

/// Puts every record back into its initial state, whatever it held.
pub fn reset_records(temp: &mut Vec<BlockInfo>)
    ensures
        final(temp)@.len() == old(temp)@.len(),
        initialized(final(temp)@),
{
    let n: usize = temp.len();
    let mut i: usize = 0;
    while i < n
        invariant
            i <= n,
            temp@.len() == n,
            forall|j: int|
                0 <= j < i ==> (#[trigger] temp@[j]).state == STATE_INITIALIZED && temp@[j].aggregate == 0
                    && temp@[j].prefix == 0,
        decreases n - i,
    {
        temp[i].state = STATE_INITIALIZED;
        temp[i].aggregate = 0;
        temp[i].prefix = 0;
        i += 1;
    }
}

/// The sum of a sequence of natural numbers.
pub open spec fn total(s: Seq<nat>) -> nat
    decreases s.len(),
{
    if s.len() == 0 {
        0
    } else {
        total(s.drop_last()) + s.last()
    }
}

/// Changing one term changes the sum by the difference.
pub proof fn lemma_total_update(s: Seq<nat>, i: int, v: nat)
    requires
        0 <= i < s.len(),
    ensures
        total(s.update(i, v)) == total(s) - s[i] + v,
    decreases s.len(),
{
    if i == s.len() - 1 {
        assert(s.update(i, v).drop_last() =~= s.drop_last());
    } else {
        assert(s.update(i, v).drop_last() =~= s.drop_last().update(i, v));
        lemma_total_update(s.drop_last(), i, v);
    }
}

/// A sum of zeros and ones is at most their number.
pub proof fn lemma_total_flags(s: Seq<nat>)
    requires
        forall|i: int| 0 <= i < s.len() ==> s[i] <= 1,
    ensures
        total(s) <= s.len(),
    decreases s.len(),
{
    if s.len() > 0 {
        lemma_total_flags(s.drop_last());
    }
}

/// A positive sum has a positive term.
pub proof fn lemma_total_positive(s: Seq<nat>) -> (i: int)
    requires
        total(s) > 0,
    ensures
        0 <= i < s.len(),
        s[i] > 0,
    decreases s.len(),
{
    if s.last() > 0 {
        s.len() - 1
    } else {
        lemma_total_positive(s.drop_last())
    }
}

/// A sum of zeros is zero.
pub proof fn lemma_total_zero(s: Seq<nat>)
    requires
        forall|i: int| 0 <= i < s.len() ==> s[i] == 0,
    ensures
        total(s) == 0,
    decreases s.len(),
{
    if s.len() > 0 {
        lemma_total_zero(s.drop_last());
    }
}


/// Number of blocks that the three-phase algorithms aim for.
pub const BLOCK_COUNT: usize = 32 * 8;

/// Smallest block that the three-phase algorithms hand out.
pub const MIN_BLOCK_SIZE: usize = 1024;

/// The block size of the three-phase algorithms for `len` elements: that of
/// `BLOCK_COUNT` blocks, raised to `MIN_BLOCK_SIZE` where it would be smaller.
pub open spec fn partition_size(len: int) -> int {
    if block_count(len, BLOCK_COUNT as int) < MIN_BLOCK_SIZE {
        MIN_BLOCK_SIZE as int
    } else {
        block_count(len, BLOCK_COUNT as int)
    }
}

/// The block size and the number of blocks for `len` elements.
pub fn partition(len: usize) -> (r: (usize, usize))
    ensures
        r.0 == partition_size(len as int),
        r.1 == block_count(len as int, r.0 as int),
        r.0 >= MIN_BLOCK_SIZE,
        r.1 <= BLOCK_COUNT,
        len > 0 ==> r.1 >= 1,
{
    let mut block_size: usize = blocks_for(len, BLOCK_COUNT);
    if block_size < MIN_BLOCK_SIZE {
        block_size = MIN_BLOCK_SIZE;
    }
    let count: usize = blocks_for(len, block_size);
    proof {
        let l = len as int;
        let b = block_size as int;
        lemma_block_count(l, BLOCK_COUNT as int);
        lemma_block_count(l, b);
        let q = block_count(l, b);
        assert(l <= 256 * b);
        if q > 256 {
            assert((q - 1) * b >= 256 * b) by (nonlinear_arith)
                requires
                    q - 1 >= 256,
                    b > 0,
            ;
        }
        if l > 0 && q < 1 {
            assert(q * b <= 0) by (nonlinear_arith)
                requires
                    q <= 0,
                    b > 0,
            ;
        }
    }
    (block_size, count)
}

} // verus!
