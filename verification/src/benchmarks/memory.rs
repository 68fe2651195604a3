//! The memory benchmarks' work: a buffer of counting words, a sequential read
//! pass that sums it, the two write passes, the split of the buffer among threads,
//! and the shuffled order of the random reads.
use vstd::prelude::*;

verus! {

/// The words `0, 1, ..., n - 1`.
pub fn counting_words(n: usize) -> (v: Vec<u64>)
    ensures
        v@.len() == n,
        forall|i: int| 0 <= i < n ==> #[trigger] v@[i] == i as u64,
{
    let mut v: Vec<u64> = Vec::new();
    let mut i: usize = 0;
    while i < n
        invariant
            i <= n,
            v@.len() == i,
            forall|k: int| 0 <= k < i ==> #[trigger] v@[k] == k as u64,
        decreases n - i,
    {
        v.push(i as u64);
        i = i + 1;
    }
    v
}

/// The words `start, ..., end - 1`: one thread's slice of the buffer; none
/// where `end` does not exceed `start`.
pub fn counting_words_range(start: usize, end: usize) -> (v: Vec<u64>)
    ensures
        v@.len() == (if start <= end { end - start } else { 0 }),
        forall|i: int| 0 <= i < v@.len() ==> #[trigger] v@[i] == (start + i) as u64,
{
    let mut v: Vec<u64> = Vec::new();
    if end <= start {
        return v;
    }
    let mut i: usize = start;
    while i < end
        invariant
            start <= i <= end,
            v@.len() == i - start,
            forall|k: int| 0 <= k < i - start ==> #[trigger] v@[k] == (start + k) as u64,
        decreases end - i,
    {
        v.push(i as u64);
        i = i + 1;
    }
    v
}

/// The sum of the words, wrapping at 2^64.
pub open spec fn wrapping_sum(s: Seq<u64>) -> u64
    decreases s.len(),
{
    if s.len() == 0 {
        0
    } else {
        wrapping_sum(s.drop_last()).wrapping_add(s.last())
    }
}

/// One sequential read pass: every word is loaded and added up.
pub fn read_pass(words: &[u64]) -> (sum: u64)
    ensures
        sum == wrapping_sum(words@),
{
    let mut sum: u64 = 0;
    let mut i: usize = 0;
    while i < words.len()
        invariant
            i <= words@.len(),
            sum == wrapping_sum(words@.take(i as int)),
        decreases words.len() - i,
    {
        assert(words@.take(i + 1).drop_last() =~= words@.take(i as int));
        sum = sum.wrapping_add(words[i]);
        i = i + 1;
    }
    assert(words@.take(words@.len() as int) =~= words@);
    sum
}

/// One sequential write pass: every word is incremented, wrapping.
pub fn write_pass(words: &mut Vec<u64>)
    ensures
        final(words)@.len() == old(words)@.len(),
        forall|i: int|
            0 <= i < old(words)@.len() ==> #[trigger] final(words)@[i] == old(words)@[i].wrapping_add(1),
{
    let mut i: usize = 0;
    while i < words.len()
        invariant
            i <= words@.len(),
            words@.len() == old(words)@.len(),
            forall|k: int| 0 <= k < i ==> #[trigger] words@[k] == old(words)@[k].wrapping_add(1),
            forall|k: int| i <= k < words@.len() ==> #[trigger] words@[k] == old(words)@[k],
        decreases words.len() - i,
    {
        let v = words[i].wrapping_add(1);
        words.set(i, v);
        i = i + 1;
    }
}

/// The word that the vectorised write pass stores everywhere.
pub const WRITE_PATTERN: u64 = 0x5a5a_5a5a_5a5a_5a5a;

/// One sequential write pass as the vectorised kernel does it: every word is
/// overwritten with `pattern`.
pub fn fill_pass(words: &mut Vec<u64>, pattern: u64)
    ensures
        final(words)@.len() == old(words)@.len(),
        forall|i: int| 0 <= i < old(words)@.len() ==> #[trigger] final(words)@[i] == pattern,
{
    let mut i: usize = 0;
    while i < words.len()
        invariant
            i <= words@.len(),
            words@.len() == old(words)@.len(),
            forall|k: int| 0 <= k < i ==> #[trigger] words@[k] == pattern,
        decreases words.len() - i,
    {
        words.set(i, pattern);
        i = i + 1;
    }
}

/// The position after `i` in a walk that goes round `len` items: the next
/// one, or the first again after the last.
pub fn next_position(i: usize, len: usize) -> (j: usize)
    requires
        i < usize::MAX,
    ensures
        j == (if i + 1 >= len { 0 } else { i + 1 }),
{
    let j = i + 1;
    if j >= len {
        0
    } else {
        j
    }
}

/// The part of a buffer of `n` words that thread `k` of `threads` owns: equal
/// slices of `n / threads` words, the last thread also taking the remainder.
pub open spec fn thread_range(n: nat, threads: nat, k: nat) -> (nat, nat) {
    let slice = n / threads;
    (slice * k, if k + 1 == threads {
        n
    } else {
        slice * k + slice
    })
}

/// The slices of a buffer of `n` words for `threads` threads.
pub fn thread_ranges(n: usize, threads: usize) -> (ranges: Vec<(usize, usize)>)
    requires
        threads > 0,
    ensures
        ranges@.len() == threads,
        forall|k: int|
            0 <= k < threads ==> (#[trigger] ranges@[k]).0 == thread_range(n as nat, threads as nat, k as nat).0
                && ranges@[k].1 == thread_range(n as nat, threads as nat, k as nat).1,
        ranges@[0].0 == 0,
        ranges@[threads - 1].1 == n,
        forall|k: int| 0 <= k < threads ==> (#[trigger] ranges@[k]).0 <= ranges@[k].1,
        forall|k: int| 0 < k < threads ==> (#[trigger] ranges@[k]).0 == ranges@[k - 1].1,
{
    let slice = n / threads;
    let mut ranges: Vec<(usize, usize)> = Vec::new();
    let mut k: usize = 0;
    while k < threads
        invariant
            k <= threads,
            slice == n / threads,
            ranges@.len() == k,
            forall|j: int|
                0 <= j < k ==> (#[trigger] ranges@[j]).0 == thread_range(n as nat, threads as nat, j as nat).0
                    && ranges@[j].1 == thread_range(n as nat, threads as nat, j as nat).1,
        decreases threads - k,
    {
        assert(slice * k <= n) by (nonlinear_arith)
            requires
                slice == n / threads,
                k < threads,
                threads > 0,
        ;
        assert(slice * k + slice <= n) by (nonlinear_arith)
            requires
                slice == n / threads,
                k < threads,
                threads > 0,
        ;
        let start = slice * k;
        let end = if k + 1 == threads {
            n
        } else {
            start + slice
        };
        ranges.push((start, end));
        k = k + 1;
    }
    assert forall|j: int| 0 <= j < threads implies (#[trigger] ranges@[j]).0 <= ranges@[j].1 by {
        let jj = j as nat;
        assert(slice * jj + slice <= n) by (nonlinear_arith)
            requires
                slice == n / threads,
                jj < threads,
                threads > 0,
        ;
    }
    assert forall|j: int| 0 < j < threads implies (#[trigger] ranges@[j]).0 == ranges@[j - 1].1 by {
        assert(slice * (j - 1) + slice == slice * j) by (nonlinear_arith);
    }
    ranges
}

/// One cache line's worth of words: eight copies of the line's number.
pub fn cache_lines(n: usize) -> (lines: Vec<[u64; 8]>)
    ensures
        lines@.len() == n,
        forall|i: int| 0 <= i < n ==> #[trigger] lines@[i]@ == Seq::new(8, |j: int| i as u64),
{
    let mut lines: Vec<[u64; 8]> = Vec::new();
    let mut i: usize = 0;
    while i < n
        invariant
            i <= n,
            lines@.len() == i,
            forall|k: int| 0 <= k < i ==> #[trigger] lines@[k]@ == Seq::new(8, |j: int| k as u64),
        decreases n - i,
    {
        let w = i as u64;
        let line = [w, w, w, w, w, w, w, w];
        assert(line@ =~= Seq::new(8, |j: int| i as u64));
        lines.push(line);
        i = i + 1;
    }
    lines
}

/// `rand::seq::SliceRandom::shuffle` with the thread's generator: the same
/// values in a random order. Which order is left unsaid: it is the
/// generator's. The first use of the thread's generator panics where the
/// operating system cannot seed it.
#[verifier::external_body]
fn shuffle_with_thread_rng<T>(values: &mut Vec<T>)
    ensures
        final(values)@.to_multiset() == old(values)@.to_multiset(),
{
    rand::seq::SliceRandom::shuffle(values.as_mut_slice(), &mut rand::thread_rng())
}

/// `0..n` in a random order.
pub fn random_order(n: usize) -> (order: Vec<usize>)
    ensures
        order@.to_multiset() == Seq::new(n as nat, |i: int| i as usize).to_multiset(),
{
    let mut order: Vec<usize> = Vec::new();
    let mut i: usize = 0;
    while i < n
        invariant
            i <= n,
            order@ == Seq::new(i as nat, |k: int| k as usize),
        decreases n - i,
    {
        order.push(i);
        assert(order@ =~= Seq::new((i + 1) as nat, |k: int| k as usize));
        i = i + 1;
    }
    shuffle_with_thread_rng(&mut order);
    order
}

/// The values in a random order.
pub fn shuffle_randomly(values: &mut Vec<u64>)
    ensures
        final(values)@.to_multiset() == old(values)@.to_multiset(),
{
    shuffle_with_thread_rng(values);
}

} // verus!
