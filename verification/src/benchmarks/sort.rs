//! The sort benchmark's work: random words, sorted in ascending order.
use vstd::prelude::*;

verus! {

/// `rand::random::<u64>()`: a word from the thread's generator. Nothing is
/// stated of its value, which is the generator's; the first use of the
/// thread's generator panics where the operating system cannot seed it.
#[verifier::external_body]
fn random_u64() -> u64 {
    rand::random::<u64>()
}

/// `n` random words.
pub fn random_words(n: usize) -> (v: Vec<u64>)
    ensures
        v@.len() == n,
{
    let mut v: Vec<u64> = Vec::new();
    let mut i: usize = 0;
    while i < n
        invariant
            i <= n,
            v@.len() == i,
        decreases n - i,
    {
        v.push(random_u64());
        i = i + 1;
    }
    v
}

/// Whether the samples are in ascending order.
pub open spec fn ascending(s: Seq<u64>) -> bool {
    forall|i: int, j: int| 0 <= i <= j < s.len() ==> s[i] <= s[j]
}

/// `slice::sort_unstable` on `u64`s: sorts in place in ascending order.
#[verifier::external_body]
fn sort_unstable_u64(v: &mut Vec<u64>)
    ensures
        ascending(final(v)@),
        final(v)@.to_multiset() == old(v)@.to_multiset(),
{
    v.sort_unstable();
}

/// The samples in ascending order.
pub fn sorted(samples: &[u64]) -> (out: Vec<u64>)
    ensures
        ascending(out@),
        out@.to_multiset() == samples@.to_multiset(),
{
    let mut out: Vec<u64> = Vec::new();
    let mut i: usize = 0;
    while i < samples.len()
        invariant
            i <= samples@.len(),
            out@ == samples@.take(i as int),
        decreases samples.len() - i,
    {
        out.push(samples[i]);
        i = i + 1;
    }
    assert(samples@.take(samples@.len() as int) =~= samples@);
    sort_unstable_u64(&mut out);
    out
}

} // verus!
