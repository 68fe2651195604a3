//! The latency sampler's decisions: its command line, its probes' settings,
//! the pointer-chasing table of the random-memory probe, and the arithmetic
//! on samples that involves no floating point.
use vstd::prelude::*;
use crate::benchmarks::manifest::str_eq;
pub use crate::benchmarks::sort::{sorted, ascending};
use crate::text::{
    chars_of, trim_chars, to_ascii_lowercase, ends_with, slice_chars, parse_usize, trim, lower_all,
    has_suffix, spec_parse_usize, IntErrorKind,
};

verus! {

/// The multiplier that a size suffix stands for, in the order in which the
/// suffixes are tried.
pub open spec fn size_suffix(k: int) -> (Seq<char>, nat) {
    if k == 0 {
        ("kib"@, 1024)
    } else if k == 1 {
        ("kb"@, 1024)
    } else if k == 2 {
        ("k"@, 1024)
    } else if k == 3 {
        ("mib"@, 1048576)
    } else if k == 4 {
        ("mb"@, 1048576)
    } else if k == 5 {
        ("m"@, 1048576)
    } else if k == 6 {
        ("gib"@, 1073741824)
    } else if k == 7 {
        ("gb"@, 1073741824)
    } else {
        ("g"@, 1073741824)
    }
}

/// The number part and the multiplier of a lower-cased size: the first
/// suffix from `k` on that ends `t` is cut off, and no suffix means bytes.
pub open spec fn split_size(t: Seq<char>, k: nat) -> (Seq<char>, nat)
    decreases 9 - k,
{
    if k >= 9 {
        (t, 1)
    } else if has_suffix(t, size_suffix(k as int).0) {
        (t.take(t.len() - size_suffix(k as int).0.len()), size_suffix(k as int).1)
    } else {
        split_size(t, k + 1)
    }
}

/// A size such as `64m`, `8k` or `1gib`: trimmed, lower-cased, an optional
/// suffix for KiB, MiB or GiB, and a decimal number; a size past `usize::MAX`
/// is refused as an overflow.
pub open spec fn spec_parse_size(input: Seq<char>) -> Result<usize, IntErrorKind> {
    let (number, mult) = split_size(lower_all(trim(input)), 0);
    match spec_parse_usize(number) {
        Ok(n) => if n * mult <= usize::MAX {
            Ok((n * mult) as usize)
        } else {
            Err(IntErrorKind::PosOverflow)
        },
        Err(e) => Err(e),
    }
}

fn suffix_entry(k: usize) -> (r: (&'static str, usize))
    requires
        k < 9,
    ensures
        r.0@ == size_suffix(k as int).0,
        r.1 == size_suffix(k as int).1,
{
    match k {
        0 => ("kib", 1024),
        1 => ("kb", 1024),
        2 => ("k", 1024),
        3 => ("mib", 1048576),
        4 => ("mb", 1048576),
        5 => ("m", 1048576),
        6 => ("gib", 1073741824),
        7 => ("gb", 1073741824),
        _ => ("g", 1073741824),
    }
}

/// Parses a size in bytes, with the suffixes k, kb, kib, m, mb, mib, g, gb
/// and gib in any case.
pub fn parse_size(input: &str) -> (r: Result<usize, IntErrorKind>)
    ensures
        r == spec_parse_size(input@),
{
    let cs = chars_of(input);
    parse_size_chars(cs.as_slice())
}

fn parse_size_chars(input: &[char]) -> (r: Result<usize, IntErrorKind>)
    ensures
        r == spec_parse_size(input@),
{
    let trimmed = trim_chars(input);
    let t = to_ascii_lowercase(trimmed.as_slice());
    let mut k: usize = 0;
    while k < 9
        invariant
            k <= 9,
            t@ == lower_all(trim(input@)),
            split_size(t@, 0) == split_size(t@, k as nat),
        decreases 9 - k,
    {
        let (suffix, mult) = suffix_entry(k);
        let sc = chars_of(suffix);
        if ends_with(t.as_slice(), sc.as_slice()) {
            let number = slice_chars(t.as_slice(), 0, t.len() - sc.len());
            assert(t@.subrange(0, t@.len() - sc@.len()) =~= t@.take(t@.len() - sc@.len()));
            return match parse_usize(number.as_slice()) {
                Ok(n) => match n.checked_mul(mult) {
                    Some(v) => Ok(v),
                    None => Err(IntErrorKind::PosOverflow),
                },
                Err(e) => Err(e),
            };
        }
        k = k + 1;
    }
    match parse_usize(t.as_slice()) {
        Ok(n) => Ok(n),
        Err(e) => Err(e),
    }
}

proof fn lemma_lower_keeps_whitespace(c: char)
    ensures
        crate::text::is_ws(crate::text::ascii_lower(c)) == crate::text::is_ws(c),
{
}

proof fn lemma_trim_start_lower(s: Seq<char>)
    ensures
        crate::text::trim_start(lower_all(s)) == lower_all(crate::text::trim_start(s)),
    decreases s.len(),
{
    if s.len() > 0 {
        lemma_lower_keeps_whitespace(s[0]);
        assert(lower_all(s).drop_first() =~= lower_all(s.drop_first()));
        lemma_trim_start_lower(s.drop_first());
    }
}

proof fn lemma_trim_end_lower(s: Seq<char>)
    ensures
        crate::text::trim_end(lower_all(s)) == lower_all(crate::text::trim_end(s)),
    decreases s.len(),
{
    if s.len() > 0 {
        lemma_lower_keeps_whitespace(s.last());
        assert(lower_all(s).drop_last() =~= lower_all(s.drop_last()));
        lemma_trim_end_lower(s.drop_last());
    }
}

/// Sizes are read without regard to case: an input and its lower-cased form
/// give the same size, or the same refusal.
pub proof fn lemma_size_ignores_case(input: Seq<char>)
    ensures
        spec_parse_size(input) == spec_parse_size(lower_all(input)),
{
    lemma_trim_start_lower(input);
    lemma_trim_end_lower(crate::text::trim_start(input));
    let t = trim(input);
    assert(trim(lower_all(input)) == lower_all(t));
    assert(lower_all(lower_all(t)) =~= lower_all(t));
}

/// One step of the xorshift64 generator (shifts 13, 7, 17).
pub open spec fn spec_xorshift64(state: u64) -> u64 {
    let a = state ^ (state << 13u64);
    let b = a ^ (a >> 7u64);
    b ^ (b << 17u64)
}

pub fn xorshift64(state: u64) -> (next: u64)
    ensures
        next == spec_xorshift64(state),
{
    let mut s: u64 = state;
    s = s ^ (s << 13u64);
    s = s ^ (s >> 7u64);
    s = s ^ (s << 17u64);
    s
}

/// The seed of the probe's shuffle, fixed so that runs are comparable.
pub open spec fn shuffle_seed() -> u64 {
    0x9E37_79B9_7F4A_7C15u64
}

/// `s` with the entries at `i` and `j` exchanged.
pub open spec fn swap(s: Seq<usize>, i: int, j: int) -> Seq<usize> {
    s.update(i, s[j]).update(j, s[i])
}

/// Fisher-Yates from position `i` down to 1, each position exchanged with one
/// that the xorshift generator picks from those not above it.
pub open spec fn shuffle_from(s: Seq<usize>, i: nat, state: u64) -> Seq<usize>
    decreases i,
{
    if i == 0 {
        s
    } else {
        let next = spec_xorshift64(state);
        let j = ((next as usize) as nat % (i + 1)) as int;
        shuffle_from(swap(s, i as int, j), (i - 1) as nat, next)
    }
}

/// The probe's deterministic shuffle of `s`.
pub open spec fn spec_shuffle(s: Seq<usize>) -> Seq<usize> {
    if s.len() <= 1 {
        s
    } else {
        shuffle_from(s, (s.len() - 1) as nat, shuffle_seed())
    }
}

/// Shuffles the values in place, deterministically, with a fixed seed.
pub fn shuffle(values: &mut Vec<usize>)
    ensures
        final(values)@ == spec_shuffle(old(values)@),
{
    let ghost orig = values@;
    if values.len() <= 1 {
        return;
    }
    let mut state: u64 = 0x9E37_79B9_7F4A_7C15u64;
    let mut i: usize = values.len() - 1;
    while i > 0
        invariant
            values@.len() == orig.len(),
            i < values@.len(),
            orig.len() > 1,
            spec_shuffle(orig) == shuffle_from(values@, i as nat, state),
        decreases i,
    {
        state = xorshift64(state);
        assert(i < values.len());
        let j: usize = (state as usize) % (i + 1);
        let ghost prev = values@;
        let a = values[i];
        let b = values[j];
        values.set(i, b);
        values.set(j, a);
        assert(values@ =~= swap(prev, i as int, j as int));
        i = i - 1;
    }
}

/// Whether the value `v` stands somewhere in `s`.
pub open spec fn occurs(s: Seq<usize>, v: int) -> bool {
    exists|k: int| 0 <= k < s.len() && s[k] as int == v
}

/// Whether `s` holds each of `0..s.len()` exactly once.
pub open spec fn is_permutation(s: Seq<usize>) -> bool {
    &&& forall|k: int| 0 <= k < s.len() ==> #[trigger] s[k] < s.len()
    &&& forall|a: int, b: int| 0 <= a < b < s.len() ==> #[trigger] s[a] != #[trigger] s[b]
    &&& forall|v: int| 0 <= v < s.len() ==> #[trigger] occurs(s, v)
}

/// `0, 1, ..., n - 1`.
pub open spec fn iota(n: nat) -> Seq<usize> {
    Seq::new(n, |k: int| k as usize)
}

proof fn lemma_iota_permutation(n: nat)
    requires
        n <= usize::MAX + 1,
    ensures
        is_permutation(iota(n)),
{
    let s = iota(n);
    assert forall|v: int| 0 <= v < s.len() implies #[trigger] occurs(s, v) by {
        assert(s[v] as int == v);
    }
}

proof fn lemma_swap_permutation(s: Seq<usize>, i: int, j: int)
    requires
        is_permutation(s),
        0 <= i < s.len(),
        0 <= j < s.len(),
    ensures
        is_permutation(swap(s, i, j)),
{
    let t = swap(s, i, j);
    assert forall|k: int| 0 <= k < t.len() implies #[trigger] t[k] < t.len() by {
        if k == j {
        } else if k == i {
        } else {
            assert(t[k] == s[k]);
        }
    }
    assert forall|a: int, b: int| 0 <= a < b < t.len() implies #[trigger] t[a] != #[trigger] t[b] by {
        let sa = if a == j { i } else if a == i { j } else { a };
        let sb = if b == j { i } else if b == i { j } else { b };
        assert(t[a] == s[sa]);
        assert(t[b] == s[sb]);
        if sa < sb {
            assert(s[sa] != s[sb]);
        } else {
            assert(s[sb] != s[sa]);
        }
    }
    assert forall|v: int| 0 <= v < t.len() implies #[trigger] occurs(t, v) by {
        assert(occurs(s, v));
        let k = choose|k: int| 0 <= k < s.len() && s[k] as int == v;
        let tk = if k == i { j } else if k == j { i } else { k };
        assert(t[tk] == s[k]);
    }
}

proof fn lemma_shuffle_from_permutation(s: Seq<usize>, i: nat, state: u64)
    requires
        is_permutation(s),
        i < s.len(),
    ensures
        is_permutation(shuffle_from(s, i, state)),
        shuffle_from(s, i, state).len() == s.len(),
    decreases i,
{
    if i > 0 {
        let next = spec_xorshift64(state);
        let j = ((next as usize) as nat % (i + 1)) as int;
        lemma_swap_permutation(s, i as int, j);
        lemma_shuffle_from_permutation(swap(s, i as int, j), (i - 1) as nat, next);
    }
}

/// The shuffle of a permutation is a permutation.
pub proof fn lemma_shuffle_permutation(s: Seq<usize>)
    requires
        is_permutation(s),
    ensures
        is_permutation(spec_shuffle(s)),
        spec_shuffle(s).len() == s.len(),
{
    if s.len() > 1 {
        lemma_shuffle_from_permutation(s, (s.len() - 1) as nat, shuffle_seed());
    }
}

/// Where pointer chasing through `table` from `start` is after `k` steps.
pub open spec fn chase(table: Seq<usize>, start: usize, k: nat) -> usize
    decreases k,
{
    if k == 0 {
        start
    } else {
        table[chase(table, start, (k - 1) as nat) as int]
    }
}

/// Whether `table` sends each entry of `order` to the next one, and the last
/// back to the first.
pub open spec fn links_in_order(table: Seq<usize>, order: Seq<usize>) -> bool {
    &&& table.len() == order.len()
    &&& order.len() > 0
    &&& forall|k: int| 0 <= k < order.len() ==> table[#[trigger] order[k] as int] == order[(k + 1)
        % (order.len() as int)]
}

/// Pointer chasing through a table that links a permutation in order follows
/// the permutation: after `k` steps from its first entry it stands at entry
/// `k mod n`, so within `n` steps it visits every slot once and is back.
pub proof fn lemma_chase_follows_order(table: Seq<usize>, order: Seq<usize>, k: nat)
    requires
        is_permutation(order),
        links_in_order(table, order),
    ensures
        chase(table, order[0], k) == order[(k as int) % (order.len() as int)],
    decreases k,
{
    let n = order.len() as int;
    if k > 0 {
        lemma_chase_follows_order(table, order, (k - 1) as nat);
        let p = (k - 1) as int % n;
        assert(0 <= p < n);
        assert(table[order[p] as int] == order[(p + 1) % n]);
        assert((p + 1) % n == (k as int) % n) by {
            let q = (k - 1) as int / n;
            vstd::arithmetic::div_mod::lemma_fundamental_div_mod(k - 1, n);
            assert(k as int == n * q + (p + 1));
            vstd::arithmetic::div_mod::lemma_mod_multiples_vanish(q, p + 1, n);
        }
    } else {
        vstd::arithmetic::div_mod::lemma_small_mod(0, n as nat);
    }
}

/// Every slot of a table that links a permutation in order is reached from
/// the permutation's first entry in fewer steps than there are slots.
pub proof fn lemma_chase_visits_every_slot(table: Seq<usize>, order: Seq<usize>, v: int)
    requires
        is_permutation(order),
        links_in_order(table, order),
        0 <= v < order.len(),
    ensures
        exists|k: nat| k < order.len() && chase(table, order[0], k) as int == v,
{
    assert(occurs(order, v));
    let k = choose|k: int| 0 <= k < order.len() && order[k] as int == v;
    lemma_chase_follows_order(table, order, k as nat);
    vstd::arithmetic::div_mod::lemma_small_mod(k as nat, order.len());
    assert(chase(table, order[0], k as nat) as int == v);
}

/// Pointer chasing through a table that links a permutation in order, from
/// the permutation's first entry (where the probe starts), is back at its
/// start after as many steps as there are slots, and at no fewer steps.
pub proof fn lemma_chase_cycle_length(table: Seq<usize>, order: Seq<usize>, k: nat)
    requires
        is_permutation(order),
        links_in_order(table, order),
    ensures
        chase(table, order[0], order.len()) == order[0],
        0 < k < order.len() ==> chase(table, order[0], k) != order[0],
{
    let n = order.len();
    lemma_chase_follows_order(table, order, n);
    vstd::arithmetic::div_mod::lemma_mod_self_0(n as int);
    if 0 < k < n {
        lemma_chase_follows_order(table, order, k);
        vstd::arithmetic::div_mod::lemma_small_mod(k, n);
        assert(order[0] != order[k as int]);
    }
}

/// `0, 1, ..., n - 1` as a vector.
fn iota_vec(n: usize) -> (v: Vec<usize>)
    ensures
        v@ == iota(n as nat),
{
    let mut v: Vec<usize> = Vec::new();
    let mut i: usize = 0;
    while i < n
        invariant
            i <= n,
            v@ == iota(i as nat),
        decreases n - i,
    {
        v.push(i);
        assert(v@ =~= iota((i + 1) as nat));
        i = i + 1;
    }
    v
}

/// The table that sends each entry of the permutation `order` to the next
/// one, and the last back to the first.
#[verifier::spinoff_prover]
fn link_cycle(order: &Vec<usize>) -> (next: Vec<usize>)
    requires
        is_permutation(order@),
        order@.len() >= 1,
    ensures
        links_in_order(next@, order@),
        forall|k: int| 0 <= k < next@.len() ==> #[trigger] next@[k] < next@.len(),
{
    let n = order.len();
    let mut next: Vec<usize> = Vec::new();
    let mut z: usize = 0;
    while z < n
        invariant
            z <= n,
            n == order@.len(),
            next@.len() == z,
        decreases n - z,
    {
        next.push(0);
        z = z + 1;
    }
    let mut w: usize = 0;
    while w + 1 < n
        invariant
            w + 1 <= n,
            n == order@.len(),
            is_permutation(order@),
            next@.len() == n,
            forall|k: int| 0 <= k < w ==> next@[#[trigger] order@[k] as int] == order@[k + 1],
        decreases n - w,
    {
        let from = order[w];
        let to = order[w + 1];
        let ghost prev = next@;
        next.set(from, to);
        assert forall|k: int| 0 <= k < w + 1 implies next@[#[trigger] order@[k] as int] == order@[k
            + 1] by {
            if k < w {
                assert(order@[k] != order@[w as int]);
                assert(next@[order@[k] as int] == prev[order@[k] as int]);
            }
        }
        w = w + 1;
    }
    let last = order[n - 1];
    let first = order[0];
    let ghost prev = next@;
    next.set(last, first);
    proof {
        let m = n as int;
        assert forall|k: int| 0 <= k < m implies next@[#[trigger] order@[k] as int] == order@[(k + 1)
            % m] by {
            if k < m - 1 {
                assert(order@[k] != order@[m - 1]);
                assert(next@[order@[k] as int] == prev[order@[k] as int]);
                vstd::arithmetic::div_mod::lemma_small_mod((k + 1) as nat, m as nat);
            } else {
                vstd::arithmetic::div_mod::lemma_mod_self_0(m);
            }
        }
        lemma_linked_entries_in_table(next@, order@);
    }
    next
}

/// A table that links a permutation in order holds only indices of its own
/// slots.
proof fn lemma_linked_entries_in_table(table: Seq<usize>, order: Seq<usize>)
    requires
        is_permutation(order),
        links_in_order(table, order),
    ensures
        forall|k: int| 0 <= k < table.len() ==> #[trigger] table[k] < table.len(),
{
    let m = order.len() as int;
    assert forall|k: int| 0 <= k < table.len() implies #[trigger] table[k] < table.len() by {
        assert(occurs(order, k));
        let j = choose|j: int| 0 <= j < order.len() && order[j] as int == k;
        assert(table[order[j] as int] == order[(j + 1) % m]);
    }
}

/// Why a probe could not be set up.
#[derive(Debug, Clone)]
pub enum ProbeError {
    /// No probe has this name.
    UnknownProbe(String),
    /// `memory_random` was given a size that holds fewer than two entries.
    MemorySizeTooSmall,
    /// `tcp_echo` was given a payload of zero bytes.
    TcpSizeZero,
}

/// Dependent random loads: each load reads the index of the next one, along a
/// single cycle through all the entries in shuffled order.
pub struct MemoryRandomProbe {
    pages: Vec<usize>,
    /// The index that the next load reads, and how many loads have run.
    cursor: (usize, Ghost<nat>),
    /// The index the probe started at.
    first: Ghost<usize>,
    /// How many loads have run, modulo 2^64.
    tally: Ghost<u64>,
}

impl MemoryRandomProbe {
    #[verifier::type_invariant]
    spec fn well_formed(self) -> bool {
        &&& self.pages@.len() >= 2
        &&& self.cursor.0 < self.pages@.len()
        &&& forall|k: int| 0 <= k < self.pages@.len() ==> #[trigger] self.pages@[k] < self.pages@.len()
        &&& self.cursor.0 == chase(self.pages@, self.first@, self.cursor.1@)
    }

    /// The table of next indices.
    pub closed spec fn table(self) -> Seq<usize> {
        self.pages@
    }

    /// The index that the next load reads.
    pub closed spec fn position(self) -> usize {
        self.cursor.0
    }

    /// The index the probe started at.
    pub closed spec fn start(self) -> usize {
        self.first@
    }

    /// How many loads the probe has run.
    pub closed spec fn loads(self) -> nat {
        self.cursor.1@
    }

    /// How many loads the probe has run, modulo 2^64.
    pub closed spec fn tally(self) -> u64 {
        self.tally@
    }

    /// The number of entries a size in bytes holds.
    pub open spec fn entries_for(size_bytes: usize) -> nat {
        (size_bytes as nat) / vstd::layout::size_of::<usize>()
    }

    /// A probe over as many `usize` entries as `size_bytes` holds, linked in
    /// the order of the fixed shuffle of `0..entries`, at the first entry of
    /// that order and with no loads run.
    #[verifier::spinoff_prover]
    pub fn new(size_bytes: usize) -> (r: Result<Self, ProbeError>)
        ensures
            r is Err <==> Self::entries_for(size_bytes) < 2,
            r matches Err(e) ==> e == ProbeError::MemorySizeTooSmall,
            r matches Ok(p) ==> {
                let order = spec_shuffle(iota(Self::entries_for(size_bytes)));
                &&& p.table().len() == Self::entries_for(size_bytes)
                &&& is_permutation(order)
                &&& links_in_order(p.table(), order)
                &&& p.position() == order[0]
                &&& p.start() == order[0]
                &&& p.loads() == 0
            &&& p.tally() == 0
            },
    {
        broadcast use vstd::layout::layout_of_primitives;
        let word = core::mem::size_of::<usize>();
        assert(word > 0);
        let entries = size_bytes / word;
        if entries < 2 {
            return Err(ProbeError::MemorySizeTooSmall);
        }
        let mut pages = iota_vec(entries);
        let ghost base = pages@;
        proof {
            lemma_iota_permutation(entries as nat);
        }
        shuffle(&mut pages);
        proof {
            lemma_shuffle_permutation(base);
        }
        let first = pages[0];
        let next = link_cycle(&pages);
        Ok(
            MemoryRandomProbe {
                pages: next,
                cursor: (first, Ghost(0)),
                first: Ghost(first),
                tally: Ghost(0),
            },
        )
    }

    /// One dependent load: moves to the index that the current entry holds,
    /// and returns it. After `k` loads the probe stands where chasing the
    /// table `k` steps from its start leads.
    pub fn step(&mut self) -> (i: usize)
        ensures
            final(self).table() == old(self).table(),
            final(self).start() == old(self).start(),
            final(self).loads() == old(self).loads() + 1,
            final(self).tally() == old(self).tally().wrapping_add(1),
            final(self).position() == old(self).table()[old(self).position() as int],
            final(self).position() == chase(final(self).table(), final(self).start(), final(self).loads()),
            i == final(self).position(),
    {
        proof {
            use_type_invariant(&*self);
        }
        let next = self.pages[self.cursor.0];
        self.cursor = (next, Ghost(self.cursor.1@ + 1));
        self.tally = Ghost(self.tally@.wrapping_add(1));
        next
    }
}

impl Probe for MemoryRandomProbe {
    closed spec fn runs(&self) -> u64 {
        self.tally()
    }

    fn name(&self) -> (n: &'static str)
        ensures
            n@ == kind_name(ProbeKind::MemoryRandom),
    {
        ProbeKind::MemoryRandom.name()
    }

    fn default_batch(&self) -> (b: usize)
        ensures
            b == kind_batch(ProbeKind::MemoryRandom),
    {
        ProbeKind::MemoryRandom.default_batch()
    }

    /// One dependent load.
    fn run_once(&mut self)
        ensures
            final(self).table() == old(self).table(),
            final(self).start() == old(self).start(),
            final(self).loads() == old(self).loads() + 1,
            final(self).tally() == old(self).tally().wrapping_add(1),
            final(self).position() == old(self).table()[old(self).position() as int],
            final(self).position() == chase(final(self).table(), final(self).start(), final(self).loads()),
    {
        self.step();
    }
}

/// The sampler's settings.
#[derive(Debug, Clone)]
pub struct Config {
    pub probe: String,
    pub samples: usize,
    pub warmup_samples: usize,
    pub batch: Option<usize>,
    pub buckets: usize,
    pub csv: Option<String>,
    pub size_bytes: Option<usize>,
}

/// A `Config` with its strings taken as characters.
pub struct ConfigView {
    pub probe: Seq<char>,
    pub samples: usize,
    pub warmup_samples: usize,
    pub batch: Option<usize>,
    pub buckets: usize,
    pub csv: Option<Seq<char>>,
    pub size_bytes: Option<usize>,
}

impl View for Config {
    type V = ConfigView;

    open spec fn view(&self) -> ConfigView {
        ConfigView {
            probe: self.probe@,
            samples: self.samples,
            warmup_samples: self.warmup_samples,
            batch: self.batch,
            buckets: self.buckets,
            csv: match self.csv {
                Some(c) => Some(c@),
                None => None,
            },
            size_bytes: self.size_bytes,
        }
    }
}

/// The settings before any argument: the `syscall_getpid` probe, 100000
/// samples after 10000 warmup samples, the probe's own batch, 32 buckets, no
/// CSV file and the probe's own size.
pub open spec fn default_config() -> ConfigView {
    ConfigView {
        probe: "syscall_getpid"@,
        samples: 100_000,
        warmup_samples: 10_000,
        batch: None,
        buckets: 32,
        csv: None,
        size_bytes: None,
    }
}

impl Default for Config {
    fn default() -> (c: Self)
        ensures
            c@ == default_config(),
    {
        Config {
            probe: "syscall_getpid".to_owned(),
            samples: 100_000,
            warmup_samples: 10_000,
            batch: None,
            buckets: 32,
            csv: None,
            size_bytes: None,
        }
    }
}

/// A setting that an option with a value changes.
#[derive(Debug, Clone, Copy, PartialEq, Eq, Structural)]
pub enum Setting {
    Probe,
    Samples,
    WarmupSamples,
    Batch,
    Buckets,
    Csv,
    Size,
}

/// The option that takes its value from the next argument.
pub open spec fn setting_flag(s: Setting) -> Seq<char> {
    match s {
        Setting::Probe => "--probe"@,
        Setting::Samples => "--samples"@,
        Setting::WarmupSamples => "--warmup-samples"@,
        Setting::Batch => "--batch"@,
        Setting::Buckets => "--buckets"@,
        Setting::Csv => "--csv"@,
        Setting::Size => "--size"@,
    }
}

/// The prefix of the option that carries its value after `=`.
pub open spec fn setting_prefix(s: Setting) -> Seq<char> {
    match s {
        Setting::Probe => "--probe="@,
        Setting::Samples => "--samples="@,
        Setting::WarmupSamples => "--warmup-samples="@,
        Setting::Batch => "--batch="@,
        Setting::Buckets => "--buckets="@,
        Setting::Csv => "--csv="@,
        Setting::Size => "--size="@,
    }
}

impl Setting {
    /// The option that takes this setting's value from the next argument.
    pub fn flag(&self) -> (f: &'static str)
        ensures
            f@ == setting_flag(*self),
    {
        match self {
            Setting::Probe => "--probe",
            Setting::Samples => "--samples",
            Setting::WarmupSamples => "--warmup-samples",
            Setting::Batch => "--batch",
            Setting::Buckets => "--buckets",
            Setting::Csv => "--csv",
            Setting::Size => "--size",
        }
    }
}

pub open spec fn setting_at(k: int) -> Setting {
    if k == 0 {
        Setting::Probe
    } else if k == 1 {
        Setting::Samples
    } else if k == 2 {
        Setting::WarmupSamples
    } else if k == 3 {
        Setting::Batch
    } else if k == 4 {
        Setting::Buckets
    } else if k == 5 {
        Setting::Csv
    } else {
        Setting::Size
    }
}

/// The first setting from `k` on whose option is exactly `a`.
pub open spec fn exact_setting_from(a: Seq<char>, k: nat) -> Option<Setting>
    decreases 7 - k,
{
    if k >= 7 {
        None
    } else if a == setting_flag(setting_at(k as int)) {
        Some(setting_at(k as int))
    } else {
        exact_setting_from(a, k + 1)
    }
}

/// The first setting from `k` on whose `=` prefix begins `a`.
pub open spec fn prefixed_setting_from(a: Seq<char>, k: nat) -> Option<Setting>
    decreases 7 - k,
{
    if k >= 7 {
        None
    } else if crate::text::has_prefix(a, setting_prefix(setting_at(k as int))) {
        Some(setting_at(k as int))
    } else {
        prefixed_setting_from(a, k + 1)
    }
}

/// The settings after one setting takes the value `v`, or why `v` is no
/// valid value.
pub open spec fn apply_setting(c: ConfigView, s: Setting, v: Seq<char>) -> Result<ConfigView, IntErrorKind> {
    match s {
        Setting::Probe => Ok(ConfigView { probe: v, ..c }),
        Setting::Samples => match spec_parse_usize(v) {
            Ok(n) => Ok(ConfigView { samples: n, ..c }),
            Err(e) => Err(e),
        },
        Setting::WarmupSamples => match spec_parse_usize(v) {
            Ok(n) => Ok(ConfigView { warmup_samples: n, ..c }),
            Err(e) => Err(e),
        },
        Setting::Batch => match spec_parse_usize(v) {
            Ok(n) => Ok(ConfigView { batch: Some(n), ..c }),
            Err(e) => Err(e),
        },
        Setting::Buckets => match spec_parse_usize(v) {
            Ok(n) => Ok(ConfigView { buckets: n, ..c }),
            Err(e) => Err(e),
        },
        Setting::Csv => Ok(ConfigView { csv: Some(v), ..c }),
        Setting::Size => match spec_parse_size(v) {
            Ok(n) => Ok(ConfigView { size_bytes: Some(n), ..c }),
            Err(e) => Err(e),
        },
    }
}

/// What the sampler's arguments ask for.
#[derive(Debug, Clone)]
pub enum ParsedArgs {
    /// Print the usage and stop.
    Help,
    /// Print the probes and stop.
    List,
    /// Sample with these settings.
    Run(Config),
}

/// Why the sampler's arguments were refused.
#[derive(Debug, Clone)]
pub enum ArgError {
    /// An option that takes the next argument came last.
    MissingValue(Setting),
    /// A value that should be a number or a size is not one.
    InvalidNumber(IntErrorKind),
    /// An argument that is no option of the sampler.
    UnknownArgument(String),
    ZeroSamples,
    ZeroBuckets,
    ZeroBatch,
}

/// The outcome of the arguments, strings taken as characters.
pub enum ArgsOutcome {
    Help,
    List,
    Run(ConfigView),
    MissingValue(Setting),
    InvalidNumber(IntErrorKind),
    UnknownArgument(Seq<char>),
    ZeroSamples,
    ZeroBuckets,
    ZeroBatch,
}

pub open spec fn outcome_of(r: Result<ParsedArgs, ArgError>) -> ArgsOutcome {
    match r {
        Ok(ParsedArgs::Help) => ArgsOutcome::Help,
        Ok(ParsedArgs::List) => ArgsOutcome::List,
        Ok(ParsedArgs::Run(c)) => ArgsOutcome::Run(c@),
        Err(ArgError::MissingValue(s)) => ArgsOutcome::MissingValue(s),
        Err(ArgError::InvalidNumber(k)) => ArgsOutcome::InvalidNumber(k),
        Err(ArgError::UnknownArgument(a)) => ArgsOutcome::UnknownArgument(a@),
        Err(ArgError::ZeroSamples) => ArgsOutcome::ZeroSamples,
        Err(ArgError::ZeroBuckets) => ArgsOutcome::ZeroBuckets,
        Err(ArgError::ZeroBatch) => ArgsOutcome::ZeroBatch,
    }
}

/// The checks once every argument is read.
pub open spec fn finish_config(c: ConfigView) -> ArgsOutcome {
    if c.samples == 0 {
        ArgsOutcome::ZeroSamples
    } else if c.buckets == 0 {
        ArgsOutcome::ZeroBuckets
    } else if c.batch == Some(0usize) {
        ArgsOutcome::ZeroBatch
    } else {
        ArgsOutcome::Run(c)
    }
}

/// Reading the arguments from position `i` on, with the settings `c` so far.
pub open spec fn parse_from(args: Seq<Seq<char>>, i: nat, c: ConfigView) -> ArgsOutcome
    decreases args.len() - i,
{
    if i >= args.len() {
        finish_config(c)
    } else {
        let a = args[i as int];
        if a == "-h"@ || a == "--help"@ {
            ArgsOutcome::Help
        } else if a == "--list"@ {
            ArgsOutcome::List
        } else if let Some(s) = exact_setting_from(a, 0) {
            if i + 1 >= args.len() {
                ArgsOutcome::MissingValue(s)
            } else {
                match apply_setting(c, s, args[i + 1 as int]) {
                    Ok(c2) => parse_from(args, i + 2, c2),
                    Err(e) => ArgsOutcome::InvalidNumber(e),
                }
            }
        } else if let Some(s) = prefixed_setting_from(a, 0) {
            match apply_setting(c, s, a.skip(setting_prefix(s).len() as int)) {
                Ok(c2) => parse_from(args, i + 1, c2),
                Err(e) => ArgsOutcome::InvalidNumber(e),
            }
        } else {
            ArgsOutcome::UnknownArgument(a)
        }
    }
}

proof fn lemma_parse_from_same_rest(
    x: Seq<Seq<char>>,
    i: nat,
    y: Seq<Seq<char>>,
    j: nat,
    c: ConfigView,
)
    requires
        i <= x.len(),
        j <= y.len(),
        x.skip(i as int) == y.skip(j as int),
    ensures
        parse_from(x, i, c) == parse_from(y, j, c),
    decreases x.len() - i,
{
    assert(x.skip(i as int).len() == x.len() - i);
    assert(y.skip(j as int).len() == y.len() - j);
    assert(x.len() - i == y.len() - j);
    if i < x.len() {
        assert(x[i as int] == x.skip(i as int)[0]);
        assert(y[j as int] == y.skip(j as int)[0]);
        if i + 1 < x.len() {
            assert(x[i + 1 as int] == x.skip(i as int)[1]);
            assert(y[j + 1 as int] == y.skip(j as int)[1]);
            assert(x.skip(i + 2 as int) =~= x.skip(i as int).skip(2));
            assert(y.skip(j + 2 as int) =~= y.skip(j as int).skip(2));
        }
        assert(x.skip(i + 1 as int) =~= x.skip(i as int).skip(1));
        assert(y.skip(j + 1 as int) =~= y.skip(j as int).skip(1));
        let a = x[i as int];
        if a == "-h"@ || a == "--help"@ || a == "--list"@ {
        } else if let Some(st) = exact_setting_from(a, 0) {
            if i + 1 < x.len() {
                if let Ok(c2) = apply_setting(c, st, x[i + 1 as int]) {
                    if i + 2 <= x.len() {
                        lemma_parse_from_same_rest(x, i + 2, y, j + 2, c2);
                    }
                }
            }
        } else if let Some(st) = prefixed_setting_from(a, 0) {
            if let Ok(c2) = apply_setting(c, st, a.skip(setting_prefix(st).len() as int)) {
                lemma_parse_from_same_rest(x, i + 1, y, j + 1, c2);
            }
        }
    }
}

/// An option given as `--name VALUE` means the same as `--name=VALUE`,
/// whatever the settings so far and the arguments after it.
pub proof fn lemma_option_forms_agree(s: Setting, v: Seq<char>, rest: Seq<Seq<char>>, c: ConfigView)
    ensures
        parse_from(seq![setting_flag(s), v] + rest, 0, c) == parse_from(
            seq![setting_prefix(s) + v] + rest,
            0,
            c,
        ),
{
    let x = seq![setting_flag(s), v] + rest;
    let a = setting_prefix(s) + v;
    let y = seq![a] + rest;
    assert(x[0] == setting_flag(s));
    assert(x[1] == v);
    assert(y[0] == a);
    lemma_flag_is_exact(s);
    lemma_prefixed_form(s, v);
    assert(a.skip(setting_prefix(s).len() as int) =~= v);
    assert(x.skip(2) =~= rest);
    assert(y.skip(1) =~= rest);
    match apply_setting(c, s, v) {
        Ok(c2) => {
            lemma_parse_from_same_rest(x, 2, y, 1, c2);
        },
        Err(_) => {},
    }
}

/// Where a setting stands in the order in which options are tried.
pub open spec fn setting_index(s: Setting) -> int {
    match s {
        Setting::Probe => 0,
        Setting::Samples => 1,
        Setting::WarmupSamples => 2,
        Setting::Batch => 3,
        Setting::Buckets => 4,
        Setting::Csv => 5,
        Setting::Size => 6,
    }
}

/// The option spellings: each option is at least five characters long, its
/// `=` form is the option and `=`, and the third and fourth characters tell
/// the settings apart.
proof fn lemma_spellings(s: Setting, t: Setting)
    ensures
        setting_flag(s).len() >= 5,
        setting_prefix(s) == setting_flag(s).push('='),
        setting_at(setting_index(s)) == s,
        s != t ==> setting_flag(s)[2] != setting_flag(t)[2] || setting_flag(s)[3] != setting_flag(
            t,
        )[3],
        setting_flag(s)[2] != 'h' && setting_flag(s)[2] != 'l',
{
    reveal_strlit("--probe");
    reveal_strlit("--samples");
    reveal_strlit("--warmup-samples");
    reveal_strlit("--batch");
    reveal_strlit("--buckets");
    reveal_strlit("--csv");
    reveal_strlit("--size");
    reveal_strlit("--probe=");
    reveal_strlit("--samples=");
    reveal_strlit("--warmup-samples=");
    reveal_strlit("--batch=");
    reveal_strlit("--buckets=");
    reveal_strlit("--csv=");
    reveal_strlit("--size=");
    assert(setting_prefix(s) =~= setting_flag(s).push('='));
}

proof fn lemma_flag_is_exact_from(s: Setting, k: nat)
    requires
        k <= setting_index(s),
    ensures
        exact_setting_from(setting_flag(s), k) == Some(s),
    decreases 7 - k,
{
    lemma_spellings(s, setting_at(k as int));
    if k < setting_index(s) {
        assert(setting_at(k as int) != s);
        lemma_flag_is_exact_from(s, k + 1);
    }
}

proof fn lemma_flag_is_exact(s: Setting)
    ensures
        exact_setting_from(setting_flag(s), 0) == Some(s),
        setting_flag(s) != "-h"@,
        setting_flag(s) != "--help"@,
        setting_flag(s) != "--list"@,
{
    reveal_strlit("-h");
    reveal_strlit("--help");
    reveal_strlit("--list");
    lemma_spellings(s, s);
    lemma_flag_is_exact_from(s, 0);
    assert(setting_flag(s).len() != "-h"@.len());
    assert(setting_flag(s)[2] != "--help"@[2]);
    assert(setting_flag(s)[2] != "--list"@[2]);
}

proof fn lemma_no_exact_from(s: Setting, v: Seq<char>, k: nat)
    ensures
        exact_setting_from(setting_prefix(s) + v, k) is None,
    decreases 7 - k,
{
    if k < 7 {
        let a = setting_prefix(s) + v;
        let t = setting_at(k as int);
        lemma_spellings(s, t);
        lemma_spellings(t, s);
        if t == s {
            assert(a.len() != setting_flag(t).len());
        } else {
            assert(a[2] == setting_flag(s)[2] && a[3] == setting_flag(s)[3]);
            if setting_flag(s)[2] != setting_flag(t)[2] {
                assert(a[2] != setting_flag(t)[2]);
            } else {
                assert(a[3] != setting_flag(t)[3]);
            }
        }
        lemma_no_exact_from(s, v, k + 1);
    }
}

proof fn lemma_prefixed_from(s: Setting, v: Seq<char>, k: nat)
    requires
        k <= setting_index(s),
    ensures
        prefixed_setting_from(setting_prefix(s) + v, k) == Some(s),
    decreases 7 - k,
{
    let a = setting_prefix(s) + v;
    let t = setting_at(k as int);
    lemma_spellings(s, t);
    lemma_spellings(t, s);
    if t == s {
        assert(a.take(setting_prefix(s).len() as int) =~= setting_prefix(s));
    } else {
        let p = setting_prefix(t);
        assert(a[2] == setting_flag(s)[2] && a[3] == setting_flag(s)[3]);
        if crate::text::has_prefix(a, p) {
            assert(a.take(p.len() as int)[2] == p[2]);
            assert(a.take(p.len() as int)[3] == p[3]);
        }
        lemma_prefixed_from(s, v, k + 1);
    }
}

proof fn lemma_prefixed_form(s: Setting, v: Seq<char>)
    ensures
        exact_setting_from(setting_prefix(s) + v, 0) is None,
        prefixed_setting_from(setting_prefix(s) + v, 0) == Some(s),
        setting_prefix(s) + v != "-h"@,
        setting_prefix(s) + v != "--help"@,
        setting_prefix(s) + v != "--list"@,
{
    reveal_strlit("-h");
    reveal_strlit("--help");
    reveal_strlit("--list");
    let a = setting_prefix(s) + v;
    lemma_spellings(s, s);
    lemma_no_exact_from(s, v, 0);
    lemma_prefixed_from(s, v, 0);
    assert(a.len() != "-h"@.len());
    assert(a[2] != "--help"@[2]);
    assert(a[2] != "--list"@[2]);
}

/// The strings as character sequences.
pub open spec fn arg_views(args: Seq<String>) -> Seq<Seq<char>> {
    args.map_values(|a: String| a@)
}

fn setting_entry(k: usize) -> (r: (Setting, &'static str, &'static str))
    requires
        k < 7,
    ensures
        r.0 == setting_at(k as int),
        r.1@ == setting_flag(r.0),
        r.2@ == setting_prefix(r.0),
{
    match k {
        0 => (Setting::Probe, "--probe", "--probe="),
        1 => (Setting::Samples, "--samples", "--samples="),
        2 => (Setting::WarmupSamples, "--warmup-samples", "--warmup-samples="),
        3 => (Setting::Batch, "--batch", "--batch="),
        4 => (Setting::Buckets, "--buckets", "--buckets="),
        5 => (Setting::Csv, "--csv", "--csv="),
        _ => (Setting::Size, "--size", "--size="),
    }
}

fn find_exact_setting(a: &str) -> (r: Option<Setting>)
    ensures
        r == exact_setting_from(a@, 0),
{
    let mut k: usize = 0;
    while k < 7
        invariant
            k <= 7,
            exact_setting_from(a@, 0) == exact_setting_from(a@, k as nat),
        decreases 7 - k,
    {
        let (s, flag, _) = setting_entry(k);
        if str_eq(a, flag) {
            return Some(s);
        }
        k = k + 1;
    }
    None
}

fn find_prefixed_setting(a: &[char]) -> (r: Option<(Setting, usize)>)
    ensures
        r matches Some((s, n)) ==> prefixed_setting_from(a@, 0) == Some(s) && n == setting_prefix(
            s,
        ).len() && n <= a@.len(),
        r is None ==> prefixed_setting_from(a@, 0) is None,
{
    let mut k: usize = 0;
    while k < 7
        invariant
            k <= 7,
            prefixed_setting_from(a@, 0) == prefixed_setting_from(a@, k as nat),
        decreases 7 - k,
    {
        let (s, _, prefix) = setting_entry(k);
        let pc = chars_of(prefix);
        if crate::text::starts_with(a, pc.as_slice()) {
            return Some((s, pc.len()));
        }
        k = k + 1;
    }
    None
}

/// The argument after an option, or the refusal that names the option.
pub fn next_value(args: &[String], i: usize, setting: Setting) -> (r: Result<String, ArgError>)
    ensures
        i < args@.len() ==> r == Ok::<String, ArgError>(args@[i as int]),
        i >= args@.len() ==> (r matches Err(ArgError::MissingValue(s)) && s == setting),
{
    if i < args.len() {
        Ok(args[i].clone())
    } else {
        Err(ArgError::MissingValue(setting))
    }
}

/// Gives a setting the value `v`.
fn set_value(c: &mut Config, s: Setting, v: &[char]) -> (r: Result<(), IntErrorKind>)
    ensures
        match apply_setting(old(c)@, s, v@) {
            Ok(c2) => r is Ok && final(c)@ == c2,
            Err(e) => r == Err::<(), IntErrorKind>(e),
        },
{
    match s {
        Setting::Probe => {
            c.probe = crate::text::string_from_chars(v);
        },
        Setting::Samples => {
            c.samples = parse_usize(v)?;
        },
        Setting::WarmupSamples => {
            c.warmup_samples = parse_usize(v)?;
        },
        Setting::Batch => {
            c.batch = Some(parse_usize(v)?);
        },
        Setting::Buckets => {
            c.buckets = parse_usize(v)?;
        },
        Setting::Csv => {
            c.csv = Some(crate::text::string_from_chars(v));
        },
        Setting::Size => {
            c.size_bytes = Some(parse_size_chars(v)?);
        },
    }
    Ok(())
}

/// Reads the sampler's arguments (the program name not among them).
pub fn parse_args(args: &[String]) -> (r: Result<ParsedArgs, ArgError>)
    ensures
        outcome_of(r) == parse_from(arg_views(args@), 0, default_config()),
{
    let ghost views = arg_views(args@);
    let mut config = Config::default();
    let mut i: usize = 0;
    while i < args.len()
        invariant
            i <= args@.len(),
            views == arg_views(args@),
            parse_from(views, 0, default_config()) == parse_from(views, i as nat, config@),
        decreases args.len() - i,
    {
        let a = args[i].as_str();
        assert(views[i as int] == a@);
        if str_eq(a, "-h") || str_eq(
            a,
            "--help",
        ) {
            return Ok(ParsedArgs::Help);
        }
        if str_eq(a, "--list") {
            return Ok(ParsedArgs::List);
        }
        match find_exact_setting(a) {
            Some(s) => {
                let value = match next_value(args, i + 1, s) {
                    Ok(v) => v,
                    Err(e) => {
                        return Err(e);
                    },
                };
                assert(i + 1 < args@.len() ==> views[i + 1] == value@);
                let vc = chars_of(value.as_str());
                match set_value(&mut config, s, vc.as_slice()) {
                    Ok(()) => {},
                    Err(e) => {
                        return Err(ArgError::InvalidNumber(e));
                    },
                }
                i = i + 2;
            },
            None => {
                let ac = chars_of(a);
                match find_prefixed_setting(ac.as_slice()) {
                    Some((s, n)) => {
                        let rest = slice_chars(ac.as_slice(), n, ac.len());
                        assert(rest@ =~= a@.skip(n as int));
                        match set_value(&mut config, s, rest.as_slice()) {
                            Ok(()) => {},
                            Err(e) => {
                                return Err(ArgError::InvalidNumber(e));
                            },
                        }
                        i = i + 1;
                    },
                    None => {
                        return Err(ArgError::UnknownArgument(args[i].clone()));
                    },
                }
            },
        }
    }
    if config.samples == 0 {
        return Err(ArgError::ZeroSamples);
    }
    if config.buckets == 0 {
        return Err(ArgError::ZeroBuckets);
    }
    if config.batch == Some(0usize) {
        return Err(ArgError::ZeroBatch);
    }
    Ok(ParsedArgs::Run(config))
}

/// The probes the sampler knows, and the loop-overhead probe.
#[derive(Debug, Clone, Copy, PartialEq, Eq, Structural)]
pub enum ProbeKind {
    Noop,
    SyscallGetpid,
    StatTmp,
    MemoryRandom,
    TcpEcho,
}

pub open spec fn kind_name(k: ProbeKind) -> Seq<char> {
    match k {
        ProbeKind::Noop => "noop"@,
        ProbeKind::SyscallGetpid => "syscall_getpid"@,
        ProbeKind::StatTmp => "stat_tmp"@,
        ProbeKind::MemoryRandom => "memory_random"@,
        ProbeKind::TcpEcho => "tcp_echo"@,
    }
}

/// Operations per sample where `--batch` does not say: many for the
/// nanosecond probes, one for those slow enough to time alone.
pub open spec fn kind_batch(k: ProbeKind) -> usize {
    match k {
        ProbeKind::Noop => 1000,
        ProbeKind::SyscallGetpid => 256,
        ProbeKind::StatTmp => 1,
        ProbeKind::MemoryRandom => 1024,
        ProbeKind::TcpEcho => 1,
    }
}

impl ProbeKind {
    pub fn name(&self) -> (n: &'static str)
        ensures
            n@ == kind_name(*self),
    {
        match self {
            ProbeKind::Noop => "noop",
            ProbeKind::SyscallGetpid => "syscall_getpid",
            ProbeKind::StatTmp => "stat_tmp",
            ProbeKind::MemoryRandom => "memory_random",
            ProbeKind::TcpEcho => "tcp_echo",
        }
    }

    pub fn default_batch(&self) -> (b: usize)
        ensures
            b == kind_batch(*self),
    {
        match self {
            ProbeKind::Noop => 1000,
            ProbeKind::SyscallGetpid => 256,
            ProbeKind::StatTmp => 1,
            ProbeKind::MemoryRandom => 1024,
            ProbeKind::TcpEcho => 1,
        }
    }
}

/// The probe that a `--probe` name selects, aliases included.
pub open spec fn kind_for_name(name: Seq<char>) -> Option<ProbeKind> {
    if name == "syscall_getpid"@ || name == "getpid"@ {
        Some(ProbeKind::SyscallGetpid)
    } else if name == "stat_tmp"@ || name == "stat"@ {
        Some(ProbeKind::StatTmp)
    } else if name == "memory_random"@ || name == "random_memory"@ {
        Some(ProbeKind::MemoryRandom)
    } else if name == "tcp_echo"@ {
        Some(ProbeKind::TcpEcho)
    } else {
        None
    }
}

/// Every probe is selected by the name it reports and lists itself under
/// (`syscall_getpid`, `stat_tmp`, `memory_random`, `tcp_echo`), and by its
/// alias where it has one (`getpid`, `stat`, `random_memory`); the noop
/// probe, which only measures the loop, is selected by no name.
pub proof fn lemma_probe_names_select_their_probe(k: ProbeKind)
    ensures
        k != ProbeKind::Noop ==> kind_for_name(kind_name(k)) == Some(k),
        kind_for_name("noop"@) is None,
        kind_for_name("syscall_getpid"@) == Some(ProbeKind::SyscallGetpid),
        kind_for_name("getpid"@) == Some(ProbeKind::SyscallGetpid),
        kind_for_name("stat_tmp"@) == Some(ProbeKind::StatTmp),
        kind_for_name("stat"@) == Some(ProbeKind::StatTmp),
        kind_for_name("memory_random"@) == Some(ProbeKind::MemoryRandom),
        kind_for_name("random_memory"@) == Some(ProbeKind::MemoryRandom),
        kind_for_name("tcp_echo"@) == Some(ProbeKind::TcpEcho),
{
    reveal_strlit("noop");
    reveal_strlit("syscall_getpid");
    reveal_strlit("getpid");
    reveal_strlit("stat_tmp");
    reveal_strlit("stat");
    reveal_strlit("memory_random");
    reveal_strlit("random_memory");
    reveal_strlit("tcp_echo");
    assert("noop"@ != "syscall_getpid"@ && "noop"@ != "getpid"@ && "noop"@ != "stat_tmp"@
        && "noop"@ != "stat"@ && "noop"@ != "memory_random"@ && "noop"@ != "random_memory"@
        && "noop"@ != "tcp_echo"@) by {
        assert("noop"@[0] != "syscall_getpid"@[0]);
        assert("noop"@[0] != "getpid"@[0]);
        assert("noop"@[0] != "stat_tmp"@[0]);
        assert("noop"@[0] != "stat"@[0]);
        assert("noop"@[0] != "memory_random"@[0]);
        assert("noop"@[0] != "random_memory"@[0]);
        assert("noop"@[0] != "tcp_echo"@[0]);
    }
    assert("stat_tmp"@ != "syscall_getpid"@ && "stat_tmp"@ != "getpid"@) by {
        assert("stat_tmp"@[1] != "syscall_getpid"@[1]);
        assert("stat_tmp"@[0] != "getpid"@[0]);
    }
    assert("stat"@ != "syscall_getpid"@ && "stat"@ != "getpid"@) by {
        assert("stat"@[1] != "syscall_getpid"@[1]);
        assert("stat"@[0] != "getpid"@[0]);
    }
    assert("memory_random"@ != "syscall_getpid"@ && "memory_random"@ != "getpid"@
        && "memory_random"@ != "stat_tmp"@ && "memory_random"@ != "stat"@) by {
        assert("memory_random"@[0] != "syscall_getpid"@[0]);
        assert("memory_random"@[0] != "getpid"@[0]);
        assert("memory_random"@[0] != "stat_tmp"@[0]);
        assert("memory_random"@[0] != "stat"@[0]);
    }
    assert("random_memory"@ != "syscall_getpid"@ && "random_memory"@ != "getpid"@
        && "random_memory"@ != "stat_tmp"@ && "random_memory"@ != "stat"@) by {
        assert("random_memory"@[0] != "syscall_getpid"@[0]);
        assert("random_memory"@[0] != "getpid"@[0]);
        assert("random_memory"@[0] != "stat_tmp"@[0]);
        assert("random_memory"@[0] != "stat"@[0]);
    }
    assert("tcp_echo"@ != "syscall_getpid"@ && "tcp_echo"@ != "getpid"@ && "tcp_echo"@ != "stat_tmp"@
        && "tcp_echo"@ != "stat"@ && "tcp_echo"@ != "memory_random"@ && "tcp_echo"@ != "random_memory"@)
        by {
        assert("tcp_echo"@[0] != "syscall_getpid"@[0]);
        assert("tcp_echo"@[0] != "getpid"@[0]);
        assert("tcp_echo"@[0] != "stat_tmp"@[0]);
        assert("tcp_echo"@[0] != "stat"@[0]);
        assert("tcp_echo"@[0] != "memory_random"@[0]);
        assert("tcp_echo"@[0] != "random_memory"@[0]);
    }
}

/// The size of the random-memory probe where `--size` does not say: 64 MiB.
pub open spec fn default_memory_size() -> usize {
    67108864
}

/// Whether `p` is the random-memory probe over `size_bytes`.
pub open spec fn memory_probe_for(p: MemoryRandomProbe, size_bytes: usize) -> bool {
    let order = spec_shuffle(iota(MemoryRandomProbe::entries_for(size_bytes)));
    &&& p.table().len() == MemoryRandomProbe::entries_for(size_bytes)
    &&& is_permutation(order)
    &&& links_in_order(p.table(), order)
    &&& p.position() == order[0]
    &&& p.start() == order[0]
    &&& p.loads() == 0
    &&& p.tally() == 0
}

/// A probe ready to run, with what only the library computes already built.
pub enum ProbePlan {
    SyscallGetpid,
    StatTmp,
    MemoryRandom(MemoryRandomProbe),
    /// The TCP echo probe with its payload size in bytes.
    TcpEcho(usize),
}

/// The probe that the settings select, or why it cannot be set up.
pub fn make_probe(config: &Config) -> (r: Result<ProbePlan, ProbeError>)
    ensures
        match kind_for_name(config.probe@) {
            None => r matches Err(ProbeError::UnknownProbe(n)) && n@ == config.probe@,
            Some(ProbeKind::SyscallGetpid) => r matches Ok(ProbePlan::SyscallGetpid),
            Some(ProbeKind::StatTmp) => r matches Ok(ProbePlan::StatTmp),
            Some(ProbeKind::MemoryRandom) => {
                let size = match config.size_bytes {
                    Some(b) => b,
                    None => default_memory_size(),
                };
                if MemoryRandomProbe::entries_for(size) < 2 {
                    r matches Err(ProbeError::MemorySizeTooSmall)
                } else {
                    r matches Ok(ProbePlan::MemoryRandom(p)) && memory_probe_for(p, size)
                }
            },
            Some(ProbeKind::TcpEcho) => {
                let size = match config.size_bytes {
                    Some(b) => b,
                    None => 1usize,
                };
                if size == 0 {
                    r matches Err(ProbeError::TcpSizeZero)
                } else {
                    r matches Ok(ProbePlan::TcpEcho(n)) && n == size
                }
            },
            _ => false,
        },
{
    let name = config.probe.as_str();
    if str_eq(name, "syscall_getpid") || str_eq(name, "getpid") {
        Ok(ProbePlan::SyscallGetpid)
    } else if str_eq(name, "stat_tmp") || str_eq(name, "stat") {
        Ok(ProbePlan::StatTmp)
    } else if str_eq(name, "memory_random") || str_eq(name, "random_memory") {
        let size = match config.size_bytes {
            Some(b) => b,
            None => 64 * 1024 * 1024,
        };
        match MemoryRandomProbe::new(size) {
            Ok(p) => Ok(ProbePlan::MemoryRandom(p)),
            Err(e) => Err(e),
        }
    } else if str_eq(name, "tcp_echo") {
        let size = match config.size_bytes {
            Some(b) => b,
            None => 1,
        };
        if size == 0 {
            Err(ProbeError::TcpSizeZero)
        } else {
            Ok(ProbePlan::TcpEcho(size))
        }
    } else {
        Err(ProbeError::UnknownProbe(config.probe.clone()))
    }
}

/// The samples with the loop overhead taken off, never below zero.
pub fn subtract_overhead(samples: &[u64], overhead: u64) -> (adjusted: Vec<u64>)
    ensures
        adjusted@.len() == samples@.len(),
        forall|k: int|
            0 <= k < samples@.len() ==> #[trigger] adjusted@[k] == if samples@[k] >= overhead {
                (samples@[k] - overhead) as u64
            } else {
                0u64
            },
{
    let mut adjusted: Vec<u64> = Vec::new();
    let mut i: usize = 0;
    while i < samples.len()
        invariant
            i <= samples@.len(),
            adjusted@.len() == i,
            forall|k: int|
                0 <= k < i ==> #[trigger] adjusted@[k] == if samples@[k] >= overhead {
                    (samples@[k] - overhead) as u64
                } else {
                    0u64
                },
        decreases samples.len() - i,
    {
        adjusted.push(samples[i].saturating_sub(overhead));
        i = i + 1;
    }
    adjusted
}

/// Something whose latency the sampler measures, one operation at a time.
pub trait Probe {
    /// How many operations the probe has run, counted modulo 2^64.
    spec fn runs(&self) -> u64;

    fn name(&self) -> &'static str;

    fn default_batch(&self) -> usize;

    /// Runs one operation.
    fn run_once(&mut self)
        ensures
            final(self).runs() == old(self).runs().wrapping_add(1),
    ;
}

/// A run count `n` operations on from `start`, modulo 2^64.
pub open spec fn runs_after(start: u64, n: nat) -> u64
    decreases n,
{
    if n == 0 {
        start
    } else {
        runs_after(start, (n - 1) as nat).wrapping_add(1)
    }
}

proof fn lemma_runs_after_add(a: u64, m: nat, n: nat)
    ensures
        runs_after(runs_after(a, m), n) == runs_after(a, m + n),
    decreases n,
{
    if n > 0 {
        lemma_runs_after_add(a, m, (n - 1) as nat);
    }
}

#[verifier::external_type_specification]
#[verifier::external_body]
pub struct ExInstant(std::time::Instant);

/// `Instant::now`: the monotonic clock's current reading.
#[verifier::external_body]
fn clock_now() -> std::time::Instant {
    std::time::Instant::now()
}

/// `Instant::elapsed`: the time since `start` by the monotonic clock.
#[verifier::external_body]
fn elapsed_since(start: &std::time::Instant) -> std::time::Duration {
    start.elapsed()
}

/// `Duration::as_nanos`: a duration in whole nanoseconds.
#[verifier::external_body]
fn whole_nanos(d: &std::time::Duration) -> u128 {
    d.as_nanos()
}

/// One sample: a batch's elapsed nanoseconds, cut to 64 bits as the sampler
/// stores them, divided by the number of operations in the batch.
pub open spec fn spec_sample_of(elapsed_nanos: u128, batch: usize) -> u64 {
    ((elapsed_nanos as u64) / (batch as u64)) as u64
}

/// Whether `t` is a sample of some batch of `batch` operations: `sample_of`
/// of some elapsed time.
pub open spec fn is_sample(t: u64, batch: usize) -> bool {
    exists|e: u128| t == spec_sample_of(e, batch)
}

/// The time per operation of a batch that took `elapsed_nanos`.
pub fn sample_of(elapsed_nanos: u128, batch: usize) -> (s: u64)
    requires
        batch > 0,
    ensures
        s == spec_sample_of(elapsed_nanos, batch),
{
    (elapsed_nanos as u64) / (batch as u64)
}

/// Runs `batches` untimed batches of `batch` operations each.
pub fn warm_up<P: Probe + ?Sized>(probe: &mut P, batches: usize, batch: usize)
    ensures
        final(probe).runs() == runs_after(old(probe).runs(), (batches * batch) as nat),
{
    let mut w: usize = 0;
    while w < batches
        invariant
            w <= batches,
            probe.runs() == runs_after(old(probe).runs(), (w * batch) as nat),
        decreases batches - w,
    {
        let mut k: usize = 0;
        while k < batch
            invariant
                k <= batch,
                probe.runs() == runs_after(old(probe).runs(), (w * batch + k) as nat),
            decreases batch - k,
        {
            probe.run_once();
            k = k + 1;
        }
        assert(w * batch + batch == (w + 1) * batch) by (nonlinear_arith);
        w = w + 1;
    }
}

/// Times one batch: the clock is read, the probe runs `batch` operations, and
/// the clock is read again; the sample is the elapsed nanoseconds per
/// operation, `sample_of` the time between the readings. Which times the
/// clock reads is left unsaid: they are the clock's.
pub fn time_batch<P: Probe + ?Sized>(probe: &mut P, batch: usize) -> (sample: u64)
    requires
        batch > 0,
    ensures
        final(probe).runs() == runs_after(old(probe).runs(), batch as nat),
        is_sample(sample, batch),
{
    let started = clock_now();
    let mut k: usize = 0;
    while k < batch
        invariant
            k <= batch,
            probe.runs() == runs_after(old(probe).runs(), k as nat),
        decreases batch - k,
    {
        probe.run_once();
        k = k + 1;
    }
    let elapsed = whole_nanos(&elapsed_since(&started));
    let sample = sample_of(elapsed, batch);
    assert(sample == spec_sample_of(elapsed, batch));
    sample
}

/// Runs `warmup_samples` untimed batches of `batch` operations, then times
/// `samples` further batches one by one with `time_batch`: a sample is the
/// time per operation of one batch, and the probe runs `(warmup_samples +
/// samples) * batch` operations in all.
pub fn measure_samples<P: Probe + ?Sized>(
    probe: &mut P,
    warmup_samples: usize,
    samples: usize,
    batch: usize,
) -> (timings: Vec<u64>)
    requires
        batch > 0 || samples == 0,
    ensures
        timings@.len() == samples,
        forall|i: int| 0 <= i < samples ==> is_sample(#[trigger] timings@[i], batch),
        final(probe).runs() == runs_after(old(probe).runs(), ((warmup_samples + samples) * batch) as nat),
{
    warm_up(probe, warmup_samples, batch);
    let ghost warm = probe.runs();
    let mut timings: Vec<u64> = Vec::new();
    let mut s: usize = 0;
    while s < samples
        invariant
            s <= samples,
            timings@.len() == s,
            batch > 0 || samples == 0,
            forall|i: int| 0 <= i < s ==> is_sample(#[trigger] timings@[i], batch),
            probe.runs() == runs_after(warm, (s * batch) as nat),
        decreases samples - s,
    {
        let ghost before = probe.runs();
        let sample = time_batch(probe, batch);
        proof {
            lemma_runs_after_add(warm, (s * batch) as nat, batch as nat);
            assert(s * batch + batch == (s + 1) * batch) by (nonlinear_arith);
        }
        timings.push(sample);
        assert(is_sample(timings@[s as int], batch));
        s = s + 1;
    }
    proof {
        lemma_runs_after_add(old(probe).runs(), (warmup_samples * batch) as nat, (samples * batch) as nat);
        assert(warmup_samples * batch + samples * batch == (warmup_samples + samples) * batch)
            by (nonlinear_arith);
    }
    timings
}

/// The unit a latency is shown in.
#[derive(Debug, Clone, Copy, PartialEq, Eq, Structural)]
pub enum LatencyUnit {
    Nanos,
    Micros,
    Millis,
    Seconds,
}

/// Nanoseconds below a thousand, microseconds below a million, milliseconds
/// below a billion, seconds from there on.
pub fn latency_unit(nanos: u64) -> (u: LatencyUnit)
    ensures
        u == (if nanos < 1_000 {
            LatencyUnit::Nanos
        } else if nanos < 1_000_000 {
            LatencyUnit::Micros
        } else if nanos < 1_000_000_000 {
            LatencyUnit::Millis
        } else {
            LatencyUnit::Seconds
        }),
{
    if nanos < 1_000 {
        LatencyUnit::Nanos
    } else if nanos < 1_000_000 {
        LatencyUnit::Micros
    } else if nanos < 1_000_000_000 {
        LatencyUnit::Millis
    } else {
        LatencyUnit::Seconds
    }
}

/// The histogram is logarithmic when the largest sample is more than a
/// hundred times the smallest, which is not zero.
pub fn uses_log_scale(min: u64, max: u64) -> (b: bool)
    ensures
        b == (min > 0 && max / min > 100),
{
    let floor: u64 = if min > 1 {
        min
    } else {
        1
    };
    min > 0 && max / floor > 100
}

/// The linear bucket of a sample: its distance from the smallest sample in
/// widths, the last bucket taking everything beyond.
pub open spec fn linear_bucket(s: u64, min: u64, width: u64, buckets: usize) -> int {
    let idx = (s - min) / (width as int);
    if idx < buckets - 1 {
        idx
    } else {
        buckets - 1
    }
}

/// The bounds a linear bucket is shown with: from `min` plus `idx` widths,
/// one width long, the upper bound cut at `max`; the arithmetic wraps as the
/// release build computes it.
pub fn linear_bucket_bounds(min: u64, max: u64, width: u64, idx: usize) -> (r: (u64, u64))
    ensures
        r.0 == min.wrapping_add(width.wrapping_mul(idx as u64)),
        r.1 == if r.0.wrapping_add(width).wrapping_sub(1) < max {
            r.0.wrapping_add(width).wrapping_sub(1)
        } else {
            max
        },
{
    let low = min.wrapping_add(width.wrapping_mul(idx as u64));
    let high = low.wrapping_add(width).wrapping_sub(1);
    (low, if high < max {
        high
    } else {
        max
    })
}

/// How many of the samples fall in bucket `b`.
pub open spec fn bucket_count(s: Seq<u64>, min: u64, width: u64, buckets: usize, b: int) -> nat
    decreases s.len(),
{
    if s.len() == 0 {
        0
    } else {
        bucket_count(s.drop_last(), min, width, buckets, b) + if linear_bucket(
            s.last(),
            min,
            width,
            buckets,
        ) == b {
            1nat
        } else {
            0nat
        }
    }
}

/// The sum of the counts.
pub open spec fn total(c: Seq<usize>) -> nat
    decreases c.len(),
{
    if c.len() == 0 {
        0
    } else {
        total(c.drop_last()) + c.last() as nat
    }
}

proof fn lemma_total_increment(c: Seq<usize>, b: int)
    requires
        0 <= b < c.len(),
        c[b] < usize::MAX,
    ensures
        total(c.update(b, (c[b] + 1) as usize)) == total(c) + 1,
    decreases c.len(),
{
    let d = c.update(b, (c[b] + 1) as usize);
    if b == c.len() - 1 {
        assert(d.drop_last() =~= c.drop_last());
    } else {
        assert(d.drop_last() =~= c.drop_last().update(b, (c[b] + 1) as usize));
        lemma_total_increment(c.drop_last(), b);
    }
}

/// Counts the samples per bucket of a linear histogram that starts at `min`
/// and has `buckets` buckets `width` wide.
pub fn linear_bucket_counts(samples: &[u64], min: u64, width: u64, buckets: usize) -> (counts: Vec<
    usize,
>)
    requires
        width > 0,
        buckets > 0,
        forall|k: int| 0 <= k < samples@.len() ==> min <= #[trigger] samples@[k],
    ensures
        counts@.len() == buckets,
        forall|b: int|
            0 <= b < buckets ==> #[trigger] counts@[b] == bucket_count(samples@, min, width, buckets, b),
        total(counts@) == samples@.len(),
{
    let mut counts: Vec<usize> = Vec::new();
    let mut z: usize = 0;
    while z < buckets
        invariant
            z <= buckets,
            counts@.len() == z,
            forall|b: int| 0 <= b < z ==> #[trigger] counts@[b] == 0,
            total(counts@) == 0,
        decreases buckets - z,
    {
        let ghost prev = counts@;
        counts.push(0);
        assert(counts@.drop_last() =~= prev);
        z = z + 1;
    }
    let mut i: usize = 0;
    while i < samples.len()
        invariant
            i <= samples@.len(),
            width > 0,
            buckets > 0,
            counts@.len() == buckets,
            forall|k: int| 0 <= k < samples@.len() ==> min <= #[trigger] samples@[k],
            forall|b: int|
                0 <= b < buckets ==> #[trigger] counts@[b] == bucket_count(
                    samples@.take(i as int),
                    min,
                    width,
                    buckets,
                    b,
                ),
            forall|b: int| 0 <= b < buckets ==> #[trigger] counts@[b] <= i,
            total(counts@) == i,
        decreases samples.len() - i,
    {
        let s = samples[i];
        let q = (s - min) / width;
        let idx: usize = if q < (buckets - 1) as u64 {
            q as usize
        } else {
            buckets - 1
        };
        assert(idx == linear_bucket(s, min, width, buckets));
        let ghost prev = counts@;
        assert(samples@.take(i + 1).drop_last() =~= samples@.take(i as int));
        assert(samples@.take(i + 1).last() == s);
        assert(prev[idx as int] <= i);
        let c = counts[idx];
        counts.set(idx, c + 1);
        proof {
            lemma_total_increment(prev, idx as int);
            assert(counts@ == prev.update(idx as int, (prev[idx as int] + 1) as usize));
        }
        i = i + 1;
    }
    assert(samples@.take(samples@.len() as int) =~= samples@);
    counts
}

} // verus!
