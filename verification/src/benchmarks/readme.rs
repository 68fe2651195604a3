//! Which README benchmarks run: those switched on, section by section, a
//! section with everything off being dropped entirely.
use vstd::prelude::*;

verus! {

/// The positions of the switches that are on, in order.
pub open spec fn enabled_positions(switches: Seq<bool>) -> Seq<usize>
    decreases switches.len(),
{
    if switches.len() == 0 {
        Seq::empty()
    } else if switches.last() {
        enabled_positions(switches.drop_last()).push((switches.len() - 1) as usize)
    } else {
        enabled_positions(switches.drop_last())
    }
}

/// A section to run: its position in the table and the positions of its
/// benchmarks that are on.
#[derive(Debug, Clone)]
pub struct PlannedSection {
    pub section: usize,
    pub benches: Vec<usize>,
}

/// The sections of the table, each with the benchmarks that are on, the
/// sections with none left out.
pub open spec fn spec_plan(table: Seq<Seq<bool>>) -> Seq<(usize, Seq<usize>)>
    decreases table.len(),
{
    if table.len() == 0 {
        Seq::empty()
    } else {
        let rest = spec_plan(table.drop_last());
        let on = enabled_positions(table.last());
        if on.len() > 0 {
            rest.push(((table.len() - 1) as usize, on))
        } else {
            rest
        }
    }
}

pub open spec fn plan_view(p: Seq<PlannedSection>) -> Seq<(usize, Seq<usize>)> {
    p.map_values(|s: PlannedSection| (s.section, s.benches@))
}

proof fn lemma_enabled_positions(switches: Seq<bool>)
    requires
        switches.len() <= usize::MAX,
    ensures
        forall|k: int|
            0 <= k < enabled_positions(switches).len() ==> (#[trigger] enabled_positions(switches)[k])
                < switches.len() && switches[enabled_positions(switches)[k] as int],
    decreases switches.len(),
{
    if switches.len() > 0 {
        let prev = switches.drop_last();
        lemma_enabled_positions(prev);
        let e = enabled_positions(switches);
        let p = enabled_positions(prev);
        assert forall|k: int| 0 <= k < e.len() implies (#[trigger] e[k]) < switches.len()
            && switches[e[k] as int] by {
            if k < p.len() {
                assert(e[k] == p[k]);
                assert(prev[p[k] as int] == switches[p[k] as int]);
            }
        }
    }
}

/// Every planned section is a section of the table with at least one
/// benchmark, and every planned benchmark is one that is switched on.
pub proof fn lemma_plan_runs_only_switched_on(table: Seq<Seq<bool>>, i: int)
    requires
        table.len() <= usize::MAX,
        forall|s: int| 0 <= s < table.len() ==> (#[trigger] table[s]).len() <= usize::MAX,
        0 <= i < spec_plan(table).len(),
    ensures
        spec_plan(table)[i].0 < table.len(),
        spec_plan(table)[i].1.len() > 0,
        forall|k: int|
            0 <= k < spec_plan(table)[i].1.len() ==> (#[trigger] spec_plan(table)[i].1[k]) < table[spec_plan(
                table,
            )[i].0 as int].len() && table[spec_plan(table)[i].0 as int][spec_plan(table)[i].1[k] as int],
    decreases table.len(),
{
    let rest = spec_plan(table.drop_last());
    let on = enabled_positions(table.last());
    lemma_enabled_positions(table.last());
    let entry = spec_plan(table)[i];
    if i < rest.len() {
        assert forall|t: int| 0 <= t < table.drop_last().len() implies (#[trigger] table.drop_last()[t]).len() <= usize::MAX by {
            assert(table.drop_last()[t] == table[t]);
        }
        lemma_plan_runs_only_switched_on(table.drop_last(), i);
        assert(entry == rest[i]);
        assert(table.drop_last()[rest[i].0 as int] == table[rest[i].0 as int]);
    } else {
        assert(entry == ((table.len() - 1) as usize, on));
        assert(table[entry.0 as int] == table.last());
    }
}

/// Every section of the table with a benchmark switched on is planned.
pub proof fn lemma_plan_keeps_sections_with_work(table: Seq<Seq<bool>>, s: int, b: int)
    requires
        table.len() <= usize::MAX,
        0 <= s < table.len(),
        0 <= b < table[s].len(),
        table[s][b],
    ensures
        exists|i: int| 0 <= i < spec_plan(table).len() && (#[trigger] spec_plan(table)[i]).0 == s,
    decreases table.len(),
{
    let rest = spec_plan(table.drop_last());
    if s < table.len() - 1 {
        assert(table.drop_last()[s] == table[s]);
        lemma_plan_keeps_sections_with_work(table.drop_last(), s, b);
        let i = choose|i: int| 0 <= i < rest.len() && (#[trigger] rest[i]).0 == s;
        assert(spec_plan(table)[i] == rest[i]);
    } else {
        lemma_enabled_has(table.last(), b);
        assert(spec_plan(table) == rest.push(((table.len() - 1) as usize, enabled_positions(table.last()))));
        assert(spec_plan(table)[rest.len() as int].0 == s);
    }
}

proof fn lemma_enabled_has(switches: Seq<bool>, b: int)
    requires
        0 <= b < switches.len(),
        switches[b],
    ensures
        enabled_positions(switches).len() > 0,
    decreases switches.len(),
{
    if b < switches.len() - 1 {
        assert(switches.drop_last()[b] == switches[b]);
        lemma_enabled_has(switches.drop_last(), b);
    }
}

proof fn lemma_enabled_contains(switches: Seq<bool>, b: int)
    requires
        switches.len() <= usize::MAX,
        0 <= b < switches.len(),
        switches[b],
    ensures
        enabled_positions(switches).contains(b as usize),
    decreases switches.len(),
{
    let prev = switches.drop_last();
    let p = enabled_positions(prev);
    if b == switches.len() - 1 {
        assert(enabled_positions(switches) == p.push(b as usize));
        assert(enabled_positions(switches)[p.len() as int] == b as usize);
    } else {
        assert(prev[b] == switches[b]);
        lemma_enabled_contains(prev, b);
        let k = choose|k: int| 0 <= k < p.len() && p[k] == b as usize;
        if switches.last() {
            assert(enabled_positions(switches)[k] == p[k]);
        }
    }
}

/// The benchmarks switched on in a section are exactly those it plans: a
/// position is planned if and only if its switch is on.
pub proof fn lemma_enabled_positions_are_the_switched_on(switches: Seq<bool>, b: int)
    requires
        switches.len() <= usize::MAX,
        0 <= b < switches.len(),
    ensures
        enabled_positions(switches).contains(b as usize) <==> switches[b],
{
    lemma_enabled_positions(switches);
    if switches[b] {
        lemma_enabled_contains(switches, b);
    }
    if enabled_positions(switches).contains(b as usize) {
        let k = choose|k: int|
            0 <= k < enabled_positions(switches).len() && enabled_positions(switches)[k] == b as usize;
        assert(switches[enabled_positions(switches)[k] as int]);
    }
}

/// Every switched-on benchmark runs: its section is planned, and the
/// benchmark is among that section's planned benchmarks.
pub proof fn lemma_plan_runs_every_switched_on(table: Seq<Seq<bool>>, s: int, b: int)
    requires
        table.len() <= usize::MAX,
        forall|t: int| 0 <= t < table.len() ==> (#[trigger] table[t]).len() <= usize::MAX,
        0 <= s < table.len(),
        0 <= b < table[s].len(),
        table[s][b],
    ensures
        exists|i: int|
            0 <= i < spec_plan(table).len() && (#[trigger] spec_plan(table)[i]).0 == s
                && spec_plan(table)[i].1.contains(b as usize),
    decreases table.len(),
{
    let rest = spec_plan(table.drop_last());
    if s < table.len() - 1 {
        assert(table.drop_last()[s] == table[s]);
        assert forall|t: int| 0 <= t < table.drop_last().len() implies (#[trigger] table.drop_last()[t]).len()
            <= usize::MAX by {
            assert(table.drop_last()[t] == table[t]);
        }
        lemma_plan_runs_every_switched_on(table.drop_last(), s, b);
        let i = choose|i: int|
            0 <= i < rest.len() && (#[trigger] rest[i]).0 == s && rest[i].1.contains(b as usize);
        assert(spec_plan(table)[i] == rest[i]);
    } else {
        lemma_enabled_contains(table.last(), b);
        lemma_enabled_has(table.last(), b);
        assert(spec_plan(table) == rest.push(((table.len() - 1) as usize, enabled_positions(table.last()))));
        assert(spec_plan(table)[rest.len() as int].0 == s);
    }
}

fn switched_on(switches: &Vec<bool>) -> (on: Vec<usize>)
    ensures
        on@ == enabled_positions(switches@),
{
    let mut on: Vec<usize> = Vec::new();
    let mut i: usize = 0;
    while i < switches.len()
        invariant
            i <= switches@.len(),
            on@ == enabled_positions(switches@.take(i as int)),
        decreases switches.len() - i,
    {
        assert(switches@.take(i + 1).drop_last() =~= switches@.take(i as int));
        if switches[i] {
            on.push(i);
        }
        i = i + 1;
    }
    assert(switches@.take(switches@.len() as int) =~= switches@);
    on
}

/// For each section of the table, given by its switches, the benchmarks that
/// are on; sections with none on are dropped.
pub fn plan(table: &Vec<Vec<bool>>) -> (p: Vec<PlannedSection>)
    ensures
        plan_view(p@) == spec_plan(table@.map_values(|s: Vec<bool>| s@)),
{
    let ghost views = table@.map_values(|s: Vec<bool>| s@);
    let mut p: Vec<PlannedSection> = Vec::new();
    let mut i: usize = 0;
    while i < table.len()
        invariant
            i <= table@.len(),
            views == table@.map_values(|s: Vec<bool>| s@),
            plan_view(p@) == spec_plan(views.take(i as int)),
        decreases table.len() - i,
    {
        assert(views.take(i + 1).drop_last() =~= views.take(i as int));
        assert(views.take(i + 1).last() == table@[i as int]@);
        let on = switched_on(&table[i]);
        if on.len() > 0 {
            let ghost before = p@;
            p.push(PlannedSection { section: i, benches: on });
            assert(plan_view(p@) =~= plan_view(before).push((i, on@)));
        }
        i = i + 1;
    }
    assert(views.take(views.len() as int) =~= views);
    p
}

} // verus!
