//! The CPU model that labels a run: read from `/proc/cpuinfo` or `lscpu`
//! output, and cleaned of trademarks and clock speeds.
use vstd::prelude::*;
use crate::cli::daily::opt_string_view;
use crate::text::{
    chars_of, string_from_chars, remove_all_chars, collapse_whitespace, find, trim_chars,
    slice_chars, starts_with, remove_all, collapse_ws, first_occurrence, trim, has_prefix,
};

verus! {

/// `raw` with "(R)", "(TM)", "(tm)", "CPU " and "Processor" removed, in that
/// order.
pub open spec fn strip_marks(raw: Seq<char>) -> Seq<char> {
    remove_all(
        remove_all(
            remove_all(remove_all(remove_all(raw, "(R)"@), "(TM)"@), "(tm)"@),
            "CPU "@,
        ),
        "Processor"@,
    )
}

/// A CPU name without trademarks, with single spaces, and without the clock
/// speed that follows " @".
pub open spec fn spec_clean_cpu_name(raw: Seq<char>) -> Seq<char> {
    let s = collapse_ws(strip_marks(raw));
    match first_occurrence(s, " @"@) {
        Some(i) => trim(s.take(i)),
        None => trim(s),
    }
}

/// Cleans a CPU model name for the CSV.
pub fn clean_cpu_name(raw: &str) -> (name: String)
    ensures
        name@ == spec_clean_cpu_name(raw@),
{
    let mut s = chars_of(raw);
    let p0 = chars_of("(R)");
    s = remove_all_chars(s.as_slice(), p0.as_slice());
    let p1 = chars_of("(TM)");
    s = remove_all_chars(s.as_slice(), p1.as_slice());
    let p2 = chars_of("(tm)");
    s = remove_all_chars(s.as_slice(), p2.as_slice());
    let p3 = chars_of("CPU ");
    s = remove_all_chars(s.as_slice(), p3.as_slice());
    let p4 = chars_of("Processor");
    s = remove_all_chars(s.as_slice(), p4.as_slice());
    let c = collapse_whitespace(s.as_slice());
    let at = chars_of(" @");
    let out = match find(c.as_slice(), at.as_slice()) {
        Some(i) => {
            let head = slice_chars(c.as_slice(), 0, i);
            assert(head@ =~= c@.take(i as int));
            trim_chars(head.as_slice())
        },
        None => trim_chars(c.as_slice()),
    };
    string_from_chars(out.as_slice())
}

/// Where the first `\n` of `s` is, or its length where there is none.
pub open spec fn newline_at(s: Seq<char>) -> nat
    decreases s.len(),
{
    if s.len() == 0 {
        0
    } else if s[0] == '\n' {
        0
    } else {
        1 + newline_at(s.drop_first())
    }
}

/// The first line of `s`, without its `\n`, or `\r\n`.
pub open spec fn first_line(s: Seq<char>) -> Seq<char> {
    let e = newline_at(s) as int;
    let l = s.take(e);
    if e < s.len() && l.len() > 0 && l.last() == '\r' {
        l.drop_last()
    } else {
        l
    }
}

/// `str::lines`: the lines of `s`, a final line ending being optional.
pub open spec fn spec_lines(s: Seq<char>) -> Seq<Seq<char>>
    decreases s.len(),
{
    if s.len() == 0 {
        Seq::empty()
    } else if newline_at(s) < s.len() {
        seq![first_line(s)] + spec_lines(s.skip(newline_at(s) as int + 1))
    } else {
        seq![first_line(s)]
    }
}

proof fn lemma_newline_at(s: Seq<char>, i: int)
    requires
        0 <= i <= s.len(),
        forall|j: int| 0 <= j < i ==> s[j] != '\n',
        i == s.len() || s[i] == '\n',
    ensures
        newline_at(s) == i,
    decreases i,
{
    if i > 0 {
        lemma_newline_at(s.drop_first(), i - 1);
    }
}

/// The lines of a text.
pub fn split_lines(text: &[char]) -> (lines: Vec<Vec<char>>)
    ensures
        lines@.map_values(|l: Vec<char>| l@) == spec_lines(text@),
{
    let mut lines: Vec<Vec<char>> = Vec::new();
    let mut start: usize = 0;
    let mut i: usize = 0;
    assert(text@.skip(0) =~= text@);
    while i < text.len()
        invariant
            start <= i <= text@.len(),
            spec_lines(text@) == lines@.map_values(|l: Vec<char>| l@) + spec_lines(
                text@.skip(start as int),
            ),
            forall|j: int| start <= j < i ==> text@[j] != '\n',
        decreases text.len() - i,
    {
        if text[i] == '\n' {
            let ghost rest = text@.skip(start as int);
            proof {
                lemma_newline_at(rest, i - start);
            }
            let mut end = i;
            if end > start && text[end - 1] == '\r' {
                end = end - 1;
            }
            let line = slice_chars(text, start, end);
            assert(line@ =~= first_line(rest));
            assert(rest.skip(i - start + 1) =~= text@.skip(i + 1));
            let ghost before = lines@;
            lines.push(line);
            assert(lines@.map_values(|l: Vec<char>| l@) =~= before.map_values(|l: Vec<char>| l@)
                + seq![first_line(rest)]);
            start = i + 1;
        }
        i = i + 1;
    }
    if start < text.len() {
        let ghost rest = text@.skip(start as int);
        proof {
            lemma_newline_at(rest, text@.len() - start);
        }
        let line = slice_chars(text, start, text.len());
        assert(line@ =~= first_line(rest));
        let ghost before = lines@;
        lines.push(line);
        assert(lines@.map_values(|l: Vec<char>| l@) =~= before.map_values(|l: Vec<char>| l@)
            + seq![first_line(rest)]);
    } else {
        assert(text@.skip(start as int).len() == 0);
        assert(lines@.map_values(|l: Vec<char>| l@) + Seq::<Seq<char>>::empty() =~= lines@.map_values(
            |l: Vec<char>| l@,
        ));
    }
    lines
}

/// `split_once(':')`: what follows the first colon of `l`, if it has one.
pub open spec fn after_colon(l: Seq<char>) -> Option<Seq<char>> {
    match first_occurrence(l, seq![':']) {
        Some(i) => Some(l.skip(i + 1)),
        None => None,
    }
}

fn after_colon_exec(l: &[char]) -> (r: Option<Vec<char>>)
    ensures
        match after_colon(l@) {
            Some(v) => r matches Some(w) && w@ == v,
            None => r is None,
        },
{
    let colon = vec![':'];
    assert(colon@ =~= seq![':']);
    match find(l, colon.as_slice()) {
        Some(i) => {
            assert(i < l.len());
            let rest = slice_chars(l, i + 1, l.len());
            assert(rest@ =~= l@.skip(i + 1));
            Some(rest)
        },
        None => None,
    }
}

/// The index of the first line that begins with `prefix`.
pub open spec fn first_with_prefix(lines: Seq<Seq<char>>, prefix: Seq<char>, i: nat) -> Option<int>
    decreases lines.len() - i,
{
    if i >= lines.len() {
        None
    } else if has_prefix(lines[i as int], prefix) {
        Some(i as int)
    } else {
        first_with_prefix(lines, prefix, i + 1)
    }
}

proof fn lemma_first_with_prefix(lines: Seq<Seq<char>>, prefix: Seq<char>, i: nat)
    requires
        first_with_prefix(lines, prefix, i) is Some,
    ensures
        0 <= first_with_prefix(lines, prefix, i)->0 < lines.len(),
        has_prefix(lines[first_with_prefix(lines, prefix, i)->0], prefix),
    decreases lines.len() - i,
{
    if i < lines.len() && !has_prefix(lines[i as int], prefix) {
        lemma_first_with_prefix(lines, prefix, i + 1);
    }
}

/// The model name in `/proc/cpuinfo`: the first line that begins with
/// "model name" decides; what follows its colon, trimmed and cleaned, or
/// nothing where it has no colon. `None` where there is no such line.
pub open spec fn spec_cpuinfo_model(text: Seq<char>) -> Option<Option<Seq<char>>> {
    let lines = spec_lines(text);
    match first_with_prefix(lines, "model name"@, 0) {
        Some(k) => match after_colon(lines[k].skip("model name"@.len() as int)) {
            Some(v) => Some(Some(spec_clean_cpu_name(trim(v)))),
            None => Some(None),
        },
        None => None,
    }
}

pub open spec fn found_view(s: Option<Option<String>>) -> Option<Option<Seq<char>>> {
    match s {
        Some(v) => Some(opt_string_view(v)),
        None => None,
    }
}

fn first_line_with_prefix(lines: &Vec<Vec<char>>, prefix: &[char]) -> (r: Option<usize>)
    ensures
        r matches Some(k) ==> first_with_prefix(
            lines@.map_values(|l: Vec<char>| l@),
            prefix@,
            0,
        ) == Some(k as int) && k < lines@.len(),
        r is None ==> first_with_prefix(lines@.map_values(|l: Vec<char>| l@), prefix@, 0) is None,
{
    let ghost views = lines@.map_values(|l: Vec<char>| l@);
    let mut i: usize = 0;
    while i < lines.len()
        invariant
            i <= lines@.len(),
            views == lines@.map_values(|l: Vec<char>| l@),
            first_with_prefix(views, prefix@, 0) == first_with_prefix(views, prefix@, i as nat),
        decreases lines.len() - i,
    {
        assert(views[i as int] == lines@[i as int]@);
        if starts_with(lines[i].as_slice(), prefix) {
            return Some(i);
        }
        i = i + 1;
    }
    None
}

/// The CPU model that `/proc/cpuinfo` names, cleaned; `Some(None)` where the
/// model line has no colon, `None` where there is no model line.
pub fn cpu_model_from_cpuinfo(text: &str) -> (r: Option<Option<String>>)
    ensures
        found_view(r) == spec_cpuinfo_model(text@),
{
    let t = chars_of(text);
    let lines = split_lines(t.as_slice());
    let prefix = chars_of("model name");
    match first_line_with_prefix(&lines, prefix.as_slice()) {
        Some(k) => {
            let line = &lines[k];
            assert(lines@.map_values(|l: Vec<char>| l@)[k as int] == line@);
            proof {
                lemma_first_with_prefix(lines@.map_values(|l: Vec<char>| l@), prefix@, 0);
            }
            let rest = slice_chars(line.as_slice(), prefix.len(), line.len());
            assert(rest@ =~= line@.skip(prefix@.len() as int));
            match after_colon_exec(rest.as_slice()) {
                Some(v) => {
                    let trimmed = trim_chars(v.as_slice());
                    let ts = string_from_chars(trimmed.as_slice());
                    Some(Some(clean_cpu_name(ts.as_str())))
                },
                None => Some(None),
            }
        },
        None => None,
    }
}

/// The model name in `lscpu` output: on the first line that begins with
/// "Model name:", the rest trimmed and cleaned.
pub open spec fn spec_lscpu_model(text: Seq<char>) -> Option<Seq<char>> {
    let lines = spec_lines(text);
    match first_with_prefix(lines, "Model name:"@, 0) {
        Some(k) => Some(spec_clean_cpu_name(trim(lines[k].skip("Model name:"@.len() as int)))),
        None => None,
    }
}

/// The CPU model that `lscpu` names, cleaned.
pub fn cpu_model_from_lscpu(text: &str) -> (r: Option<String>)
    ensures
        opt_string_view(r) == spec_lscpu_model(text@),
{
    let t = chars_of(text);
    let lines = split_lines(t.as_slice());
    let prefix = chars_of("Model name:");
    match first_line_with_prefix(&lines, prefix.as_slice()) {
        Some(k) => {
            let line = &lines[k];
            assert(lines@.map_values(|l: Vec<char>| l@)[k as int] == line@);
            proof {
                lemma_first_with_prefix(lines@.map_values(|l: Vec<char>| l@), prefix@, 0);
            }
            let rest = slice_chars(line.as_slice(), prefix.len(), line.len());
            assert(rest@ =~= line@.skip(prefix@.len() as int));
            let trimmed = trim_chars(rest.as_slice());
            let ts = string_from_chars(trimmed.as_slice());
            Some(clean_cpu_name(ts.as_str()))
        },
        None => None,
    }
}

/// The first line that begins with "model name" or "Hardware", and which of
/// the two it begins with.
pub open spec fn first_model_or_hardware(lines: Seq<Seq<char>>, i: nat) -> Option<(int, Seq<char>)>
    decreases lines.len() - i,
{
    if i >= lines.len() {
        None
    } else if has_prefix(lines[i as int], "model name"@) {
        Some((i as int, "model name"@))
    } else if has_prefix(lines[i as int], "Hardware"@) {
        Some((i as int, "Hardware"@))
    } else {
        first_model_or_hardware(lines, i + 1)
    }
}

/// The processor the sampler reports: the first line of `/proc/cpuinfo` that
/// begins with "model name" or "Hardware" decides; what follows its colon,
/// trimmed, or nothing where it has no colon. `None` where there is no such
/// line.
pub open spec fn spec_cpuinfo_processor(text: Seq<char>) -> Option<Option<Seq<char>>> {
    let lines = spec_lines(text);
    match first_model_or_hardware(lines, 0) {
        Some((k, p)) => match after_colon(lines[k].skip(p.len() as int)) {
            Some(v) => Some(Some(trim(v))),
            None => Some(None),
        },
        None => None,
    }
}

/// What follows the colon after the first `plen` characters of a line,
/// trimmed, or nothing where there is no colon.
fn trimmed_value_after(line: &[char], plen: usize) -> (r: Option<String>)
    requires
        plen <= line@.len(),
    ensures
        match after_colon(line@.skip(plen as int)) {
            Some(v) => r matches Some(w) && w@ == trim(v),
            None => r is None,
        },
{
    let rest = slice_chars(line, plen, line.len());
    assert(rest@ =~= line@.skip(plen as int));
    match after_colon_exec(rest.as_slice()) {
        Some(v) => {
            let trimmed = trim_chars(v.as_slice());
            Some(string_from_chars(trimmed.as_slice()))
        },
        None => None,
    }
}

/// The processor that `/proc/cpuinfo` names, as the sampler reports it.
pub fn cpu_processor_from_cpuinfo(text: &str) -> (r: Option<Option<String>>)
    ensures
        found_view(r) == spec_cpuinfo_processor(text@),
{
    let t = chars_of(text);
    let lines = split_lines(t.as_slice());
    let ghost views = lines@.map_values(|l: Vec<char>| l@);
    let model = chars_of("model name");
    let hardware = chars_of("Hardware");
    let mut i: usize = 0;
    while i < lines.len()
        invariant
            i <= lines@.len(),
            views == lines@.map_values(|l: Vec<char>| l@),
            views == spec_lines(text@),
            model@ == "model name"@,
            hardware@ == "Hardware"@,
            first_model_or_hardware(views, 0) == first_model_or_hardware(views, i as nat),
        decreases lines.len() - i,
    {
        let line = &lines[i];
        assert(views[i as int] == line@);
        if starts_with(line.as_slice(), model.as_slice()) {
            return Some(trimmed_value_after(line.as_slice(), model.len()));
        }
        if starts_with(line.as_slice(), hardware.as_slice()) {
            return Some(trimmed_value_after(line.as_slice(), hardware.len()));
        }
        i = i + 1;
    }
    None
}


/// The two readers give one label for one model: a `/proc/cpuinfo` line
/// `model name:M` and an `lscpu` line `Model name:M` give the same name,
/// the model `M` trimmed and cleaned.
pub proof fn lemma_cpu_readers_agree(m: Seq<char>)
    requires
        !m.contains('\n'),
    ensures
        spec_cpuinfo_model("model name"@ + seq![':'] + m) == Some(Some(spec_clean_cpu_name(trim(m)))),
        spec_lscpu_model("Model name:"@ + m) == Some(spec_clean_cpu_name(trim(m))),
{
    reveal_strlit("model name");
    reveal_strlit("Model name:");
    let pc = "model name"@;
    let pl = "Model name:"@;
    let c = pc + seq![':'] + m;
    let l = pl + m;
    lemma_single_line(c);
    lemma_single_line(l);
    assert(c.take(pc.len() as int) =~= pc);
    assert(l.take(pl.len() as int) =~= pl);
    assert(first_with_prefix(seq![c], pc, 0) == Some(0int));
    assert(first_with_prefix(seq![l], pl, 0) == Some(0int));
    assert(l.skip(pl.len() as int) =~= m);
    let q = c.skip(pc.len() as int);
    assert(q =~= seq![':'] + m);
    assert(q.subrange(0, 1) =~= seq![':']);
    crate::text::lemma_first_is(q, seq![':'], 0);
    assert(q.skip(1) =~= m);
}

/// A text without a line break is one line.
proof fn lemma_single_line(t: Seq<char>)
    requires
        t.len() > 0,
        !t.contains('\n'),
    ensures
        spec_lines(t) == seq![t],
{
    assert forall|j: int| 0 <= j < t.len() implies t[j] != '\n' by {
        if t[j] == '\n' {
            assert(t.contains('\n'));
        }
    }
    lemma_newline_at(t, t.len() as int);
    assert(t.take(t.len() as int) =~= t);
}

} // verus!
