//! Benchmark manifest: one `.toml` file per row under the benchmarks root.
//!
//! A row's id is its path below the root without the `.toml` extension (for
//! example `memory/random_read`); its section is the directory it lives in.
//! The rows come out ordered by section (in `section_order`) and then by id.
use vstd::prelude::*;
use crate::text::{chars_of, ends_with, slice_chars, contains_char, string_from_chars};

verus! {

/// One benchmark row of the manifest.
#[derive(Debug, Clone)]
pub struct Row {
    pub id: String,
    pub key: String,
    pub section: String,
    pub nightly: bool,
    pub path: String,
}

impl Row {
    /// A copy of the row.
    pub fn duplicate(&self) -> (r: Row)
        ensures
            r == *self,
    {
        Row {
            id: self.id.clone(),
            key: self.key.clone(),
            section: self.section.clone(),
            nightly: self.nightly,
            path: self.path.clone(),
        }
    }
}

/// A run of consecutive rows that share a section.
#[derive(Debug, Clone)]
pub struct Section {
    pub name: String,
    pub rows: Vec<Row>,
}

/// What a row's `.toml` file holds.
#[derive(Debug, Clone)]
pub struct RowDef {
    pub key: String,
    pub section: String,
    pub nightly: bool,
}

/// A manifest file as found under the root: its path relative to the root,
/// its full path, and its parsed contents, or why it could not be read or
/// parsed.
#[derive(Debug)]
pub struct ManifestEntry {
    pub rel: String,
    pub path: String,
    pub def: Result<RowDef, String>,
}

/// Why the manifest, or a request against it, was refused.
#[derive(Debug, Clone)]
pub enum ManifestError {
    /// The file, or the directory walk, failed; the reason.
    Unreadable(String),
    /// The file's `section` differs from the directory it lives in.
    SectionMismatch { path: String, section: String, expected: String },
    /// No benchmark is registered under the row's id.
    UnregisteredId { path: String, id: String },
    /// A request with a `/` that names no row id.
    UnknownId(String),
    /// A request without a `/` that is the key of no row.
    UnknownKey(String),
    /// A request without a `/` that is the key of several rows.
    AmbiguousKey(String),
}

/// The order in which sections are listed.
pub open spec fn section_order() -> Seq<Seq<char>> {
    seq!["memory"@, "syscall"@, "hash"@, "cpu"@, "serialization"@, "ssd"@, "network"@]
}

pub open spec fn rank_from(s: Seq<char>, i: nat) -> nat
    decreases 7 - i,
{
    if i >= 7 {
        7
    } else if section_order()[i as int] == s {
        i
    } else {
        rank_from(s, i + 1)
    }
}

/// The position of a section in `section_order`, or the number of sections
/// there for a section that is not listed.
pub open spec fn spec_section_rank(s: Seq<char>) -> nat {
    rank_from(s, 0)
}

fn order_entry(i: usize) -> (s: &'static str)
    requires
        i < 7,
    ensures
        s@ == section_order()[i as int],
{
    match i {
        0 => "memory",
        1 => "syscall",
        2 => "hash",
        3 => "cpu",
        4 => "serialization",
        5 => "ssd",
        _ => "network",
    }
}

/// Whether two character sequences are equal.
pub fn chars_eq(a: &[char], b: &[char]) -> (r: bool)
    ensures
        r == (a@ == b@),
{
    if a.len() != b.len() {
        return false;
    }
    let mut i: usize = 0;
    while i < a.len()
        invariant
            a@.len() == b@.len(),
            i <= a@.len(),
            forall|j: int| 0 <= j < i ==> a@[j] == b@[j],
        decreases a.len() - i,
    {
        if a[i] != b[i] {
            return false;
        }
        i = i + 1;
    }
    assert(a@ =~= b@);
    true
}

/// Whether two string slices hold the same characters.
pub fn str_eq(a: &str, b: &str) -> (r: bool)
    ensures
        r == (a@ == b@),
{
    let x = chars_of(a);
    let y = chars_of(b);
    chars_eq(x.as_slice(), y.as_slice())
}

/// Where a section stands in the listing order.
pub fn section_rank(section: &str) -> (r: usize)
    ensures
        r == spec_section_rank(section@),
{
    let mut i: usize = 0;
    while i < 7
        invariant
            i <= 7,
            spec_section_rank(section@) == rank_from(section@, i as nat),
        decreases 7 - i,
    {
        if str_eq(order_entry(i), section) {
            return i;
        }
        i = i + 1;
    }
    7
}

/// Strict lexicographic order of character sequences, by code point; it is
/// the order of `str` and `String`.
pub open spec fn seq_lt(a: Seq<char>, b: Seq<char>) -> bool
    decreases a.len(),
{
    if a.len() == 0 {
        b.len() > 0
    } else if b.len() == 0 {
        false
    } else if a[0] < b[0] {
        true
    } else if a[0] == b[0] {
        seq_lt(a.drop_first(), b.drop_first())
    } else {
        false
    }
}

proof fn lemma_seq_lt_irreflexive(a: Seq<char>)
    ensures
        !seq_lt(a, a),
    decreases a.len(),
{
    if a.len() > 0 {
        lemma_seq_lt_irreflexive(a.drop_first());
    }
}

proof fn lemma_seq_lt_transitive(a: Seq<char>, b: Seq<char>, c: Seq<char>)
    requires
        seq_lt(a, b),
        seq_lt(b, c),
    ensures
        seq_lt(a, c),
    decreases a.len(),
{
    if a.len() > 0 && b.len() > 0 && c.len() > 0 {
        if a[0] == b[0] && b[0] == c[0] {
            lemma_seq_lt_transitive(a.drop_first(), b.drop_first(), c.drop_first());
        }
    }
}

proof fn lemma_seq_lt_total(a: Seq<char>, b: Seq<char>)
    ensures
        a == b || seq_lt(a, b) || seq_lt(b, a),
    decreases a.len(),
{
    if a.len() > 0 && b.len() > 0 {
        if a[0] == b[0] {
            lemma_seq_lt_total(a.drop_first(), b.drop_first());
            if a.drop_first() == b.drop_first() {
                assert(a =~= seq![a[0]] + a.drop_first());
                assert(b =~= seq![b[0]] + b.drop_first());
            }
        }
    } else if a.len() == 0 && b.len() == 0 {
        assert(a =~= b);
    }
}

proof fn lemma_seq_lt_asymmetric(a: Seq<char>, b: Seq<char>)
    requires
        seq_lt(a, b),
    ensures
        !seq_lt(b, a),
{
    if seq_lt(b, a) {
        lemma_seq_lt_transitive(a, b, a);
        lemma_seq_lt_irreflexive(a);
    }
}

/// Whether `a` comes before `b` in character order.
pub fn chars_lt(a: &[char], b: &[char]) -> (r: bool)
    ensures
        r == seq_lt(a@, b@),
{
    let mut i: usize = 0;
    assert(a@.skip(0) =~= a@ && b@.skip(0) =~= b@);
    while i < a.len() && i < b.len()
        invariant
            i <= a@.len(),
            i <= b@.len(),
            seq_lt(a@, b@) == seq_lt(a@.skip(i as int), b@.skip(i as int)),
        decreases a.len() - i,
    {
        let ghost sa = a@.skip(i as int);
        let ghost sb = b@.skip(i as int);
        assert(sa[0] == a@[i as int] && sb[0] == b@[i as int]);
        if a[i] != b[i] {
            return a[i] < b[i];
        }
        assert(sa.drop_first() =~= a@.skip(i + 1));
        assert(sb.drop_first() =~= b@.skip(i + 1));
        i = i + 1;
    }
    a.len() == i && b.len() > i
}

/// The listing order of rows: by section rank, then by id.
pub open spec fn row_le(a: Row, b: Row) -> bool {
    let ra = spec_section_rank(a.section@);
    let rb = spec_section_rank(b.section@);
    ra < rb || (ra == rb && !seq_lt(b.id@, a.id@))
}

/// Whether the rows are in listing order.
pub open spec fn rows_sorted(s: Seq<Row>) -> bool {
    forall|i: int, j: int| 0 <= i < j < s.len() ==> row_le(#[trigger] s[i], #[trigger] s[j])
}

proof fn lemma_row_le_total(a: Row, b: Row)
    ensures
        row_le(a, b) || row_le(b, a),
{
    lemma_seq_lt_total(a.id@, b.id@);
    if seq_lt(b.id@, a.id@) {
        lemma_seq_lt_asymmetric(b.id@, a.id@);
    }
    if a.id@ == b.id@ {
        lemma_seq_lt_irreflexive(a.id@);
    }
}

proof fn lemma_row_le_transitive(a: Row, b: Row, c: Row)
    requires
        row_le(a, b),
        row_le(b, c),
    ensures
        row_le(a, c),
{
    let ra = spec_section_rank(a.section@);
    let rb = spec_section_rank(b.section@);
    let rc = spec_section_rank(c.section@);
    if ra == rb && rb == rc {
        if seq_lt(c.id@, a.id@) {
            lemma_seq_lt_total(c.id@, b.id@);
            lemma_seq_lt_total(b.id@, a.id@);
            if seq_lt(b.id@, c.id@) {
                lemma_seq_lt_transitive(b.id@, c.id@, a.id@);
            } else if c.id@ == b.id@ {
            } else {
                if seq_lt(a.id@, b.id@) {
                    lemma_seq_lt_transitive(c.id@, a.id@, b.id@);
                } else if a.id@ == b.id@ {
                }
            }
        }
    }
}

/// Whether `a` comes before or ties with `b` in listing order.
fn row_le_exec(a: &Row, b: &Row) -> (r: bool)
    ensures
        r == row_le(*a, *b),
{
    let ra = section_rank(a.section.as_str());
    let rb = section_rank(b.section.as_str());
    if ra < rb {
        return true;
    }
    if ra > rb {
        return false;
    }
    let ia = chars_of(a.id.as_str());
    let ib = chars_of(b.id.as_str());
    !chars_lt(ib.as_slice(), ia.as_slice())
}

/// Whether `out` takes its rows from `input` by the source positions `src`,
/// no position twice, and rows that tie in listing order keep the order they
/// had in `input`.
pub open spec fn stable_arrangement(out: Seq<Row>, input: Seq<Row>, src: Seq<int>) -> bool {
    &&& src.len() == out.len()
    &&& forall|k: int| 0 <= k < out.len() ==> 0 <= #[trigger] src[k] < input.len() && out[k] == input[src[k]]
    &&& forall|a: int, b: int| 0 <= a < b < out.len() ==> #[trigger] src[a] != #[trigger] src[b]
    &&& forall|a: int, b: int|
        0 <= a < b < out.len() && row_le(#[trigger] out[b], #[trigger] out[a]) ==> src[a] < src[b]
}

/// Whether `out` is `input` sorted stably into listing order: sorted, with
/// every row of `input` once, ties in their input order.
pub open spec fn stably_sorted(out: Seq<Row>, input: Seq<Row>) -> bool {
    &&& rows_sorted(out)
    &&& out.len() == input.len()
    &&& out.to_multiset() == input.to_multiset()
    &&& exists|src: Seq<int>| stable_arrangement(out, input, src)
}

/// The rows in listing order: stable insertion sort by section rank and id.
pub fn sort_rows(rows: Vec<Row>) -> (out: Vec<Row>)
    ensures
        stably_sorted(out@, rows@),
{
    broadcast use vstd::seq_lib::group_to_multiset_ensures;
    broadcast use vstd::multiset::group_multiset_axioms;
    let mut out: Vec<Row> = Vec::new();
    let ghost mut src: Seq<int> = Seq::empty();
    let mut i: usize = 0;
    while i < rows.len()
        invariant
            i <= rows@.len(),
            out@.len() == i,
            rows_sorted(out@),
            out@.to_multiset() == rows@.take(i as int).to_multiset(),
            stable_arrangement(out@, rows@, src),
            forall|k: int| 0 <= k < src.len() ==> #[trigger] src[k] < i,
        decreases rows.len() - i,
    {
        let x = rows[i].duplicate();
        let mut p = out.len();
        while p > 0 && !row_le_exec(&out[p - 1], &x)
            invariant
                p <= out@.len(),
                rows_sorted(out@),
                forall|k: int| p <= k < out@.len() ==> !row_le(#[trigger] out@[k], x),
            decreases p,
        {
            p = p - 1;
        }
        let ghost old_out = out@;
        let ghost old_src = src;
        proof {
            assert forall|k: int| 0 <= k < p implies row_le(#[trigger] old_out[k], x) by {
                if k < p - 1 {
                    lemma_row_le_transitive(old_out[k], old_out[p - 1], x);
                }
            }
            assert forall|k: int| p <= k < old_out.len() implies row_le(x, #[trigger] old_out[k]) by {
                lemma_row_le_total(old_out[k], x);
            }
        }
        out.insert(p, x);
        proof {
            src = old_src.insert(p as int, i as int);
            lemma_insert_keeps_order(old_out, old_src, rows@, x, p as int, i as int);
            let n = out@;
            assert(n.remove(p as int) =~= old_out);
            assert(n[p as int] == x);
            n.to_multiset_ensures();
            assert(n.remove(p as int).to_multiset() == n.to_multiset().remove(n[p as int]));
            assert(n.to_multiset().remove(x) == old_out.to_multiset());
            assert(n.contains(x));
            assert(n.to_multiset().count(x) > 0);
            assert(rows@.take(i + 1) =~= rows@.take(i as int).push(rows@[i as int]));
            rows@.take(i as int).to_multiset_ensures();
            assert(n.to_multiset() =~= old_out.to_multiset().insert(x));
            assert(rows@.take(i + 1).to_multiset() == rows@.take(i as int).to_multiset().insert(x));
        }
        i = i + 1;
    }
    assert(rows@.take(rows@.len() as int) =~= rows@);
    out
}

/// Inserting `x`, the row at position `i` of the input and later than all
/// rows placed so far, at a position `p` that has no greater row before it
/// and only greater rows after it keeps the rows sorted and the arrangement
/// stable.
proof fn lemma_insert_keeps_order(
    out: Seq<Row>,
    src: Seq<int>,
    input: Seq<Row>,
    x: Row,
    p: int,
    i: int,
)
    requires
        0 <= p <= out.len(),
        0 <= i < input.len(),
        input[i] == x,
        rows_sorted(out),
        stable_arrangement(out, input, src),
        forall|k: int| 0 <= k < src.len() ==> #[trigger] src[k] < i,
        forall|k: int| 0 <= k < p ==> row_le(#[trigger] out[k], x),
        forall|k: int| p <= k < out.len() ==> row_le(x, #[trigger] out[k]),
        forall|k: int| p <= k < out.len() ==> !row_le(#[trigger] out[k], x),
    ensures
        rows_sorted(out.insert(p, x)),
        stable_arrangement(out.insert(p, x), input, src.insert(p, i)),
        forall|k: int| 0 <= k < src.insert(p, i).len() ==> #[trigger] src.insert(p, i)[k] < i + 1,
{
    let n = out.insert(p, x);
    let t = src.insert(p, i);
    assert forall|a: int, b: int| 0 <= a < b < n.len() implies row_le(#[trigger] n[a], #[trigger] n[b]) by {
        if b < p {
            assert(n[a] == out[a] && n[b] == out[b]);
        } else if b == p {
            assert(n[a] == out[a]);
        } else if a < p {
            assert(n[a] == out[a] && n[b] == out[b - 1]);
            lemma_row_le_transitive(out[a], x, out[b - 1]);
        } else if a == p {
            assert(n[b] == out[b - 1]);
        } else {
            assert(n[a] == out[a - 1] && n[b] == out[b - 1]);
        }
    }
    assert forall|k: int| 0 <= k < n.len() implies 0 <= #[trigger] t[k] < input.len() && n[k] == input[t[k]] by {
        if k < p {
            assert(t[k] == src[k] && n[k] == out[k]);
        } else if k > p {
            assert(t[k] == src[k - 1] && n[k] == out[k - 1]);
        }
    }
    assert forall|a: int, b: int| 0 <= a < b < n.len() implies #[trigger] t[a] != #[trigger] t[b] by {
        if b < p {
            assert(t[a] == src[a] && t[b] == src[b]);
        } else if b == p {
            assert(t[a] == src[a]);
        } else if a < p {
            assert(t[a] == src[a] && t[b] == src[b - 1]);
        } else if a == p {
            assert(t[b] == src[b - 1]);
        } else {
            assert(t[a] == src[a - 1] && t[b] == src[b - 1]);
        }
    }
    assert forall|a: int, b: int|
        0 <= a < b < n.len() && row_le(#[trigger] n[b], #[trigger] n[a]) implies t[a] < t[b] by {
        if b < p {
            assert(t[a] == src[a] && t[b] == src[b]);
            assert(n[a] == out[a] && n[b] == out[b]);
        } else if b == p {
            assert(t[a] == src[a]);
        } else if a < p {
            assert(t[a] == src[a] && t[b] == src[b - 1]);
            assert(n[a] == out[a] && n[b] == out[b - 1]);
        } else if a == p {
            assert(n[b] == out[b - 1]);
            assert(!row_le(out[b - 1], x));
        } else {
            assert(t[a] == src[a - 1] && t[b] == src[b - 1]);
            assert(n[a] == out[a - 1] && n[b] == out[b - 1]);
        }
    }
    assert forall|k: int| 0 <= k < t.len() implies #[trigger] t[k] < i + 1 by {
        if k < p {
            assert(t[k] == src[k]);
        } else if k > p {
            assert(t[k] == src[k - 1]);
        }
    }
}

/// Whether a file is a row of the manifest, by its name: its extension is
/// `toml` (a name that is only `.toml` has no extension) and it is not the
/// template `_template.toml`.
pub open spec fn spec_is_row_file(name: Seq<char>) -> bool {
    &&& crate::text::has_suffix(name, ".toml"@)
    &&& name.len() > ".toml"@.len()
    &&& name != "_template.toml"@
}

/// Whether the file with this name is a row of the manifest.
pub fn is_row_file(name: &str) -> (b: bool)
    ensures
        b == spec_is_row_file(name@),
{
    let cs = chars_of(name);
    let ext = chars_of(".toml");
    ends_with(cs.as_slice(), ext.as_slice()) && cs.len() > ext.len() && !str_eq(name, "_template.toml")
}

/// The path with a trailing `.toml` removed.
pub open spec fn strip_toml(rel: Seq<char>) -> Seq<char> {
    if crate::text::has_suffix(rel, ".toml"@) {
        rel.take(rel.len() - ".toml"@.len())
    } else {
        rel
    }
}

pub open spec fn slash_for_backslash(c: char) -> char {
    if c == '\\' {
        '/'
    } else {
        c
    }
}

/// A row's id: its path below the root, without the `.toml` extension, with
/// `/` for `\`.
pub open spec fn spec_row_id(rel: Seq<char>) -> Seq<char> {
    strip_toml(rel).map_values(|c: char| slash_for_backslash(c))
}

/// The directory part of a relative path: everything before its last `/`,
/// and nothing where there is none.
pub open spec fn parent_dir(rel: Seq<char>) -> Seq<char>
    decreases rel.len(),
{
    if rel.len() == 0 {
        rel
    } else if rel.last() == '/' {
        rel.drop_last()
    } else {
        parent_dir(rel.drop_last())
    }
}

/// Whether one of the strings is `s`.
pub open spec fn names(list: Seq<String>, s: Seq<char>) -> bool {
    exists|k: int| 0 <= k < list.len() && (#[trigger] list[k])@ == s
}

/// The row that a manifest entry describes, or why it is refused.
pub open spec fn entry_ok(e: ManifestEntry, registered: Seq<String>) -> bool {
    &&& e.def is Ok
    &&& e.def->Ok_0.section@ == parent_dir(e.rel@)
    &&& names(registered, spec_row_id(e.rel@))
}

/// Whether `row` is the row that the accepted entry `e` gives.
pub open spec fn row_of_entry(row: Row, e: ManifestEntry) -> bool {
    &&& row.id@ == spec_row_id(e.rel@)
    &&& row.key == e.def->Ok_0.key
    &&& row.section == e.def->Ok_0.section
    &&& row.nightly == e.def->Ok_0.nightly
    &&& row.path == e.path
}

/// Whether `err` is the refusal of the entry `e`.
pub open spec fn entry_error(err: ManifestError, e: ManifestEntry, registered: Seq<String>) -> bool {
    if e.def is Err {
        err == ManifestError::Unreadable(e.def->Err_0)
    } else if e.def->Ok_0.section@ != parent_dir(e.rel@) {
        err matches ManifestError::SectionMismatch { path, section, expected } && path == e.path
            && section == e.def->Ok_0.section && expected@ == parent_dir(e.rel@)
    } else {
        err matches ManifestError::UnregisteredId { path, id } && path == e.path && id@
            == spec_row_id(e.rel@) && !names(registered, spec_row_id(e.rel@))
    }
}

/// The id that a relative path gives.
pub fn row_id(rel: &str) -> (id: String)
    ensures
        id@ == spec_row_id(rel@),
{
    let cs = chars_of(rel);
    let ext = chars_of(".toml");
    let stem = if ends_with(cs.as_slice(), ext.as_slice()) {
        slice_chars(cs.as_slice(), 0, cs.len() - ext.len())
    } else {
        slice_chars(cs.as_slice(), 0, cs.len())
    };
    assert(cs@.subrange(0, cs@.len() as int) =~= cs@);
    let mut out: Vec<char> = Vec::new();
    let mut i: usize = 0;
    while i < stem.len()
        invariant
            i <= stem@.len(),
            stem@ == strip_toml(rel@),
            out@ == stem@.take(i as int).map_values(|c: char| slash_for_backslash(c)),
        decreases stem.len() - i,
    {
        let c = stem[i];
        out.push(if c == '\\' { '/' } else { c });
        assert(stem@.take(i + 1) =~= stem@.take(i as int).push(c));
        assert(out@ =~= stem@.take(i + 1).map_values(|c: char| slash_for_backslash(c)));
        i = i + 1;
    }
    assert(stem@.take(stem@.len() as int) =~= stem@);
    string_from_chars(out.as_slice())
}

/// The section that a relative path says its row belongs to.
pub fn expected_section(rel: &str) -> (s: String)
    ensures
        s@ == parent_dir(rel@),
{
    let cs = chars_of(rel);
    let mut k = cs.len();
    assert(cs@.take(k as int) =~= cs@);
    while k > 0 && cs[k - 1] != '/'
        invariant
            k <= cs@.len(),
            parent_dir(rel@) == parent_dir(cs@.take(k as int)),
            cs@ == rel@,
        decreases k,
    {
        assert(cs@.take(k as int).drop_last() =~= cs@.take(k - 1));
        k = k - 1;
    }
    let head = if k > 0 {
        assert(cs@.take(k as int).drop_last() =~= cs@.take(k - 1));
        slice_chars(cs.as_slice(), 0, k - 1)
    } else {
        Vec::new()
    };
    proof {
        if k == 0 {
            assert(cs@.take(0).len() == 0);
            assert(head@ =~= cs@.take(0));
        } else {
            assert(head@ =~= cs@.take(k - 1));
        }
    }
    string_from_chars(head.as_slice())
}

/// Whether one of the strings is `s`.
pub fn contains_string(list: &[String], s: &str) -> (b: bool)
    ensures
        b == names(list@, s@),
{
    let mut i: usize = 0;
    while i < list.len()
        invariant
            i <= list@.len(),
            forall|k: int| 0 <= k < i ==> (#[trigger] list@[k])@ != s@,
        decreases list.len() - i,
    {
        if str_eq(list[i].as_str(), s) {
            return true;
        }
        i = i + 1;
    }
    false
}

/// The row that a manifest file describes, or why it is refused: checked
/// against the directory it lives in and against the registered ids.
fn read_entry(entry: &ManifestEntry, registered: &[String]) -> (r: Result<Row, ManifestError>)
    ensures
        r is Ok <==> entry_ok(*entry, registered@),
        r matches Ok(row) ==> row_of_entry(row, *entry),
        r matches Err(e) ==> entry_error(e, *entry, registered@),
{
    let def = match &entry.def {
        Ok(d) => d,
        Err(reason) => {
            return Err(ManifestError::Unreadable(reason.clone()));
        },
    };
    let expected = expected_section(entry.rel.as_str());
    if !str_eq(def.section.as_str(), expected.as_str()) {
        return Err(
            ManifestError::SectionMismatch {
                path: entry.path.clone(),
                section: def.section.clone(),
                expected,
            },
        );
    }
    let id = row_id(entry.rel.as_str());
    if !contains_string(registered, id.as_str()) {
        return Err(ManifestError::UnregisteredId { path: entry.path.clone(), id });
    }
    Ok(
        Row {
            id,
            key: def.key.clone(),
            section: def.section.clone(),
            nightly: def.nightly,
            path: entry.path.clone(),
        },
    )
}

/// Why a manifest file gives no row: it could not be read or parsed, its
/// section is not the directory it lives in, or its id is not registered;
/// nothing where it gives one.
pub fn entry_refusal(entry: &ManifestEntry, registered: &[String]) -> (r: Option<ManifestError>)
    ensures
        r is None <==> entry_ok(*entry, registered@),
        r matches Some(e) ==> entry_error(e, *entry, registered@),
{
    match read_entry(entry, registered) {
        Ok(_) => None,
        Err(e) => Some(e),
    }
}

/// The row that an accepted manifest file describes.
pub fn parse_row(entry: &ManifestEntry, registered: &[String]) -> (row: Row)
    requires
        entry_ok(*entry, registered@),
    ensures
        row_of_entry(row, *entry),
{
    match read_entry(entry, registered) {
        Ok(row) => row,
        Err(_) => vstd::pervasive::unreached(),
    }
}

/// Whether `parsed` holds, position by position, the rows that the entries
/// give.
pub open spec fn rows_of_entries(parsed: Seq<Row>, entries: Seq<ManifestEntry>) -> bool {
    &&& parsed.len() == entries.len()
    &&& forall|k: int| 0 <= k < entries.len() ==> row_of_entry(#[trigger] parsed[k], entries[k])
}

/// Whether every entry gives a row.
pub open spec fn manifest_ok(entries: Seq<ManifestEntry>, registered: Seq<String>) -> bool {
    forall|k: int| 0 <= k < entries.len() ==> entry_ok(#[trigger] entries[k], registered)
}

/// The refusal of the first entry that gives no row, or nothing where every
/// entry gives one.
pub fn manifest_refusal(entries: &[ManifestEntry], registered: &[String]) -> (r: Option<ManifestError>)
    ensures
        r is None <==> manifest_ok(entries@, registered@),
        r matches Some(e) ==> exists|f: int|
            {
                &&& 0 <= f < entries@.len()
                &&& forall|k: int| 0 <= k < f ==> entry_ok(#[trigger] entries@[k], registered@)
                &&& !entry_ok(entries@[f], registered@)
                &&& entry_error(e, entries@[f], registered@)
            },
{
    let mut i: usize = 0;
    while i < entries.len()
        invariant
            i <= entries@.len(),
            forall|k: int| 0 <= k < i ==> entry_ok(#[trigger] entries@[k], registered@),
        decreases entries.len() - i,
    {
        match entry_refusal(&entries[i], registered) {
            Some(e) => {
                return Some(e);
            },
            None => {},
        }
        i = i + 1;
    }
    None
}

/// Whether the entries are distinct row files: their relative paths end in
/// `.toml`, hold no `\`, and differ from one another.
pub open spec fn distinct_row_files(entries: Seq<ManifestEntry>) -> bool {
    &&& forall|k: int|
        0 <= k < entries.len() ==> crate::text::has_suffix(#[trigger] entries[k].rel@, ".toml"@)
            && !entries[k].rel@.contains('\\')
    &&& forall|a: int, b: int| 0 <= a < b < entries.len() ==> #[trigger] entries[a].rel@ != #[trigger] entries[b].rel@
}

/// Whether the rows come strictly in listing order: by section rank, then by
/// id, and no id twice.
pub open spec fn strictly_ordered(rows: Seq<Row>) -> bool {
    forall|a: int, b: int|
        0 <= a < b < rows.len() ==> {
            let ra = spec_section_rank((#[trigger] rows[a]).section@);
            let rb = spec_section_rank((#[trigger] rows[b]).section@);
            &&& rows[a].id@ != rows[b].id@
            &&& (ra < rb || (ra == rb && seq_lt(rows[a].id@, rows[b].id@)))
        }
}

/// The rows of an accepted manifest in listing order: the entries' rows,
/// sorted stably by section rank and then id. Distinct row files give
/// distinct ids, and the order is then strict.
pub fn load_rows(entries: &[ManifestEntry], registered: &[String]) -> (rows: Vec<Row>)
    requires
        manifest_ok(entries@, registered@),
    ensures
        exists|parsed: Seq<Row>| #[trigger] rows_of_entries(parsed, entries@) && stably_sorted(rows@, parsed),
        distinct_row_files(entries@) ==> strictly_ordered(rows@),
{
    let mut parsed: Vec<Row> = Vec::new();
    let mut i: usize = 0;
    while i < entries.len()
        invariant
            i <= entries@.len(),
            manifest_ok(entries@, registered@),
            parsed@.len() == i,
            forall|k: int| 0 <= k < i ==> row_of_entry(#[trigger] parsed@[k], entries@[k]),
        decreases entries.len() - i,
    {
        assert(entry_ok(entries@[i as int], registered@));
        let row = parse_row(&entries[i], registered);
        parsed.push(row);
        i = i + 1;
    }
    let ghost all = parsed@;
    let rows = sort_rows(parsed);
    assert(rows_of_entries(all, entries@));
    assert(stably_sorted(rows@, all));
    proof {
        if distinct_row_files(entries@) {
            lemma_loaded_rows_strict(rows@, all, entries@);
        }
    }
    rows
}

/// A row id keeps the path apart from every other path that also ends in
/// `.toml` and holds no `\`.
proof fn lemma_row_id_injective(r1: Seq<char>, r2: Seq<char>)
    requires
        crate::text::has_suffix(r1, ".toml"@),
        crate::text::has_suffix(r2, ".toml"@),
        !r1.contains('\\'),
        !r2.contains('\\'),
        r1 != r2,
    ensures
        spec_row_id(r1) != spec_row_id(r2),
{
    let p = ".toml"@;
    let s1 = r1.take(r1.len() - p.len());
    let s2 = r2.take(r2.len() - p.len());
    assert(spec_row_id(r1) =~= s1) by {
        assert forall|j: int| 0 <= j < s1.len() implies s1[j] != '\\' by {
            assert(r1[j] == s1[j]);
        }
    }
    assert(spec_row_id(r2) =~= s2) by {
        assert forall|j: int| 0 <= j < s2.len() implies s2[j] != '\\' by {
            assert(r2[j] == s2[j]);
        }
    }
    assert(r1 =~= s1 + r1.skip(r1.len() - p.len()));
    assert(r2 =~= s2 + r2.skip(r2.len() - p.len()));
}

/// Loaded rows of distinct row files have distinct ids and so come strictly
/// in listing order.
proof fn lemma_loaded_rows_strict(rows: Seq<Row>, parsed: Seq<Row>, entries: Seq<ManifestEntry>)
    requires
        rows_of_entries(parsed, entries),
        stably_sorted(rows, parsed),
        distinct_row_files(entries),
    ensures
        strictly_ordered(rows),
{
    let src = choose|src: Seq<int>| stable_arrangement(rows, parsed, src);
    assert forall|a: int, b: int| 0 <= a < b < rows.len() implies rows[a].id@ != rows[b].id@ by {
        let ea = entries[src[a]];
        let eb = entries[src[b]];
        assert(row_of_entry(parsed[src[a]], ea));
        assert(row_of_entry(parsed[src[b]], eb));
        if src[a] < src[b] {
            assert(entries[src[a]].rel@ != entries[src[b]].rel@);
        } else {
            assert(entries[src[b]].rel@ != entries[src[a]].rel@);
        }
        assert(crate::text::has_suffix(ea.rel@, ".toml"@) && !ea.rel@.contains('\\'));
        assert(crate::text::has_suffix(eb.rel@, ".toml"@) && !eb.rel@.contains('\\'));
        lemma_row_id_injective(ea.rel@, eb.rel@);
    }
    assert forall|a: int, b: int| 0 <= a < b < rows.len() implies {
        let ra = spec_section_rank((#[trigger] rows[a]).section@);
        let rb = spec_section_rank((#[trigger] rows[b]).section@);
        &&& rows[a].id@ != rows[b].id@
        &&& (ra < rb || (ra == rb && seq_lt(rows[a].id@, rows[b].id@)))
    } by {
        assert(row_le(rows[a], rows[b]));
        assert(rows[a].id@ != rows[b].id@);
        lemma_seq_lt_total(rows[a].id@, rows[b].id@);
    }
}

/// Whether `list_rows` keeps a row.
pub open spec fn row_selected(row: Row, nightly_only: bool, section: Option<Seq<char>>) -> bool {
    &&& (!nightly_only || row.nightly)
    &&& (section matches Some(s) ==> row.section@ == s)
}

pub open spec fn selected_rows(rows: Seq<Row>, nightly_only: bool, section: Option<Seq<char>>) -> Seq<Row> {
    rows.filter(|row: Row| row_selected(row, nightly_only, section))
}

pub open spec fn opt_view(section: Option<&str>) -> Option<Seq<char>> {
    match section {
        Some(s) => Some(s@),
        None => None,
    }
}

/// The rows, in their order, that are nightly (where `nightly_only`) and in the
/// section (where one is given).
pub fn list_rows(rows: &[Row], nightly_only: bool, section: Option<&str>) -> (out: Vec<Row>)
    ensures
        out@ == selected_rows(rows@, nightly_only, opt_view(section)),
{
    let ghost sec = opt_view(section);
    let mut out: Vec<Row> = Vec::new();
    let mut i: usize = 0;
    assert(selected_rows(rows@.take(0), nightly_only, sec) == Seq::<Row>::empty()) by {
        reveal(Seq::filter);
    }
    while i < rows.len()
        invariant
            i <= rows@.len(),
            sec == opt_view(section),
            out@ == selected_rows(rows@.take(i as int), nightly_only, sec),
        decreases rows.len() - i,
    {
        let row = &rows[i];
        let keep = (!nightly_only || row.nightly) && match section {
            Some(s) => str_eq(row.section.as_str(), s),
            None => true,
        };
        assert(rows@.take(i + 1).drop_last() =~= rows@.take(i as int));
        assert(rows@.take(i + 1).last() == *row);
        assert(keep == row_selected(*row, nightly_only, sec));
        assert(selected_rows(rows@.take(i + 1), nightly_only, sec) == if keep {
            selected_rows(rows@.take(i as int), nightly_only, sec).push(*row)
        } else {
            selected_rows(rows@.take(i as int), nightly_only, sec)
        }) by {
            reveal(Seq::filter);
        }
        if keep {
            out.push(row.duplicate());
        }
        i = i + 1;
    }
    assert(rows@.take(rows@.len() as int) =~= rows@);
    out
}

/// The rows of the sections, one section after another.
pub open spec fn flatten(secs: Seq<Section>) -> Seq<Row>
    decreases secs.len(),
{
    if secs.len() == 0 {
        Seq::empty()
    } else {
        flatten(secs.drop_last()) + secs.last().rows@
    }
}

/// Whether the sections group the rows into maximal runs of one section each.
pub open spec fn groups(secs: Seq<Section>, rows: Seq<Row>) -> bool {
    &&& flatten(secs) == rows
    &&& forall|i: int| 0 <= i < secs.len() ==> (#[trigger] secs[i]).rows@.len() > 0
    &&& forall|i: int, j: int|
        0 <= i < secs.len() && 0 <= j < secs[i].rows@.len() ==> (#[trigger] secs[i].rows@[j]).section@
            == secs[i].name@
    &&& forall|i: int| 0 < i < secs.len() ==> (#[trigger] secs[i]).name@ != secs[i - 1].name@
}

/// The selected rows grouped by section: each run of consecutive rows that
/// share a section becomes one section.
pub fn sections(rows: &[Row], nightly_only: bool) -> (out: Vec<Section>)
    ensures
        groups(out@, selected_rows(rows@, nightly_only, None)),
{
    let listed = list_rows(rows, nightly_only, None);
    let mut out: Vec<Section> = Vec::new();
    let mut cur: Vec<Row> = Vec::new();
    let mut cur_name: String = String::new();
    let mut i: usize = 0;
    while i < listed.len()
        invariant
            i <= listed@.len(),
            flatten(out@) + cur@ == listed@.take(i as int),
            forall|k: int| 0 <= k < out@.len() ==> (#[trigger] out@[k]).rows@.len() > 0,
            forall|k: int, j: int|
                0 <= k < out@.len() && 0 <= j < out@[k].rows@.len() ==> (#[trigger] out@[k].rows@[j]).section@
                    == out@[k].name@,
            forall|k: int| 0 < k < out@.len() ==> (#[trigger] out@[k]).name@ != out@[k - 1].name@,
            forall|j: int| 0 <= j < cur@.len() ==> (#[trigger] cur@[j]).section@ == cur_name@,
            i == 0 ==> cur@.len() == 0,
            i > 0 ==> cur@.len() > 0,
            i > 0 && out@.len() > 0 ==> out@.last().name@ != cur_name@,
        decreases listed.len() - i,
    {
        let row = listed[i].duplicate();
        assert(listed@.take(i + 1) =~= listed@.take(i as int).push(row));
        if i > 0 && str_eq(cur_name.as_str(), row.section.as_str()) {
            cur.push(row);
        } else {
            if i > 0 {
                let ghost old_out = out@;
                let sec = Section { name: cur_name, rows: cur };
                out.push(sec);
                assert(out@.drop_last() =~= old_out);
            }
            cur_name = row.section.clone();
            cur = Vec::new();
            cur.push(row);
        }
        i = i + 1;
    }
    if listed.len() > 0 {
        let ghost old_out = out@;
        out.push(Section { name: cur_name, rows: cur });
        assert(out@.drop_last() =~= old_out);
    } else {
        assert(cur@ =~= Seq::<Row>::empty());
    }
    assert(listed@.take(listed@.len() as int) =~= listed@);
    assert(flatten(out@) =~= listed@);
    out
}

/// Whether some row has this id.
pub open spec fn has_id(rows: Seq<Row>, id: Seq<char>) -> bool {
    exists|k: int| 0 <= k < rows.len() && (#[trigger] rows[k]).id@ == id
}

/// The rows whose key is `key`.
pub open spec fn with_key(rows: Seq<Row>, key: Seq<char>) -> Seq<Row> {
    rows.filter(|r: Row| r.key@ == key)
}

/// Whether a request names a row: a full id (it holds a `/`) that some row
/// has, or a key that exactly one row has.
pub open spec fn request_ok(rows: Seq<Row>, req: Seq<char>) -> bool {
    if req.contains('/') {
        has_id(rows, req)
    } else {
        with_key(rows, req).len() == 1
    }
}

/// The id that an accepted request resolves to.
pub open spec fn request_id(rows: Seq<Row>, req: Seq<char>) -> Seq<char> {
    if req.contains('/') {
        req
    } else {
        with_key(rows, req)[0].id@
    }
}

/// Whether `err` is the refusal of the request `req`.
pub open spec fn request_error(err: ManifestError, rows: Seq<Row>, req: Seq<char>) -> bool {
    if req.contains('/') {
        err matches ManifestError::UnknownId(s) && s@ == req
    } else if with_key(rows, req).len() == 0 {
        err matches ManifestError::UnknownKey(s) && s@ == req
    } else {
        err matches ManifestError::AmbiguousKey(s) && s@ == req
    }
}

/// The rows with a given key, in their order.
fn rows_with_key(rows: &[Row], key: &str) -> (out: Vec<Row>)
    ensures
        out@ == with_key(rows@, key@),
{
    let mut out: Vec<Row> = Vec::new();
    let mut i: usize = 0;
    assert(with_key(rows@.take(0), key@) == Seq::<Row>::empty()) by {
        reveal(Seq::filter);
    }
    while i < rows.len()
        invariant
            i <= rows@.len(),
            out@ == with_key(rows@.take(i as int), key@),
        decreases rows.len() - i,
    {
        let row = &rows[i];
        assert(rows@.take(i + 1).drop_last() =~= rows@.take(i as int));
        assert(rows@.take(i + 1).last() == *row);
        assert(with_key(rows@.take(i + 1), key@) == if row.key@ == key@ {
            with_key(rows@.take(i as int), key@).push(*row)
        } else {
            with_key(rows@.take(i as int), key@)
        }) by {
            reveal(Seq::filter);
        }
        if str_eq(row.key.as_str(), key) {
            out.push(row.duplicate());
        }
        i = i + 1;
    }
    assert(rows@.take(rows@.len() as int) =~= rows@);
    out
}

/// Whether some row has this id.
fn any_row_has_id(rows: &[Row], id: &str) -> (b: bool)
    ensures
        b == has_id(rows@, id@),
{
    let mut i: usize = 0;
    while i < rows.len()
        invariant
            i <= rows@.len(),
            forall|k: int| 0 <= k < i ==> (#[trigger] rows@[k]).id@ != id@,
        decreases rows.len() - i,
    {
        if str_eq(rows[i].id.as_str(), id) {
            return true;
        }
        i = i + 1;
    }
    false
}

/// The id that one request names, or its refusal.
fn resolve_one(rows: &[Row], req: &String) -> (r: Result<String, ManifestError>)
    ensures
        r is Ok <==> request_ok(rows@, req@),
        r matches Ok(id) ==> id@ == request_id(rows@, req@),
        r matches Err(e) ==> request_error(e, rows@, req@),
{
    let cs = chars_of(req.as_str());
    if contains_char(cs.as_slice(), '/') {
        if any_row_has_id(rows, req.as_str()) {
            Ok(req.clone())
        } else {
            Err(ManifestError::UnknownId(req.clone()))
        }
    } else {
        let matches = rows_with_key(rows, req.as_str());
        if matches.len() == 0 {
            Err(ManifestError::UnknownKey(req.clone()))
        } else if matches.len() == 1 {
            Ok(matches[0].id.clone())
        } else {
            Err(ManifestError::AmbiguousKey(req.clone()))
        }
    }
}

/// Whether every request names a row.
pub open spec fn requests_ok(rows: Seq<Row>, requests: Seq<String>) -> bool {
    forall|k: int| 0 <= k < requests.len() ==> request_ok(rows, (#[trigger] requests[k])@)
}

/// The refusal of the first request that names no row (an unknown id, an
/// unknown key, or a key that several rows have), or nothing where every
/// request names one.
pub fn request_refusal(rows: &[Row], requests: &[String]) -> (r: Option<ManifestError>)
    ensures
        r is None <==> requests_ok(rows@, requests@),
        r matches Some(e) ==> exists|f: int|
            {
                &&& 0 <= f < requests@.len()
                &&& forall|k: int| 0 <= k < f ==> request_ok(rows@, (#[trigger] requests@[k])@)
                &&& !request_ok(rows@, requests@[f]@)
                &&& request_error(e, rows@, requests@[f]@)
            },
{
    let mut i: usize = 0;
    while i < requests.len()
        invariant
            i <= requests@.len(),
            forall|k: int| 0 <= k < i ==> request_ok(rows@, (#[trigger] requests@[k])@),
        decreases requests.len() - i,
    {
        match resolve_one(rows, &requests[i]) {
            Ok(_) => {},
            Err(e) => {
                return Some(e);
            },
        }
        i = i + 1;
    }
    None
}

/// The ids that the requests name, each a full id that some row has or a key
/// that exactly one row has.
pub fn resolve_ids(rows: &[Row], requests: &[String]) -> (ids: Vec<String>)
    requires
        requests_ok(rows@, requests@),
    ensures
        ids@.len() == requests@.len(),
        forall|k: int| 0 <= k < requests@.len() ==> (#[trigger] ids@[k])@ == request_id(rows@, requests@[k]@),
{
    let mut ids: Vec<String> = Vec::new();
    let mut i: usize = 0;
    while i < requests.len()
        invariant
            i <= requests@.len(),
            requests_ok(rows@, requests@),
            ids@.len() == i,
            forall|k: int| 0 <= k < i ==> (#[trigger] ids@[k])@ == request_id(rows@, requests@[k]@),
        decreases requests.len() - i,
    {
        assert(request_ok(rows@, requests@[i as int]@));
        match resolve_one(rows, &requests[i]) {
            Ok(id) => {
                ids.push(id);
            },
            Err(_) => {
                return vstd::pervasive::unreached();
            },
        }
        i = i + 1;
    }
    ids
}

/// Listing without the nightly or section filter keeps every row, in order.
pub proof fn lemma_unfiltered_listing_keeps_rows(rows: Seq<Row>)
    ensures
        selected_rows(rows, false, None) == rows,
    decreases rows.len(),
{
    reveal(Seq::filter);
    if rows.len() > 0 {
        lemma_unfiltered_listing_keeps_rows(rows.drop_last());
        assert(rows.drop_last().push(rows.last()) =~= rows);
    }
}

/// Every listed row is one of the rows, is nightly where only nightly rows
/// were asked for, and is in the section where one was given.
pub proof fn lemma_listed_rows_pass_filters(
    rows: Seq<Row>,
    nightly_only: bool,
    section: Option<Seq<char>>,
    i: int,
)
    requires
        0 <= i < selected_rows(rows, nightly_only, section).len(),
    ensures
        rows.contains(selected_rows(rows, nightly_only, section)[i]),
        nightly_only ==> selected_rows(rows, nightly_only, section)[i].nightly,
        section matches Some(s) ==> selected_rows(rows, nightly_only, section)[i].section@ == s,
{
    let pred = |row: Row| row_selected(row, nightly_only, section);
    let listed = rows.filter(pred);
    rows.lemma_filter_pred(pred, i);
    assert(listed.contains(listed[i]));
    rows.lemma_filter_contains_rev(pred, listed[i]);
}

proof fn lemma_filter_twice(
    s: Seq<Row>,
    p: spec_fn(Row) -> bool,
    q: spec_fn(Row) -> bool,
    pq: spec_fn(Row) -> bool,
)
    requires
        forall|r: Row| #[trigger] pq(r) == (p(r) && q(r)),
    ensures
        s.filter(p).filter(q) == s.filter(pq),
    decreases s.len(),
{
    reveal(Seq::filter);
    if s.len() > 0 {
        lemma_filter_twice(s.drop_last(), p, q, pq);
        let x = s.last();
        if p(x) {
            assert(s.filter(p) == s.drop_last().filter(p).push(x));
            assert(s.filter(p).drop_last() =~= s.drop_last().filter(p));
        } else {
            assert(s.filter(p) == s.drop_last().filter(p));
        }
        assert(pq(x) == (p(x) && q(x)));
    }
}

/// The nightly listing is the full listing with the rows that are not
/// nightly taken out: a subsequence of it, in the same order.
pub proof fn lemma_nightly_listing_within_full(rows: Seq<Row>, section: Option<Seq<char>>)
    ensures
        selected_rows(rows, true, section) == selected_rows(rows, false, section).filter(|r: Row| r.nightly),
{
    lemma_filter_twice(
        rows,
        |r: Row| row_selected(r, false, section),
        |r: Row| r.nightly,
        |r: Row| row_selected(r, true, section),
    );
}

/// The listing of one section is the listing of all sections with the rows
/// of the others taken out: a subsequence of it, in the same order.
pub proof fn lemma_section_listing_within_all(rows: Seq<Row>, nightly_only: bool, name: Seq<char>)
    ensures
        selected_rows(rows, nightly_only, Some(name)) == selected_rows(rows, nightly_only, None).filter(
            |r: Row| r.section@ == name,
        ),
{
    lemma_filter_twice(
        rows,
        |r: Row| row_selected(r, nightly_only, None),
        |r: Row| r.section@ == name,
        |r: Row| row_selected(r, nightly_only, Some(name)),
    );
}

proof fn lemma_with_key_member(rows: Seq<Row>, key: Seq<char>, i: int)
    requires
        0 <= i < with_key(rows, key).len(),
    ensures
        exists|k: int| 0 <= k < rows.len() && rows[k] == with_key(rows, key)[i],
    decreases rows.len(),
{
    reveal(Seq::filter);
    let prev = with_key(rows.drop_last(), key);
    if i < prev.len() {
        lemma_with_key_member(rows.drop_last(), key, i);
        let k = choose|k: int| 0 <= k < rows.drop_last().len() && rows.drop_last()[k] == prev[i];
        assert(rows[k] == with_key(rows, key)[i]);
    } else {
        assert(rows[rows.len() - 1] == with_key(rows, key)[i]);
    }
}

/// A request that is accepted resolves to the id of one of the rows.
pub proof fn lemma_resolved_id_names_a_row(rows: Seq<Row>, req: Seq<char>)
    requires
        request_ok(rows, req),
    ensures
        has_id(rows, request_id(rows, req)),
{
    if !req.contains('/') {
        let matching = with_key(rows, req);
        assert(matching.len() == 1);
        let x = matching[0];
        lemma_with_key_member(rows, req, 0);
        let k = choose|k: int| 0 <= k < rows.len() && rows[k] == x;
        assert(rows[k].id@ == request_id(rows, req));
    }
}

/// Whether no two of the first `n` strings are the same.
pub open spec fn distinct_prefix(list: Seq<String>, n: int) -> bool {
    forall|a: int, b: int| 0 <= a < b < n ==> (#[trigger] list[a])@ != (#[trigger] list[b])@
}

/// The position of the first string that repeats an earlier one, or nothing
/// where no string occurs twice.
pub fn first_repeated(list: &[String]) -> (r: Option<usize>)
    ensures
        r is None ==> distinct_prefix(list@, list@.len() as int),
        r matches Some(j) ==> {
            &&& j < list@.len()
            &&& distinct_prefix(list@, j as int)
            &&& exists|a: int| 0 <= a < j && (#[trigger] list@[a])@ == list@[j as int]@
        },
{
    let mut j: usize = 0;
    while j < list.len()
        invariant
            j <= list@.len(),
            distinct_prefix(list@, j as int),
        decreases list.len() - j,
    {
        let mut a: usize = 0;
        while a < j
            invariant
                a <= j < list@.len(),
                distinct_prefix(list@, j as int),
                forall|k: int| 0 <= k < a ==> (#[trigger] list@[k])@ != list@[j as int]@,
            decreases j - a,
        {
            if str_eq(list[a].as_str(), list[j].as_str()) {
                assert(list@[a as int]@ == list@[j as int]@);
                return Some(j);
            }
            a = a + 1;
        }
        assert forall|x: int, y: int| 0 <= x < y < j + 1 implies (#[trigger] list@[x])@ != (
        #[trigger] list@[y])@ by {
            if y < j {
            } else {
                assert(list@[x]@ != list@[j as int]@);
            }
        }
        j = j + 1;
    }
    None
}

/// The ids of the rows, in their order.
pub fn row_ids(rows: &[Row]) -> (ids: Vec<String>)
    ensures
        ids@.len() == rows@.len(),
        forall|k: int| 0 <= k < rows@.len() ==> (#[trigger] ids@[k]) == rows@[k].id,
{
    let mut ids: Vec<String> = Vec::new();
    let mut i: usize = 0;
    while i < rows.len()
        invariant
            i <= rows@.len(),
            ids@.len() == i,
            forall|k: int| 0 <= k < i ==> (#[trigger] ids@[k]) == rows@[k].id,
        decreases rows.len() - i,
    {
        ids.push(rows[i].id.clone());
        i = i + 1;
    }
    ids
}

} // verus!
