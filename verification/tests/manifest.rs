use napkin_math::benchmarks::manifest::{
    first_repeated, list_rows, load_rows, parse_row, resolve_ids, entry_refusal, manifest_refusal, request_refusal, row_id, expected_section, row_ids, section_rank,
    sections, sort_rows, is_row_file, ManifestEntry, ManifestError, Row, RowDef,
};

fn entry(rel: &str, key: &str, section: &str, nightly: bool) -> ManifestEntry {
    ManifestEntry {
        rel: rel.to_string(),
        path: format!("benchmarks/{}", rel),
        def: Ok(RowDef { key: key.to_string(), section: section.to_string(), nightly }),
    }
}

fn registered() -> Vec<String> {
    [
        "memory/seq_read_single",
        "memory/random_read",
        "syscall/getpid",
        "hash/crypto",
        "cpu/sort_u64",
        "ssd/random_read",
        "ssd/seq_read",
        "network/tcp_echo",
        "custom/thing",
    ]
    .iter()
    .map(|s| s.to_string())
    .collect()
}

fn row(id: &str, key: &str, section: &str, nightly: bool) -> Row {
    Row {
        id: id.to_string(),
        key: key.to_string(),
        section: section.to_string(),
        nightly,
        path: format!("benchmarks/{}.toml", id),
    }
}

fn sample_rows() -> Vec<Row> {
    vec![
        row("memory/random_read", "random_read", "memory", true),
        row("memory/seq_read_single", "seq_read_single", "memory", true),
        row("syscall/getpid", "getpid", "syscall", false),
        row("ssd/random_read", "random_read", "ssd", false),
        row("ssd/seq_read", "seq_read", "ssd", true),
    ]
}

fn ids(rows: &[Row]) -> Vec<String> {
    rows.iter().map(|r| r.id.clone()).collect()
}

#[test]
fn section_rank_follows_listing_order() {
    assert_eq!(section_rank("memory"), 0);
    assert_eq!(section_rank("syscall"), 1);
    assert_eq!(section_rank("hash"), 2);
    assert_eq!(section_rank("cpu"), 3);
    assert_eq!(section_rank("serialization"), 4);
    assert_eq!(section_rank("ssd"), 5);
    assert_eq!(section_rank("network"), 6);
    assert_eq!(section_rank("custom"), 7);
    assert_eq!(section_rank(""), 7);
}

#[test]
fn row_id_drops_extension_and_backslashes() {
    assert_eq!(row_id("memory/random_read.toml"), "memory/random_read");
    assert_eq!(row_id("memory\\random_read.toml"), "memory/random_read");
    assert_eq!(row_id("top.toml"), "top");
    assert_eq!(row_id("a/b/c.toml"), "a/b/c");
}

#[test]
fn expected_section_is_parent_directory() {
    assert_eq!(expected_section("memory/random_read.toml"), "memory");
    assert_eq!(expected_section("a/b/c.toml"), "a/b");
    assert_eq!(expected_section("top.toml"), "");
}

#[test]
fn parse_row_accepts_registered_row() {
    let e = entry("memory/random_read.toml", "random_read", "memory", true);
    assert!(entry_refusal(&e, &registered()).is_none());
    let r = parse_row(&e, &registered());
    assert_eq!(r.id, "memory/random_read");
    assert_eq!(r.key, "random_read");
    assert_eq!(r.section, "memory");
    assert!(r.nightly);
    assert_eq!(r.path, "benchmarks/memory/random_read.toml");
}

#[test]
fn parse_row_refuses_section_mismatch() {
    let e = entry("memory/random_read.toml", "random_read", "ssd", true);
    match entry_refusal(&e, &registered()) {
        Some(ManifestError::SectionMismatch { path, section, expected }) => {
            assert_eq!(path, "benchmarks/memory/random_read.toml");
            assert_eq!(section, "ssd");
            assert_eq!(expected, "memory");
        }
        other => panic!("unexpected {:?}", other),
    }
}

#[test]
fn parse_row_refuses_unregistered_id() {
    let e = entry("memory/random_write.toml", "random_write", "memory", true);
    match entry_refusal(&e, &registered()) {
        Some(ManifestError::UnregisteredId { id, .. }) => assert_eq!(id, "memory/random_write"),
        other => panic!("unexpected {:?}", other),
    }
}

#[test]
fn load_rows_orders_by_section_then_id() {
    let entries = vec![
        entry("ssd/seq_read.toml", "seq_read", "ssd", true),
        entry("custom/thing.toml", "thing", "custom", false),
        entry("memory/seq_read_single.toml", "seq_read_single", "memory", true),
        entry("network/tcp_echo.toml", "tcp_echo", "network", false),
        entry("ssd/random_read.toml", "random_read", "ssd", false),
        entry("memory/random_read.toml", "random_read", "memory", true),
        entry("cpu/sort_u64.toml", "sort_u64", "cpu", false),
    ];
    assert!(manifest_refusal(&entries, &registered()).is_none());
    let rows = load_rows(&entries, &registered());
    assert_eq!(
        ids(&rows),
        vec![
            "memory/random_read",
            "memory/seq_read_single",
            "cpu/sort_u64",
            "ssd/random_read",
            "ssd/seq_read",
            "network/tcp_echo",
            "custom/thing",
        ]
    );
}

#[test]
fn load_rows_reports_first_bad_entry() {
    let entries = vec![
        entry("memory/random_read.toml", "random_read", "memory", true),
        entry("memory/bogus.toml", "bogus", "memory", true),
        entry("ssd/seq_read.toml", "seq_read", "cpu", true),
    ];
    match manifest_refusal(&entries, &registered()) {
        Some(ManifestError::UnregisteredId { id, .. }) => assert_eq!(id, "memory/bogus"),
        other => panic!("unexpected {:?}", other),
    }
}

#[test]
fn load_rows_reports_unreadable_file_in_order() {
    let entries = vec![
        entry("memory/random_read.toml", "random_read", "memory", true),
        ManifestEntry {
            rel: "ssd/seq_read.toml".to_string(),
            path: "benchmarks/ssd/seq_read.toml".to_string(),
            def: Err("parse benchmarks/ssd/seq_read.toml: missing field `key`".to_string()),
        },
        entry("memory/bogus.toml", "bogus", "memory", true),
    ];
    match manifest_refusal(&entries, &registered()) {
        Some(ManifestError::Unreadable(m)) => {
            assert_eq!(m, "parse benchmarks/ssd/seq_read.toml: missing field `key`")
        }
        other => panic!("unexpected {:?}", other),
    }
}

#[test]
fn load_rows_of_nothing_is_empty() {
    assert!(manifest_refusal(&[], &registered()).is_none());
    let rows = load_rows(&[], &registered());
    assert!(rows.is_empty());
}

#[test]
fn sort_rows_is_stable_order_of_keys() {
    let rows = vec![
        row("ssd/b", "b", "ssd", true),
        row("memory/z", "z", "memory", true),
        row("memory/a", "a", "memory", true),
    ];
    assert_eq!(ids(&sort_rows(rows)), vec!["memory/a", "memory/z", "ssd/b"]);
}

#[test]
fn list_rows_filters_nightly_and_section() {
    let rows = sample_rows();
    assert_eq!(ids(&list_rows(&rows, false, None)), ids(&rows));
    assert_eq!(
        ids(&list_rows(&rows, true, None)),
        vec!["memory/random_read", "memory/seq_read_single", "ssd/seq_read"]
    );
    assert_eq!(
        ids(&list_rows(&rows, false, Some("ssd"))),
        vec!["ssd/random_read", "ssd/seq_read"]
    );
    assert_eq!(ids(&list_rows(&rows, true, Some("ssd"))), vec!["ssd/seq_read"]);
    assert!(list_rows(&rows, false, Some("network")).is_empty());
}

#[test]
fn sections_group_consecutive_rows() {
    let rows = sample_rows();
    let secs = sections(&rows, false);
    let names: Vec<&str> = secs.iter().map(|s| s.name.as_str()).collect();
    assert_eq!(names, vec!["memory", "syscall", "ssd"]);
    assert_eq!(ids(&secs[0].rows), vec!["memory/random_read", "memory/seq_read_single"]);
    assert_eq!(ids(&secs[1].rows), vec!["syscall/getpid"]);
    assert_eq!(ids(&secs[2].rows), vec!["ssd/random_read", "ssd/seq_read"]);
    let nightly = sections(&rows, true);
    let names: Vec<&str> = nightly.iter().map(|s| s.name.as_str()).collect();
    assert_eq!(names, vec!["memory", "ssd"]);
    assert!(sections(&[], false).is_empty());
}

#[test]
fn resolve_ids_accepts_full_ids_and_unique_keys() {
    let rows = sample_rows();
    let req: Vec<String> = vec!["ssd/random_read".into(), "getpid".into(), "seq_read".into()];
    assert!(request_refusal(&rows, &req).is_none());
    assert_eq!(
        resolve_ids(&rows, &req),
        vec!["ssd/random_read", "syscall/getpid", "ssd/seq_read"]
    );
}

#[test]
fn resolve_ids_refuses_ambiguous_key() {
    let rows = sample_rows();
    let req: Vec<String> = vec!["getpid".into(), "random_read".into()];
    match request_refusal(&rows, &req) {
        Some(ManifestError::AmbiguousKey(k)) => assert_eq!(k, "random_read"),
        other => panic!("unexpected {:?}", other),
    }
}

#[test]
fn resolve_ids_refuses_unknown_id_and_key() {
    let rows = sample_rows();
    match request_refusal(&rows, &["memory/nope".to_string()]) {
        Some(ManifestError::UnknownId(k)) => assert_eq!(k, "memory/nope"),
        other => panic!("unexpected {:?}", other),
    }
    match request_refusal(&rows, &["nope".to_string()]) {
        Some(ManifestError::UnknownKey(k)) => assert_eq!(k, "nope"),
        other => panic!("unexpected {:?}", other),
    }
}

#[test]
fn row_ids_in_order() {
    let rows = sample_rows();
    assert_eq!(row_ids(&rows), ids(&rows));
    assert!(row_ids(&[]).is_empty());
}

#[test]
fn sort_rows_keeps_ties_in_input_order() {
    let mut first = row("memory/same", "first", "memory", true);
    first.path = "benchmarks/one".to_string();
    let mut second = row("memory/same", "second", "memory", false);
    second.path = "benchmarks/two".to_string();
    let rows = vec![
        row("network/tcp_echo", "tcp_echo", "network", true),
        first,
        row("aaa/x", "x", "aaa", true),
        second,
        row("memory/a", "a", "memory", true),
    ];
    let out = sort_rows(rows);
    let keys: Vec<String> = out.iter().map(|r| r.key.clone()).collect();
    assert_eq!(keys, vec!["a", "first", "second", "tcp_echo", "x"]);
}

#[test]
fn row_files_are_toml_files_but_the_template() {
    assert!(is_row_file("random_read.toml"));
    assert!(is_row_file("a.b.toml"));
    assert!(!is_row_file("_template.toml"));
    assert!(!is_row_file(".toml"));
    assert!(!is_row_file("notes.md"));
    assert!(!is_row_file("random_read.tom"));
    assert!(!is_row_file("toml"));
}

#[test]
fn nightly_and_section_listings_are_subsequences() {
    let rows = sample_rows();
    let full = list_rows(&rows, false, None);
    let nightly = list_rows(&rows, true, None);
    let kept: Vec<Row> = full.iter().filter(|r| r.nightly).cloned().collect();
    assert_eq!(ids(&nightly), ids(&kept));
    let ssd = list_rows(&rows, false, Some("ssd"));
    let in_ssd: Vec<Row> = full.iter().filter(|r| r.section == "ssd").cloned().collect();
    assert_eq!(ids(&ssd), ids(&in_ssd));
}

#[test]
fn loaded_rows_have_distinct_ids() {
    let entries = vec![
        entry("ssd/seq_read.toml", "seq_read", "ssd", true),
        entry("memory/random_read.toml", "random_read", "memory", true),
        entry("ssd/random_read.toml", "random_read", "ssd", false),
    ];
    let rows = load_rows(&entries, &registered());
    let mut got = ids(&rows);
    assert_eq!(got, vec!["memory/random_read", "ssd/random_read", "ssd/seq_read"]);
    got.dedup();
    assert_eq!(got.len(), 3);
}

#[test]
fn first_repeated_finds_the_first_repeat() {
    let v = |a: &[&str]| a.iter().map(|s| s.to_string()).collect::<Vec<String>>();
    assert_eq!(first_repeated(&v(&["a", "b", "c"])), None);
    assert_eq!(first_repeated(&v(&["a", "b", "b", "a"])), Some(2));
    assert_eq!(first_repeated(&v(&["a", "b", "c", "a", "b"])), Some(3));
    assert_eq!(first_repeated(&[]), None);
}
