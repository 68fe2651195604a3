use napkin_math::benchmarks::manifest::{ManifestError, Row};
use napkin_math::cli::cpu::{
    clean_cpu_name, cpu_model_from_cpuinfo, cpu_model_from_lscpu, cpu_processor_from_cpuinfo,
};
use napkin_math::cli::daily::{approx_year, check_command, parse_command, plan_rows, CliCommand, CliError, RunError, Subcommand};
use napkin_math::cli::readme::parse_section;

fn args(v: &[&str]) -> Vec<String> {
    v.iter().map(|s| s.to_string()).collect()
}

fn row(id: &str, key: &str, section: &str, nightly: bool) -> Row {
    Row {
        id: id.to_string(),
        key: key.to_string(),
        section: section.to_string(),
        nightly,
        path: format!("benchmarks/{}.toml", id),
    }
}

fn rows() -> Vec<Row> {
    vec![
        row("memory/random_read", "random_read", "memory", true),
        row("memory/seq_read_single", "seq_read_single", "memory", true),
        row("syscall/getpid", "getpid", "syscall", false),
        row("ssd/random_read", "random_read", "ssd", false),
        row("ssd/seq_read", "seq_read", "ssd", true),
    ]
}

fn ids(rows: &[Row]) -> Vec<String> {
    rows.iter().map(|r| r.id.clone()).collect()
}

/// The command line as the front door reads it: checked, then parsed.
fn read_command(a: &[String]) -> Result<CliCommand, CliError> {
    check_command(a)?;
    Ok(parse_command(a))
}

#[test]
fn no_arguments_is_nightly() {
    assert!(matches!(read_command(&[]), Ok(CliCommand::Nightly)));
}

#[test]
fn list_flags() {
    match read_command(&args(&["list", "--nightly", "--section", "memory"])) {
        Ok(CliCommand::List { nightly_only, section }) => {
            assert!(nightly_only);
            assert_eq!(section.as_deref(), Some("memory"));
        }
        other => panic!("unexpected {:?}", other),
    }
    match read_command(&args(&["list"])) {
        Ok(CliCommand::List { nightly_only, section }) => {
            assert!(!nightly_only);
            assert_eq!(section, None);
        }
        other => panic!("unexpected {:?}", other),
    }
}

#[test]
fn list_refusals() {
    assert!(matches!(
        read_command(&args(&["list", "--section"])),
        Err(CliError::MissingSectionValue(Subcommand::List))
    ));
    assert!(matches!(
        read_command(&args(&["list", "--csv"])),
        Err(CliError::UnknownFlag(f)) if f == "--csv"
    ));
}

#[test]
fn run_flags_and_ids() {
    match read_command(&args(&["run", "memory/random_read", "--csv", "getpid", "--section", "a", "--section", "b"])) {
        Ok(CliCommand::Run { ids, section, write_csv }) => {
            assert_eq!(ids, vec!["memory/random_read", "getpid"]);
            assert_eq!(section.as_deref(), Some("b"));
            assert!(write_csv);
        }
        other => panic!("unexpected {:?}", other),
    }
    assert!(matches!(
        read_command(&args(&["run", "--section"])),
        Err(CliError::MissingSectionValue(Subcommand::Run))
    ));
}

#[test]
fn unknown_subcommand() {
    assert!(matches!(
        read_command(&args(&["bench"])),
        Err(CliError::UnknownSubcommand(c)) if c == "bench"
    ));
}

#[test]
fn plan_by_ids_keeps_manifest_order() {
    let r = rows();
    let out = plan_rows(&r, &args(&["seq_read", "memory/random_read"]), None, false).unwrap();
    assert_eq!(ids(&out), vec!["memory/random_read", "ssd/seq_read"]);
}

#[test]
fn plan_by_ids_refuses_bad_request() {
    let r = rows();
    match plan_rows(&r, &args(&["random_read"]), None, false) {
        Err(RunError::Manifest(ManifestError::AmbiguousKey(k))) => assert_eq!(k, "random_read"),
        other => panic!("unexpected {:?}", other),
    }
}

#[test]
fn plan_by_section_and_nightly() {
    let r = rows();
    assert_eq!(
        ids(&plan_rows(&r, &[], Some("ssd"), false).unwrap()),
        vec!["ssd/random_read", "ssd/seq_read"]
    );
    assert_eq!(
        ids(&plan_rows(&r, &[], None, true).unwrap()),
        vec!["memory/random_read", "memory/seq_read_single", "ssd/seq_read"]
    );
    assert!(matches!(plan_rows(&r, &[], None, false), Err(RunError::NothingSelected)));
    assert!(matches!(plan_rows(&r, &[], Some("cpu"), false), Err(RunError::NoRowsMatched)));
    assert!(matches!(plan_rows(&[], &[], None, true), Err(RunError::NoRowsMatched)));
}

#[test]
fn cpu_names_are_cleaned() {
    assert_eq!(
        clean_cpu_name("Intel(R) Xeon(R) Platinum 8481C CPU @ 2.70GHz"),
        "Intel Xeon Platinum 8481C"
    );
    assert_eq!(clean_cpu_name("AMD EPYC 9B14 96-Core Processor"), "AMD EPYC 9B14 96-Core");
    assert_eq!(clean_cpu_name("  Neoverse-V2  "), "Neoverse-V2");
    assert_eq!(clean_cpu_name("Intel(TM)   i7(tm)  "), "Intel i7");
    assert_eq!(clean_cpu_name(""), "");
}

#[test]
fn cpuinfo_model_line() {
    let text = "processor\t: 0\nvendor_id\t: GenuineIntel\nmodel name\t: Intel(R) Xeon(R) CPU @ 2.20GHz\nmodel name\t: other\n";
    assert_eq!(cpu_model_from_cpuinfo(text), Some(Some("Intel Xeon".to_string())));
    assert_eq!(cpu_model_from_cpuinfo("processor\t: 0\n"), None);
    assert_eq!(cpu_model_from_cpuinfo("model name without colon\nmodel name: x\n"), Some(None));
    assert_eq!(
        cpu_model_from_cpuinfo("model name\t: AMD EPYC 7B13 64-Core Processor\r\n"),
        Some(Some("AMD EPYC 7B13 64-Core".to_string()))
    );
}

#[test]
fn lscpu_model_line() {
    let text = "Architecture:            aarch64\nModel name:            Neoverse-V2\nStepping: r0p1\n";
    assert_eq!(cpu_model_from_lscpu(text).as_deref(), Some("Neoverse-V2"));
    assert_eq!(cpu_model_from_lscpu("Architecture: x86_64"), None);
}

#[test]
fn processor_line_for_sampler() {
    assert_eq!(
        cpu_processor_from_cpuinfo("processor : 0\nHardware\t: BCM2835\n"),
        Some(Some("BCM2835".to_string()))
    );
    assert_eq!(
        cpu_processor_from_cpuinfo("model name\t: Intel(R) Xeon(R) CPU @ 2.20GHz\n"),
        Some(Some("Intel(R) Xeon(R) CPU @ 2.20GHz".to_string()))
    );
    assert_eq!(cpu_processor_from_cpuinfo("Hardware"), Some(None));
    assert_eq!(cpu_processor_from_cpuinfo(""), None);
}

#[test]
fn fallback_year() {
    assert_eq!(approx_year(0), 1970);
    assert_eq!(approx_year(1_700_000_000), 2023);
}

#[test]
fn readme_section_argument() {
    assert_eq!(parse_section(&[]), None);
    assert_eq!(parse_section(&args(&["memory"])), Some("memory"));
    assert_eq!(parse_section(&args(&["--section", "ssd"])), Some("ssd"));
    assert_eq!(parse_section(&args(&["--section"])), None);
}
