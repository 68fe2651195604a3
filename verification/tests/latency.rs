use napkin_math::cli::latency::{
    latency_unit, sample_of, measure_samples, warm_up, time_batch, Probe, linear_bucket_bounds, linear_bucket_counts, make_probe, next_value, parse_args, parse_size, shuffle,
    sorted, subtract_overhead, uses_log_scale, xorshift64, ArgError, Config, LatencyUnit,
    MemoryRandomProbe, ParsedArgs, ProbeError, ProbeKind, ProbePlan, Setting,
};
use napkin_math::text::IntErrorKind;

fn args(v: &[&str]) -> Vec<String> {
    v.iter().map(|s| s.to_string()).collect()
}

fn chars(s: &str) -> Vec<char> {
    s.chars().collect()
}

fn run_config(v: &[&str]) -> Config {
    match parse_args(&args(v)) {
        Ok(ParsedArgs::Run(c)) => c,
        other => panic!("unexpected {:?}", other),
    }
}

#[test]
fn defaults_without_arguments() {
    let c = run_config(&[]);
    assert_eq!(c.probe, "syscall_getpid");
    assert_eq!(c.samples, 100_000);
    assert_eq!(c.warmup_samples, 10_000);
    assert_eq!(c.batch, None);
    assert_eq!(c.buckets, 32);
    assert_eq!(c.csv, None);
    assert_eq!(c.size_bytes, None);
    let d = Config::default();
    assert_eq!(d.probe, "syscall_getpid");
}

#[test]
fn options_with_separate_values() {
    let c = run_config(&[
        "--probe", "memory_random", "--samples", "500", "--warmup-samples", "7", "--batch", "1024",
        "--buckets", "8", "--csv", "target/x.csv", "--size", "256m",
    ]);
    assert_eq!(c.probe, "memory_random");
    assert_eq!(c.samples, 500);
    assert_eq!(c.warmup_samples, 7);
    assert_eq!(c.batch, Some(1024));
    assert_eq!(c.buckets, 8);
    assert_eq!(c.csv.as_deref(), Some("target/x.csv"));
    assert_eq!(c.size_bytes, Some(256 * 1024 * 1024));
}

#[test]
fn options_with_equals_values() {
    let c = run_config(&[
        "--probe=tcp_echo", "--samples=50000", "--warmup-samples=0", "--batch=1", "--buckets=16",
        "--csv=out.csv", "--size=1",
    ]);
    assert_eq!(c.probe, "tcp_echo");
    assert_eq!(c.samples, 50000);
    assert_eq!(c.warmup_samples, 0);
    assert_eq!(c.batch, Some(1));
    assert_eq!(c.buckets, 16);
    assert_eq!(c.csv.as_deref(), Some("out.csv"));
    assert_eq!(c.size_bytes, Some(1));
}

#[test]
fn later_options_override_earlier() {
    let c = run_config(&["--samples", "5", "--samples=9"]);
    assert_eq!(c.samples, 9);
}

#[test]
fn help_and_list_stop_parsing() {
    assert!(matches!(parse_args(&args(&["-h"])), Ok(ParsedArgs::Help)));
    assert!(matches!(parse_args(&args(&["--help", "--bogus"])), Ok(ParsedArgs::Help)));
    assert!(matches!(parse_args(&args(&["--list"])), Ok(ParsedArgs::List)));
    assert!(matches!(
        parse_args(&args(&["--bogus", "--help"])),
        Err(ArgError::UnknownArgument(a)) if a == "--bogus"
    ));
}

#[test]
fn refusals() {
    assert!(matches!(
        parse_args(&args(&["--samples"])),
        Err(ArgError::MissingValue(Setting::Samples))
    ));
    assert!(matches!(
        parse_args(&args(&["--samples", "ten"])),
        Err(ArgError::InvalidNumber(IntErrorKind::InvalidDigit))
    ));
    assert!(matches!(
        parse_args(&args(&["--batch="])),
        Err(ArgError::InvalidNumber(IntErrorKind::Empty))
    ));
    assert!(matches!(parse_args(&args(&["--samples", "0"])), Err(ArgError::ZeroSamples)));
    assert!(matches!(parse_args(&args(&["--buckets=0"])), Err(ArgError::ZeroBuckets)));
    assert!(matches!(parse_args(&args(&["--batch", "0"])), Err(ArgError::ZeroBatch)));
    assert!(matches!(
        parse_args(&args(&["--size", "12q"])),
        Err(ArgError::InvalidNumber(IntErrorKind::InvalidDigit))
    ));
    assert!(matches!(
        parse_args(&args(&["probe"])),
        Err(ArgError::UnknownArgument(a)) if a == "probe"
    ));
}

#[test]
fn next_value_takes_following_argument() {
    let a = args(&["--csv", "x.csv"]);
    assert_eq!(next_value(&a, 1, Setting::Csv).unwrap(), "x.csv");
    assert!(matches!(next_value(&a, 2, Setting::Csv), Err(ArgError::MissingValue(Setting::Csv))));
}

#[test]
fn parse_size_suffixes() {
    assert_eq!(parse_size("64m"), Ok(64 * 1024 * 1024));
    assert_eq!(parse_size(" 8K "), Ok(8192));
    assert_eq!(parse_size("1gib"), Ok(1024 * 1024 * 1024));
    assert_eq!(parse_size("2KB"), Ok(2048));
    assert_eq!(parse_size("3mib"), Ok(3 * 1024 * 1024));
    assert_eq!(parse_size("2gb"), Ok(2 * 1024 * 1024 * 1024));
    assert_eq!(parse_size("4g"), Ok(4 * 1024 * 1024 * 1024));
    assert_eq!(parse_size("100"), Ok(100));
    assert_eq!(parse_size("+5k"), Ok(5 * 1024));
    assert_eq!(parse_size("m"), Err(IntErrorKind::Empty));
    assert_eq!(parse_size(""), Err(IntErrorKind::Empty));
    assert_eq!(parse_size("x1m"), Err(IntErrorKind::InvalidDigit));
    assert_eq!(parse_size("-1"), Err(IntErrorKind::InvalidDigit));
    assert_eq!(parse_size("99999999999999999999"), Err(IntErrorKind::PosOverflow));
}

#[test]
fn parse_size_refuses_sizes_past_usize() {
    let big = format!("{}k", usize::MAX / 1024 + 1);
    assert_eq!(parse_size(&big), Err(IntErrorKind::PosOverflow));
    let fits = format!("{}k", usize::MAX / 1024);
    assert_eq!(parse_size(&fits), Ok(usize::MAX / 1024 * 1024));
}

#[test]
fn xorshift64_values() {
    assert_eq!(xorshift64(1), 1082269761);
    assert_eq!(xorshift64(0), 0);
}

#[test]
fn shuffle_is_deterministic_permutation() {
    let mut v: Vec<usize> = (0..5).collect();
    shuffle(&mut v);
    assert_eq!(v, vec![1, 3, 0, 2, 4]);
    let mut w: Vec<usize> = (0..4).collect();
    shuffle(&mut w);
    assert_eq!(w, vec![3, 2, 0, 1]);
    let mut one = vec![9usize];
    shuffle(&mut one);
    assert_eq!(one, vec![9]);
    let mut big: Vec<usize> = (0..1000).collect();
    shuffle(&mut big);
    let mut back = big.clone();
    back.sort();
    assert_eq!(back, (0..1000).collect::<Vec<_>>());
}

#[test]
fn memory_probe_chases_a_single_cycle() {
    let word = std::mem::size_of::<usize>();
    let mut p = MemoryRandomProbe::new(4 * word).unwrap();
    let walk: Vec<usize> = (0..8).map(|_| p.step()).collect();
    assert_eq!(walk, vec![2, 0, 1, 3, 2, 0, 1, 3]);
    let mut q = MemoryRandomProbe::new(2 * word).unwrap();
    assert_eq!(q.step(), 1);
    assert_eq!(q.step(), 0);
}

#[test]
fn memory_probe_visits_every_entry() {
    let word = std::mem::size_of::<usize>();
    let n = 4096;
    let mut p = MemoryRandomProbe::new(n * word).unwrap();
    let mut seen = vec![false; n];
    for _ in 0..n {
        let i = p.step();
        assert!(!seen[i]);
        seen[i] = true;
    }
    assert!(seen.iter().all(|s| *s));
}

#[test]
fn memory_probe_refuses_tiny_sizes() {
    let word = std::mem::size_of::<usize>();
    assert!(matches!(MemoryRandomProbe::new(2 * word - 1), Err(ProbeError::MemorySizeTooSmall)));
    assert!(matches!(MemoryRandomProbe::new(0), Err(ProbeError::MemorySizeTooSmall)));
}

#[test]
fn make_probe_selects_by_name() {
    let mut c = Config::default();
    assert!(matches!(make_probe(&c), Ok(ProbePlan::SyscallGetpid)));
    c.probe = "getpid".into();
    assert!(matches!(make_probe(&c), Ok(ProbePlan::SyscallGetpid)));
    c.probe = "stat".into();
    assert!(matches!(make_probe(&c), Ok(ProbePlan::StatTmp)));
    c.probe = "random_memory".into();
    c.size_bytes = Some(1024);
    assert!(matches!(make_probe(&c), Ok(ProbePlan::MemoryRandom(_))));
    c.size_bytes = Some(1);
    assert!(matches!(make_probe(&c), Err(ProbeError::MemorySizeTooSmall)));
    c.probe = "tcp_echo".into();
    c.size_bytes = None;
    assert!(matches!(make_probe(&c), Ok(ProbePlan::TcpEcho(1))));
    c.size_bytes = Some(0);
    assert!(matches!(make_probe(&c), Err(ProbeError::TcpSizeZero)));
    c.probe = "bogus".into();
    assert!(matches!(make_probe(&c), Err(ProbeError::UnknownProbe(n)) if n == "bogus"));
}

#[test]
fn probe_names_and_batches() {
    assert_eq!(ProbeKind::Noop.name(), "noop");
    assert_eq!(ProbeKind::Noop.default_batch(), 1000);
    assert_eq!(ProbeKind::SyscallGetpid.name(), "syscall_getpid");
    assert_eq!(ProbeKind::SyscallGetpid.default_batch(), 256);
    assert_eq!(ProbeKind::StatTmp.default_batch(), 1);
    assert_eq!(ProbeKind::MemoryRandom.name(), "memory_random");
    assert_eq!(ProbeKind::MemoryRandom.default_batch(), 1024);
    assert_eq!(ProbeKind::TcpEcho.name(), "tcp_echo");
    assert_eq!(ProbeKind::TcpEcho.default_batch(), 1);
}

#[test]
fn overhead_subtraction_saturates() {
    assert_eq!(subtract_overhead(&[10, 5, 3, 100], 5), vec![5, 0, 0, 95]);
    assert!(subtract_overhead(&[], 5).is_empty());
}

#[test]
fn sorted_samples() {
    assert_eq!(sorted(&[5, 1, 4, 1, 9]), vec![1, 1, 4, 5, 9]);
    assert!(sorted(&[]).is_empty());
}

#[test]
fn latency_units() {
    assert_eq!(latency_unit(999), LatencyUnit::Nanos);
    assert_eq!(latency_unit(1_000), LatencyUnit::Micros);
    assert_eq!(latency_unit(999_999), LatencyUnit::Micros);
    assert_eq!(latency_unit(1_000_000), LatencyUnit::Millis);
    assert_eq!(latency_unit(1_000_000_000), LatencyUnit::Seconds);
}

#[test]
fn log_scale_when_spread_exceeds_hundredfold() {
    assert!(uses_log_scale(10, 1011));
    assert!(!uses_log_scale(10, 1009));
    assert!(!uses_log_scale(0, 1_000_000));
    assert!(uses_log_scale(1, 102));
}

#[test]
fn linear_buckets_count_every_sample() {
    let samples = [10u64, 11, 12, 15, 19, 20, 40];
    let counts = linear_bucket_counts(&samples, 10, 5, 3);
    assert_eq!(counts, vec![3, 2, 2]);
    assert_eq!(counts.iter().sum::<usize>(), samples.len());
    assert_eq!(linear_bucket_counts(&[], 0, 1, 2), vec![0, 0]);
}

#[test]
fn linear_bucket_bounds_cut_at_max() {
    assert_eq!(linear_bucket_bounds(100, 130, 8, 0), (100, 107));
    assert_eq!(linear_bucket_bounds(100, 130, 8, 3), (124, 130));
    assert_eq!(linear_bucket_bounds(5, 5, 1, 0), (5, 5));
    assert_eq!(linear_bucket_bounds(u64::MAX - 1, u64::MAX, 4, 1), (2, 5));
}

#[test]
fn parse_size_ignores_case() {
    for s in ["64M", "8KiB", " 1GB", "12", "Xk", "3Mb"] {
        assert_eq!(parse_size(s), parse_size(&s.to_ascii_lowercase()));
    }
    assert_eq!(parse_size("3MiB"), Ok(3 * 1024 * 1024));
}

#[test]
fn sample_is_time_per_operation() {
    assert_eq!(sample_of(1000, 1), 1000);
    assert_eq!(sample_of(1000, 256), 3);
    assert_eq!(sample_of(255, 256), 0);
    assert_eq!(sample_of((1u128 << 64) + 10, 2), 5);
}

struct Counter {
    calls: usize,
}

impl Probe for Counter {
    fn runs(&self) -> u64 {
        self.calls as u64
    }

    fn name(&self) -> &'static str {
        "counter"
    }

    fn default_batch(&self) -> usize {
        1
    }

    fn run_once(&mut self) {
        self.calls += 1;
    }
}

#[test]
fn sampler_runs_warmup_and_timed_batches() {
    let mut c = Counter { calls: 0 };
    let samples = measure_samples(&mut c, 3, 5, 7);
    assert_eq!(samples.len(), 5);
    assert_eq!(c.calls, (3 + 5) * 7);
    let mut d = Counter { calls: 0 };
    warm_up(&mut d, 4, 6);
    assert_eq!(d.calls, 24);
    time_batch(&mut d, 10);
    assert_eq!(d.calls, 34);
    let mut e = Counter { calls: 0 };
    assert!(measure_samples(&mut e, 2, 0, 0).is_empty());
    assert_eq!(e.calls, 0);
}

#[test]
fn memory_probe_is_back_after_a_full_cycle() {
    let word = std::mem::size_of::<usize>();
    let n = 64;
    let mut p = MemoryRandomProbe::new(n * word).unwrap();
    let walk: Vec<usize> = (0..n).map(|_| p.step()).collect();
    let start = walk[n - 1];
    assert!(!walk[..n - 1].contains(&start));
    let mut q = MemoryRandomProbe::new(n * word).unwrap();
    for _ in 0..n {
        q.run_once();
    }
    assert_eq!(q.step(), walk[0]);
    assert_eq!(q.name(), "memory_random");
    assert_eq!(q.default_batch(), 1024);
}
