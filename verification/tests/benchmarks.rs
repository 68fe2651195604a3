use napkin_math::benchmarks::compression::{make_compressible_data, CompressBench, DecompressBench, SENTENCE};
use napkin_math::benchmarks::hash::{counting_bytes, crc32, sha256, siphash};
use napkin_math::benchmarks::memory::{
    cache_lines, counting_words, counting_words_range, fill_pass, next_position, random_order, read_pass,
    shuffle_randomly, thread_ranges, write_pass, WRITE_PATTERN,
};
use napkin_math::benchmarks::readme::plan;
use napkin_math::benchmarks::sort::random_words;
use napkin_math::benchmarks::ssd::page_offsets;
use napkin_math::text::{parse_usize, IntErrorKind};

#[test]
fn compressible_data_repeats_the_sentence() {
    let d = make_compressible_data(50);
    assert_eq!(d.len(), 50);
    assert_eq!(&d[..44], b"the quick brown fox jumps over the lazy dog ");
    assert_eq!(&d[44..], b"the qu");
    assert_eq!(&SENTENCE[..], b"the quick brown fox jumps over the lazy dog ");
    assert!(make_compressible_data(0).is_empty());
}

#[test]
fn compress_then_decompress_gives_data_back() {
    let data = make_compressible_data(64 * 1024);
    let c = CompressBench::new(data.clone());
    let mut out = c.output_buffer();
    assert_eq!(out.len(), 20 + data.len() * 110 / 100);
    let n = c.run(&mut out);
    assert!(n < data.len() / 2);
    assert_eq!(&out[..n], &lz4_flex::block::compress(&data)[..]);
    let d = DecompressBench::new(&data);
    let mut back = d.output_buffer();
    assert_eq!(d.run(&mut back), data.len());
    assert_eq!(back, data);
}

#[test]
fn hashes_of_known_inputs() {
    assert_eq!(crc32(b"123456789"), 0xCBF4_3926);
    assert_eq!(crc32(b""), 0);
    let d = sha256(b"abc");
    assert_eq!(d.len(), 32);
    assert_eq!(d[0], 0xba);
    assert_eq!(d[31], 0xad);
    let data = counting_bytes(64);
    assert_eq!(siphash(&data), siphash(&data));
}

#[test]
fn counting_bytes_wrap() {
    let b = counting_bytes(300);
    assert_eq!(b.len(), 300);
    assert_eq!(b[0], 0);
    assert_eq!(b[63], 63);
    assert_eq!(b[256], 0);
    assert_eq!(b[299], 43);
}

#[test]
fn read_and_write_passes() {
    let v = counting_words(5);
    assert_eq!(v, vec![0, 1, 2, 3, 4]);
    assert_eq!(read_pass(&v), 10);
    assert_eq!(read_pass(&[u64::MAX, 2]), 1);
    let mut w = vec![1u64, u64::MAX];
    write_pass(&mut w);
    assert_eq!(w, vec![2, 0]);
    assert_eq!(counting_words_range(3, 6), vec![3, 4, 5]);
    assert!(counting_words_range(6, 6).is_empty());
    assert!(counting_words_range(6, 3).is_empty());
}

#[test]
fn thread_slices_cover_buffer() {
    assert_eq!(thread_ranges(10, 3), vec![(0, 3), (3, 6), (6, 10)]);
    assert_eq!(thread_ranges(10, 1), vec![(0, 10)]);
    assert_eq!(thread_ranges(2, 4), vec![(0, 0), (0, 0), (0, 0), (0, 2)]);
}

#[test]
fn cache_line_blocks() {
    let l = cache_lines(3);
    assert_eq!(l.len(), 3);
    assert_eq!(l[2], [2u64; 8]);
}

#[test]
fn random_order_is_permutation() {
    let mut o = random_order(1000);
    o.sort();
    assert_eq!(o, (0..1000).collect::<Vec<_>>());
    let mut v = vec![5u64, 1, 5, 9];
    shuffle_randomly(&mut v);
    v.sort();
    assert_eq!(v, vec![1, 5, 5, 9]);
    assert_eq!(random_words(17).len(), 17);
}

#[test]
fn ssd_offsets_stay_inside_file() {
    let o = page_offsets(40960, 4096, 8192);
    assert_eq!(o, (0..8u64).map(|i| i * 4096).collect::<Vec<_>>());
    for off in &o {
        assert!(off + 8192 <= 40960);
    }
    assert!(page_offsets(8192, 4096, 8192).is_empty());
}

#[test]
fn readme_plan_drops_sections_with_nothing_on() {
    let table = vec![vec![true, true], vec![false, false], vec![false, true], vec![]];
    let p = plan(&table);
    assert_eq!(p.len(), 2);
    assert_eq!(p[0].section, 0);
    assert_eq!(p[0].benches, vec![0, 1]);
    assert_eq!(p[1].section, 2);
    assert_eq!(p[1].benches, vec![1]);
}

#[test]
fn decimal_parsing() {
    let c = |s: &str| s.chars().collect::<Vec<char>>();
    assert_eq!(parse_usize(&c("42")), Ok(42));
    assert_eq!(parse_usize(&c("+7")), Ok(7));
    assert_eq!(parse_usize(&c("")), Err(IntErrorKind::Empty));
    assert_eq!(parse_usize(&c("+")), Err(IntErrorKind::InvalidDigit));
    assert_eq!(parse_usize(&c("-7")), Err(IntErrorKind::InvalidDigit));
    assert_eq!(parse_usize(&c("12a")), Err(IntErrorKind::InvalidDigit));
    assert_eq!(parse_usize(&c(&format!("{}0", usize::MAX))), Err(IntErrorKind::PosOverflow));
    assert_eq!(parse_usize(&c(&usize::MAX.to_string())), Ok(usize::MAX));
    for s in ["0", "00", "123", "+99", "-0", " 1", "1 ", "99999999999999999999999", "٣"] {
        assert_eq!(parse_usize(&c(s)).ok(), s.parse::<usize>().ok(), "{}", s);
    }
}

#[test]
fn fill_pass_stores_the_pattern() {
    let mut w = counting_words(5);
    fill_pass(&mut w, WRITE_PATTERN);
    assert_eq!(w, vec![0x5a5a_5a5a_5a5a_5a5au64; 5]);
    let mut empty: Vec<u64> = Vec::new();
    fill_pass(&mut empty, 7);
    assert!(empty.is_empty());
}

#[test]
fn positions_go_round() {
    assert_eq!(next_position(0, 3), 1);
    assert_eq!(next_position(1, 3), 2);
    assert_eq!(next_position(2, 3), 0);
    assert_eq!(next_position(5, 3), 0);
}
