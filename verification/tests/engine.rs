use overlapper::modes::kucherov::KucherovMode;
use overlapper::modes::Mode;
use overlapper::prepare::prepare_maps;
use overlapper::solve::solve;
use overlapper::structs::run_config::{Config, ErrorRate, Maps};
use overlapper::structs::solutions::Orientation;

fn run_config(rate: (u32, u32), thresh: i32, reversals: bool, inclusions: bool) -> Config {
    Config {
        input: String::new(),
        output: String::new(),
        err_rate: ErrorRate::new(rate.0, rate.1).unwrap(),
        thresh,
        worker_threads: 1,
        sorted: true,
        reversals,
        inclusions,
        edit_distance: false,
        verbose: false,
        time: false,
        print: false,
        n_alphabet: false,
        greedy_output: false,
        format_line: false,
        track_progress: false,
        verbosity: 0,
    }
}

fn corpus(reads: &[(&str, &str)], config: &Config) -> Maps {
    let records: Vec<(String, Vec<u8>)> =
        reads.iter().map(|(n, s)| (n.to_string(), s.as_bytes().to_vec())).collect();
    prepare_maps(&records, config).unwrap()
}

type Row = (String, String, char, i32, i32, usize, usize, u32);

fn rows(reads: &[(&str, &str)], config: &Config, s: &str) -> Vec<Row> {
    let maps = corpus(reads, config);
    let mode = Mode::Kucherov(KucherovMode::new(&[s]));
    solve(config, &maps, &mode)
        .iter()
        .map(|s| {
            (
                maps.get_name_for(s.id_a).to_string(),
                maps.get_name_for(s.id_b).to_string(),
                if s.orientation == Orientation::Normal { 'N' } else { 'I' },
                s.overhang_left_a,
                s.overhang_right_b,
                s.overlap_a,
                s.overlap_b,
                s.errors,
            )
        })
        .collect()
}

fn row(a: &str, b: &str, o: char, left: i32, right: i32, overlap: usize, errors: u32) -> Row {
    (a.to_string(), b.to_string(), o, left, right, overlap, overlap, errors)
}

#[test]
fn two_reads_that_overlap_exactly() {
    let reads = [("r1", "ACGTACGTAA"), ("r2", "ACGTAATTTT")];
    let found = rows(&reads, &run_config((0, 1), 5, false, false), "1");
    assert_eq!(found, vec![row("r1", "r2", 'N', 4, 4, 6, 0)]);
}

#[test]
fn equal_reads_with_and_without_inclusions() {
    let reads = [("r1", "AAAA"), ("r2", "AAAA")];
    let without = rows(&reads, &run_config((0, 1), 3, false, false), "1");
    assert_eq!(
        without,
        vec![row("r1", "r2", 'N', 1, 1, 3, 0), row("r2", "r1", 'N', 1, 1, 3, 0)]
    );
    let with = rows(&reads, &run_config((0, 1), 3, false, true), "1");
    assert_eq!(
        with,
        vec![
            row("r1", "r2", 'N', 0, 0, 4, 0),
            row("r1", "r2", 'N', 1, 1, 3, 0),
            row("r2", "r1", 'N', 1, 1, 3, 0)
        ]
    );
}

#[test]
fn chain_of_three_reads() {
    let reads = [("a", "GGGGGACGTC"), ("b", "ACGTCTTTTTCAGCA"), ("c", "CAGCAGGTTT")];
    let found = rows(&reads, &run_config((0, 1), 5, false, false), "1");
    assert_eq!(
        found,
        vec![row("a", "b", 'N', 5, 10, 5, 0), row("b", "c", 'N', 10, 5, 5, 0)]
    );
}

#[test]
fn read_shorter_than_threshold() {
    let reads = [("r1", "ACGTACGTAA")];
    let found = rows(&reads, &run_config((0, 1), 15, false, false), "1");
    assert!(found.is_empty());
}

struct Lcg(u64);

impl Lcg {
    fn next(&mut self, bound: u64) -> u64 {
        self.0 = self.0.wrapping_mul(6364136223846793005).wrapping_add(1442695040888963407);
        (self.0 >> 33) % bound
    }
}

/// Reads cut from one random sequence at random places, with a few symbols
/// changed, so that many of them overlap nearly.
fn random_reads(seed: u64, count: usize) -> Vec<(String, String)> {
    reads_of_lengths(seed, count, 120, 18, 14)
}

/// Reads of `least` symbols and up to `spread` more, cut from a random
/// sequence of `genome_len` symbols.
fn reads_of_lengths(
    seed: u64,
    count: usize,
    genome_len: usize,
    least: usize,
    spread: u64,
) -> Vec<(String, String)> {
    let mut rng = Lcg(seed);
    let letters = ['A', 'C', 'G', 'T'];
    let genome: Vec<char> = (0..genome_len).map(|_| letters[rng.next(4) as usize]).collect();
    let mut reads = Vec::new();
    for i in 0..count {
        let len = least + rng.next(spread) as usize;
        let start = rng.next((genome.len() - len) as u64) as usize;
        let mut read: Vec<char> = genome[start..start + len].to_vec();
        for _ in 0..rng.next(3) {
            let at = rng.next(len as u64) as usize;
            read[at] = letters[rng.next(4) as usize];
        }
        reads.push((format!("read{:03}", i), read.into_iter().collect()));
    }
    reads
}

fn mismatches(x: &[u8], y: &[u8]) -> usize {
    x.iter().zip(y.iter()).filter(|(a, b)| a != b).count()
}

/// The view of an overlap that comes first, whichever view is given.
fn first_view(r: Row) -> Row {
    let other = if r.2 == 'N' {
        (r.1.clone(), r.0.clone(), 'N', -r.3, -r.4, r.6, r.5, r.7)
    } else {
        (r.1.clone(), r.0.clone(), 'I', r.4, r.3, r.6, r.5, r.7)
    };
    if other < r {
        other
    } else {
        r
    }
}

/// All overlaps of the end of one read with the beginning of another,
/// found by trying every pair and every length.
fn brute_force(reads: &[(String, String)], rate: (u32, u32), thresh: usize, reversals: bool) -> Vec<Row> {
    let mut found = Vec::new();
    let turns: &[bool] = if reversals { &[false, true] } else { &[false] };
    for (i, (name_x, read_x)) in reads.iter().enumerate() {
        for (j, (name_y, read_y)) in reads.iter().enumerate() {
            for &turn_x in turns {
                for &turn_y in turns {
                    if i == j && turn_x == turn_y {
                        continue;
                    }
                    let x: Vec<u8> = if turn_x {
                        read_x.bytes().rev().collect()
                    } else {
                        read_x.bytes().collect()
                    };
                    let y: Vec<u8> = if turn_y {
                        read_y.bytes().rev().collect()
                    } else {
                        read_y.bytes().collect()
                    };
                    for len in thresh..x.len().min(y.len()) {
                        let errors = mismatches(&x[x.len() - len..], &y[..len]);
                        if errors as u64 * rate.1 as u64 > rate.0 as u64 * len as u64 {
                            continue;
                        }
                        let over_x = (x.len() - len) as i32;
                        let over_y = (y.len() - len) as i32;
                        let e = errors as u32;
                        let (a, b) = (name_x.clone(), name_y.clone());
                        let r = match (turn_x, turn_y) {
                            (false, false) => (a, b, 'N', over_x, over_y, len, len, e),
                            (false, true) => (a, b, 'I', over_x, over_y, len, len, e),
                            (true, false) => (a, b, 'I', -over_y, -over_x, len, len, e),
                            (true, true) => (b, a, 'N', over_y, over_x, len, len, e),
                        };
                        found.push(first_view(r));
                    }
                }
            }
        }
    }
    found.sort();
    found.dedup();
    found
}

fn compare_with_brute_force(seed: u64, rate: (u32, u32), thresh: i32, s: &str, reversals: bool) {
    compare_reads_with_brute_force(&random_reads(seed, 12), rate, thresh, s, reversals);
}

fn compare_reads_with_brute_force(
    reads: &[(String, String)],
    rate: (u32, u32),
    thresh: i32,
    s: &str,
    reversals: bool,
) {
    let borrowed: Vec<(&str, &str)> =
        reads.iter().map(|(n, r)| (n.as_str(), r.as_str())).collect();
    let config = run_config(rate, thresh, reversals, false);
    let mut found: Vec<Row> = rows(&borrowed, &config, s).into_iter().map(first_view).collect();
    found.sort();
    found.dedup();
    let expected = brute_force(reads, rate, thresh as usize, reversals);
    assert!(!expected.is_empty());
    assert_eq!(found, expected);
}

#[test]
fn hundred_reads_of_thirty_symbols() {
    let reads = reads_of_lengths(7, 100, 400, 30, 1);
    assert!(reads.iter().all(|(_, r)| r.len() == 30));
    let expected = brute_force(&reads, (1, 10), 12, false);
    assert!(expected.iter().filter(|r| r.7 == 2).count() >= 1);
    assert!(expected.iter().filter(|r| r.7 == 1).count() >= 1);
    compare_reads_with_brute_force(&reads, (1, 10), 12, "2", false);
}

#[test]
fn exact_overlaps_are_the_naive_ones() {
    for seed in 1..6 {
        compare_with_brute_force(seed, (0, 1), 6, "1", false);
    }
}

#[test]
fn near_overlaps_are_all_found_with_one_extra_block() {
    for seed in 1..6 {
        compare_with_brute_force(seed, (1, 10), 8, "1", false);
        compare_with_brute_force(seed, (1, 5), 8, "1", false);
    }
}

#[test]
fn near_overlaps_are_all_found_with_two_extra_blocks() {
    for seed in 1..6 {
        compare_with_brute_force(seed, (1, 10), 8, "2", false);
        compare_with_brute_force(seed, (1, 5), 6, "2", false);
    }
}

#[test]
fn near_overlaps_are_all_found_with_three_extra_blocks() {
    for seed in 1..4 {
        compare_with_brute_force(seed, (1, 10), 8, "3", false);
    }
}

#[test]
fn near_overlaps_with_reversals() {
    for seed in 1..4 {
        compare_with_brute_force(seed, (1, 10), 8, "2", true);
        compare_with_brute_force(seed, (0, 1), 6, "1", true);
    }
}

#[test]
fn palindromes_give_each_normal_solution_a_reversed_one() {
    let reads = [("p1", "ACGTTGCAACGTTGCA"), ("p2", "GCAACGTTGCAACG"), ("p3", "TTGCAACGTT")];
    let config = run_config((0, 1), 5, true, false);
    let found: Vec<Row> = rows(&reads, &config, "1").into_iter().map(first_view).collect();
    let normal: Vec<&Row> = found.iter().filter(|r| r.2 == 'N').collect();
    assert!(!normal.is_empty());
    for r in normal {
        let twin = first_view((r.0.clone(), r.1.clone(), 'I', r.3, r.4, r.5, r.6, r.7));
        assert!(found.contains(&twin), "no reversed twin of {:?}", r);
    }
}

#[test]
fn corpus_without_reads_has_no_solutions() {
    let found = rows(&[], &run_config((1, 10), 3, false, false), "1");
    assert!(found.is_empty());
    let found = rows(&[], &run_config((1, 10), 3, true, true), "2");
    assert!(found.is_empty());
}

#[test]
fn empty_reads_do_no_harm() {
    let reads = [("e1", ""), ("r1", "ACGTAC"), ("e2", ""), ("r2", "GTACAA")];
    let found = rows(&reads, &run_config((0, 1), 3, false, true), "1");
    assert_eq!(found, vec![row("r1", "r2", 'N', 2, 2, 4, 0)]);
}

#[test]
fn random_reads_overlap_with_errors() {
    let reads = random_reads(1, 12);
    let expected = brute_force(&reads, (1, 5), 8, false);
    assert!(expected.iter().filter(|r| r.7 > 0).count() >= 5);
    assert!(expected.iter().filter(|r| r.7 > 1).count() >= 1);
}

/// All ways of laying one read over another, found by trying every pair
/// and every shift: the symbols that lie over each other are as many as
/// the threshold at least and differ no more often than the rate allows.
fn every_shift(
    reads: &[(String, String)],
    rate: (u32, u32),
    thresh: usize,
    reversals: bool,
    inclusions: bool,
) -> Vec<Row> {
    let mut found = Vec::new();
    let turns: &[bool] = if reversals { &[false, true] } else { &[false] };
    for (i, (name_x, read_x)) in reads.iter().enumerate() {
        for (j, (name_y, read_y)) in reads.iter().enumerate() {
            for &turn_y in turns {
                if i == j && !turn_y {
                    continue;
                }
                let x: Vec<u8> = read_x.bytes().collect();
                let y: Vec<u8> = if turn_y {
                    read_y.bytes().rev().collect()
                } else {
                    read_y.bytes().collect()
                };
                let (len_x, len_y) = (x.len() as i64, y.len() as i64);
                for shift in (1 - len_y)..len_x {
                    let from = shift.max(0);
                    let to = len_x.min(shift + len_y);
                    let len = (to - from) as usize;
                    if len < thresh {
                        continue;
                    }
                    if !inclusions && (len == x.len() || len == y.len()) {
                        continue;
                    }
                    let in_x = &x[from as usize..to as usize];
                    let in_y = &y[(from - shift) as usize..(to - shift) as usize];
                    let errors = mismatches(in_x, in_y);
                    if errors as u64 * rate.1 as u64 > rate.0 as u64 * len as u64 {
                        continue;
                    }
                    let orientation = if turn_y { 'I' } else { 'N' };
                    found.push(first_view((
                        name_x.clone(),
                        name_y.clone(),
                        orientation,
                        shift as i32,
                        (shift + len_y - len_x) as i32,
                        len,
                        len,
                        errors as u32,
                    )));
                }
            }
        }
    }
    found.sort();
    found.dedup();
    found
}

fn compare_with_every_shift(
    reads: &[(String, String)],
    rate: (u32, u32),
    thresh: i32,
    s: &str,
    reversals: bool,
    inclusions: bool,
) {
    let borrowed: Vec<(&str, &str)> =
        reads.iter().map(|(n, r)| (n.as_str(), r.as_str())).collect();
    let config = run_config(rate, thresh, reversals, inclusions);
    let mut found: Vec<Row> = rows(&borrowed, &config, s).into_iter().map(first_view).collect();
    found.sort();
    found.dedup();
    let expected = every_shift(reads, rate, thresh as usize, reversals, inclusions);
    assert!(!expected.is_empty());
    assert_eq!(found, expected);
}

/// Reads of which some lie within others.
fn nested_reads(seed: u64) -> Vec<(String, String)> {
    let mut reads = random_reads(seed, 8);
    let mut rng = Lcg(seed + 100);
    for i in 0..6 {
        let whole = reads[i].1.clone();
        let len = 9 + rng.next(6) as usize;
        let start = rng.next((whole.len() - len + 1) as u64) as usize;
        let mut part: Vec<u8> = whole.as_bytes()[start..start + len].to_vec();
        if i % 2 == 1 {
            let at = rng.next(len as u64) as usize;
            part[at] = b"ACGT"[rng.next(4) as usize];
        }
        reads.push((format!("part{:02}", i), String::from_utf8(part).unwrap()));
    }
    reads
}

#[test]
fn overlaps_by_every_shift_without_inclusions() {
    for seed in 1..4 {
        let reads = random_reads(seed, 12);
        compare_with_every_shift(&reads, (1, 10), 8, "2", false, false);
        assert_eq!(
            every_shift(&reads, (1, 10), 8, false, false),
            brute_force(&reads, (1, 10), 8, false)
        );
    }
}

#[test]
fn inclusions_are_all_found() {
    for seed in 1..5 {
        let reads = nested_reads(seed);
        let expected = every_shift(&reads, (1, 8), 8, false, true);
        assert!(expected.iter().any(|r| (r.3 > 0 && r.4 < 0) || (r.3 < 0 && r.4 > 0)));
        compare_with_every_shift(&reads, (1, 8), 8, "1", false, true);
        compare_with_every_shift(&reads, (1, 8), 8, "2", false, true);
        compare_with_every_shift(&reads, (0, 1), 8, "1", false, true);
    }
}

#[test]
fn inclusions_with_reversals_are_all_found() {
    for seed in 1..3 {
        let reads = nested_reads(seed);
        compare_with_every_shift(&reads, (1, 8), 8, "2", true, true);
        compare_with_every_shift(&reads, (1, 8), 8, "2", true, false);
    }
}

#[test]
fn a_read_is_never_laid_over_itself() {
    let reads = [("r1", "ACGTTTACGT")];
    let found = rows(&reads, &run_config((0, 1), 4, false, true), "1");
    assert!(found.is_empty());
    // With reversals the read is laid over its other string.
    let found = rows(&reads, &run_config((0, 1), 4, true, false), "1");
    assert!(found.iter().all(|r| r.2 == 'I'));
}

#[test]
fn unread_positions_are_symbols_where_asked_for() {
    let reads = [("r1", "GGGGACNTA"), ("r2", "ACNTACCCC")];
    let mut config = run_config((0, 1), 5, false, false);
    config.n_alphabet = true;
    let maps = corpus(&reads, &config);
    let mode = Mode::Kucherov(KucherovMode::new(&["1"]));
    let found = solve(&config, &maps, &mode);
    assert_eq!(found.len(), 1);
    assert_eq!((found[0].id_a, found[0].id_b, found[0].overlap_a), (0, 1, 5));
    // Without them the two reads are GGGGACTA and ACTACCCC.
    let found = rows(&reads, &run_config((0, 1), 4, false, false), "1");
    assert_eq!(found, vec![row("r1", "r2", 'N', 4, 4, 4, 0)]);
}
