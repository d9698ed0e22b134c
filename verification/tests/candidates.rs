use overlapper::prepare::prepare_maps;
use overlapper::structs::run_config::{Config, ErrorRate, Maps};
use overlapper::structs::solutions::{Candidate, Orientation, Solution};
use overlapper::verification::{count_mismatches, verify, verify_all};

fn config(rate: (u32, u32), thresh: i32) -> Config {
    Config {
        input: String::new(),
        output: String::new(),
        err_rate: ErrorRate::new(rate.0, rate.1).unwrap(),
        thresh,
        worker_threads: 1,
        sorted: true,
        reversals: false,
        inclusions: false,
        edit_distance: false,
        verbose: false,
        time: false,
        print: false,
        n_alphabet: false,
        greedy_output: false,
        format_line: false,
        track_progress: false,
        verbosity: 0,
    }
}

fn corpus(reads: &[&str], config: &Config) -> Maps {
    let records: Vec<(String, Vec<u8>)> = reads
        .iter()
        .enumerate()
        .map(|(i, s)| (format!("r{}", i), s.as_bytes().to_vec()))
        .collect();
    prepare_maps(&records, config).unwrap()
}

fn candidate(id_b: usize, overhang_left_a: i32, overlap_a: usize, overlap_b: usize) -> Candidate {
    Candidate { id_b, overlap_a, overlap_b, overhang_left_a, debug_str: String::new() }
}

fn fields(s: &Solution) -> (usize, usize, Orientation, i32, i32, usize, usize, u32) {
    (
        s.id_a,
        s.id_b,
        s.orientation,
        s.overhang_left_a,
        s.overhang_right_b,
        s.overlap_a,
        s.overlap_b,
        s.errors,
    )
}

#[test]
fn mismatches_are_counted() {
    assert_eq!(count_mismatches(b"", b""), 0);
    assert_eq!(count_mismatches(b"ACGT", b"ACGT"), 0);
    assert_eq!(count_mismatches(b"ACGT", b"AGGA"), 2);
    assert_eq!(count_mismatches(b"AAAA", b"TTTT"), 4);
}

// The reads GGGGGACGTC and ACGTCTTTTT are stored from right to left as
// CTGCAGGGGG and TTTTTCTGCA: the last five symbols of the second lie over
// the first five of the first.
#[test]
fn a_candidate_that_is_an_overlap() {
    let config = config((0, 1), 5);
    let maps = corpus(&["GGGGGACGTC", "ACGTCTTTTT"], &config);
    let s = verify(0, &candidate(1, -5, 5, 5), &config, &maps).unwrap();
    assert_eq!(fields(&s), (0, 1, Orientation::Normal, 5, 5, 5, 5, 0));
    assert_eq!(s.cigar, "");
    // The same overlap as a candidate of the other read.
    let s = verify(1, &candidate(0, 5, 5, 5), &config, &maps).unwrap();
    assert_eq!(fields(&s), (0, 1, Orientation::Normal, 5, 5, 5, 5, 0));
}

#[test]
fn candidates_that_are_refused() {
    let config = config((0, 1), 5);
    let maps = corpus(&["GGGGGACGTC", "ACGTCTTTTT"], &config);
    // No such string.
    assert!(verify(0, &candidate(2, -5, 5, 5), &config, &maps).is_none());
    // The regions differ.
    assert!(verify(0, &candidate(1, -4, 6, 6), &config, &maps).is_none());
    // Shorter than the threshold.
    assert!(verify(0, &candidate(1, -6, 4, 4), &config, &maps).is_none());
    // The region of B runs past its end.
    assert!(verify(0, &candidate(1, -5, 6, 6), &config, &maps).is_none());
    // The region of A runs past its end.
    assert!(verify(0, &candidate(1, 6, 5, 5), &config, &maps).is_none());
    // The regions reach no end.
    assert!(verify(0, &candidate(1, -4, 5, 5), &config, &maps).is_none());
    // Regions of two lengths.
    assert!(verify(0, &candidate(1, -5, 5, 4), &config, &maps).is_none());
    assert!(verify(0, &candidate(1, i32::MIN, usize::MAX, usize::MAX), &config, &maps).is_none());
}

#[test]
fn errors_within_the_rate_are_accepted() {
    // Stored: CTGCAGGGGG and TTTTTCTGAA; the five symbols differ once.
    let reads = ["GGGGGACGTC", "AAGTCTTTTT"];
    let strict = config((1, 10), 5);
    let maps = corpus(&reads, &strict);
    assert!(verify(0, &candidate(1, -5, 5, 5), &strict, &maps).is_none());
    let loose = config((1, 5), 5);
    let s = verify(0, &candidate(1, -5, 5, 5), &loose, &maps).unwrap();
    assert_eq!(fields(&s), (0, 1, Orientation::Normal, 5, 5, 5, 5, 1));
}

#[test]
fn inclusions_are_accepted_only_when_asked_for() {
    let mut config = config((0, 1), 3);
    let maps = corpus(&["TTACGTT", "ACG"], &config);
    // Stored: TTGCATT and GCA; GCA lies in TTGCATT from its third symbol.
    let c = candidate(1, 2, 3, 3);
    assert!(verify(0, &c, &config, &maps).is_none());
    config.inclusions = true;
    // The regions must reach an end of A or B: here they reach the end of B.
    let s = verify(0, &c, &config, &maps).unwrap();
    assert_eq!(fields(&s), (0, 1, Orientation::Normal, 2, -2, 3, 3, 0));
    let s = verify(1, &candidate(0, -2, 3, 3), &config, &maps).unwrap();
    assert_eq!(fields(&s), (0, 1, Orientation::Normal, 2, -2, 3, 3, 0));
}

#[test]
fn edit_distance_allows_regions_of_two_lengths() {
    let mut config = config((1, 4), 5);
    // Stored: CTGCAGGGGG and TTTTTCTCA (the read ACTCTTTTT).
    let maps = corpus(&["GGGGGACGTC", "ACTCTTTTT"], &config);
    // By places the four symbols CTCA and CTGC differ too often, and the
    // region of five symbols has no partner of its length.
    assert!(verify(0, &candidate(1, -5, 5, 4), &config, &maps).is_none());
    config.edit_distance = true;
    // CTGCA and CTCA are one change apart.
    let s = verify(0, &candidate(1, -5, 5, 4), &config, &maps).unwrap();
    assert_eq!(fields(&s), (0, 1, Orientation::Normal, 5, 5, 5, 4, 1));
}

#[test]
fn solutions_of_a_task_are_a_set() {
    let config = config((0, 1), 5);
    let maps = corpus(&["GGGGGACGTC", "ACGTCTTTTT", "ACGTCAAAAA"], &config);
    let candidates = vec![
        candidate(1, -5, 5, 5),
        candidate(2, -5, 5, 5),
        candidate(1, -5, 5, 5),
        candidate(1, -4, 6, 6),
        candidate(9, -5, 5, 5),
    ];
    let solutions = verify_all(0, candidates, &config, &maps);
    let found: Vec<_> = solutions.iter().map(fields).collect();
    assert_eq!(
        found,
        vec![
            (0, 1, Orientation::Normal, 5, 5, 5, 5, 0),
            (0, 2, Orientation::Normal, 5, 5, 5, 5, 0)
        ]
    );
    assert!(verify_all(0, Vec::new(), &config, &maps).is_empty());
}

#[test]
fn reversed_strings_give_reversed_solutions() {
    let mut config = config((0, 1), 5);
    config.reversals = true;
    // Ids 0 and 1 are GGGGGACGTC from right to left and as given; ids 2 and
    // 3 are TTTTTCTGCA from right to left and as given. The read of id 0
    // ends with ACGTC, and TTTTTCTGCA the other way round begins with it.
    let maps = corpus(&["GGGGGACGTC", "TTTTTCTGCA"], &config);
    assert_eq!(maps.get_string(0), b"CTGCAGGGGG");
    assert_eq!(maps.get_string(3), b"TTTTTCTGCA");
    let s = verify(0, &candidate(3, -5, 5, 5), &config, &maps).unwrap();
    assert_eq!(fields(&s), (0, 3, Orientation::Reversed, 5, 5, 5, 5, 0));
    // The same overlap from the other string of the second read.
    let s = verify(3, &candidate(0, 5, 5, 5), &config, &maps).unwrap();
    assert_eq!(fields(&s), (0, 3, Orientation::Reversed, 5, 5, 5, 5, 0));
    // And read from right to left, between the two other strings.
    assert_eq!(maps.get_string(1), b"GGGGGACGTC");
    assert_eq!(maps.get_string(2), b"ACGTCTTTTT");
    let s = verify(1, &candidate(2, 5, 5, 5), &config, &maps).unwrap();
    assert_eq!(fields(&s), (0, 3, Orientation::Reversed, 5, 5, 5, 5, 0));
}
