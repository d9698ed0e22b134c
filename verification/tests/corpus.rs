use overlapper::output::{
    alignment_picture, approx_elapsed_string, compare_by_names, header_line, solution_comparator,
    solution_line, sort_and_dedup, time_display,
};
use overlapper::prepare::{prepare_maps, PrepareError};
use overlapper::progress::ProgressTracker;
use overlapper::structs::run_config::{Config, ErrorRate, Maps};
use overlapper::structs::solutions::{Orientation, Solution};

fn config(reversals: bool, n_alphabet: bool) -> Config {
    Config {
        input: String::new(),
        output: String::new(),
        err_rate: ErrorRate::new(0, 1).unwrap(),
        thresh: 5,
        worker_threads: 1,
        sorted: true,
        reversals,
        inclusions: false,
        edit_distance: false,
        verbose: false,
        time: false,
        print: false,
        n_alphabet,
        greedy_output: false,
        format_line: false,
        track_progress: false,
        verbosity: 0,
    }
}

fn maps_of(reads: &[(&str, &str)], reversals: bool, n_alphabet: bool) -> Maps {
    let records: Vec<(String, Vec<u8>)> =
        reads.iter().map(|(n, s)| (n.to_string(), s.as_bytes().to_vec())).collect();
    prepare_maps(&records, &config(reversals, n_alphabet)).unwrap()
}

#[test]
fn corpus_text_holds_reads_from_right_to_left() {
    let maps = maps_of(&[("r1", "ACGT"), ("r2", "GGNA")], false, false);
    assert_eq!(maps.text, b"$TGCA$AGG#".to_vec());
    assert_eq!(maps.num_ids, 2);
    assert_eq!(maps.get_string(0), b"TGCA");
    assert_eq!(maps.get_string(1), b"AGG");
    assert_eq!(maps.get_length(1), 3);
    assert_eq!(maps.get_name_for(1), "r2");
    assert_eq!(maps.index_for(1), 6);
    assert_eq!(maps.id_for(6), 1);
    assert_eq!(maps.find_occurrence_containing(7), (1, 6));
    assert_eq!(maps.find_occurrence_containing(4), (0, 1));
    assert_eq!(maps.formatted(0), "TGCA");
}

#[test]
fn corpus_with_reversals_and_unread_positions() {
    let maps = maps_of(&[("r1", "ACN")], true, true);
    assert_eq!(maps.text, b"$NCA$ACN#".to_vec());
    assert_eq!(maps.num_ids, 2);
    assert_eq!(maps.get_name_for(0), "r1");
    assert_eq!(maps.get_name_for(1), "r1");
}

#[test]
fn reserved_symbol_is_refused() {
    let records = vec![
        ("a".to_string(), b"ACGT".to_vec()),
        ("b".to_string(), b"AC$T".to_vec()),
        ("c".to_string(), b"#".to_vec()),
    ];
    let result = prepare_maps(&records, &config(false, false));
    assert_eq!(result.err(), Some(PrepareError::ReservedSymbol { record: 1 }));
}

fn solution(id_a: usize, id_b: usize, left: i32, right: i32, errors: u32) -> Solution {
    Solution {
        id_a,
        id_b,
        orientation: Orientation::Normal,
        overhang_left_a: left,
        overhang_right_b: right,
        overlap_a: 6,
        overlap_b: 6,
        errors,
        cigar: String::new(),
    }
}

#[test]
fn line_of_a_solution() {
    let maps = maps_of(&[("r1", "ACGT"), ("r2", "GGNA")], false, false);
    let s = solution(0, 1, -4, 12, 3);
    assert_eq!(solution_line(&s, &maps), "r1\tr2\tN\t-4\t12\t6\t6\t3\n");
    assert_eq!(header_line(), "idA\tidB\tO\tOHA\tOHB\tOLA\tOLB\tK\n");
}

#[test]
fn sorted_output_has_no_duplicates() {
    let maps = maps_of(&[("b", "ACGT"), ("a", "GGNA")], false, false);
    let list = vec![
        solution(0, 1, 4, 4, 0),
        solution(1, 0, 2, 2, 0),
        solution(0, 1, 4, 4, 1),
        solution(1, 0, -2, 2, 0),
    ];
    let sorted = sort_and_dedup(list, &maps);
    let lines: Vec<String> = sorted.iter().map(|s| solution_line(s, &maps)).collect();
    assert_eq!(
        lines,
        vec!["a\tb\tN\t-2\t2\t6\t6\t0\n", "a\tb\tN\t2\t2\t6\t6\t0\n", "b\ta\tN\t4\t4\t6\t6\t0\n"]
    );
}

#[test]
fn time_texts() {
    assert_eq!(time_display(0), "< 1 sec");
    assert_eq!(time_display(199), "~199 sec");
    assert_eq!(time_display(200), "~3 min");
    assert_eq!(time_display(7200), "~2 hrs");
    assert_eq!(time_display(360000), "~0 weeks");
    assert_eq!(time_display(1814400), "~0 months");
    assert_eq!(time_display(10368000), "~4 years");
    assert_eq!(time_display(157680000), "eternity");
}

#[test]
fn progress_bar_steps() {
    let mut tracker = ProgressTracker::new();
    let step = tracker.tick(0, 10, 0);
    assert_eq!(
        step.status.unwrap(),
        format!("\r[{}] 0/10 tasks done. ETA < 1 sec{}", " ".repeat(30), " ".repeat(21))
    );
    assert!(step.closing.is_none());
    for _ in 0..7 {
        let step = tracker.tick(0, 10, 1);
        assert!(step.status.is_none());
    }
    let step = tracker.tick(0, 10, 3);
    assert_eq!(
        step.status.unwrap(),
        format!("\r[{}] 0/10 tasks done. ETA ~150 sec{}", " ".repeat(30), " ".repeat(21))
    );
    let step = tracker.tick(5, 10, 10);
    assert_eq!(tracker.complete, 15);
    assert_eq!(
        step.status.unwrap(),
        format!(
            "\r[{}{}] 5/10 tasks done. ETA ~9 sec{}",
            "#".repeat(15),
            " ".repeat(15),
            " ".repeat(21)
        )
    );
    let step = tracker.tick(10, 10, 20);
    assert_eq!(
        step.closing.unwrap(),
        format!("\r[{}] 10/10 tasks done.{}\n", "#".repeat(30), " ".repeat(28))
    );
}

#[test]
fn corpus_without_records() {
    let maps = maps_of(&[], true, false);
    assert_eq!(maps.text, b"#".to_vec());
    assert_eq!(maps.num_ids, 0);
    assert_eq!(maps.find_occurrence_containing(0), (0, 1));
    assert_eq!(maps.find_occurrence_containing(5), (0, 1));
    assert_eq!(maps.text_debug(), "#");
}

#[test]
fn corpus_with_empty_reads() {
    let maps = maps_of(&[("e", ""), ("n", "NN"), ("r", "AC")], false, false);
    assert_eq!(maps.text, b"$$$CA#".to_vec());
    assert_eq!(maps.get_string(0), b"");
    assert_eq!(maps.get_string(1), b"");
    assert_eq!(maps.get_string(2), b"CA");
    assert_eq!((maps.index_for(0), maps.index_for(1), maps.index_for(2)), (1, 2, 3));
    assert_eq!(maps.find_occurrence_containing(0), (0, 1));
    assert_eq!(maps.find_occurrence_containing(1), (0, 1));
    assert_eq!(maps.find_occurrence_containing(2), (1, 2));
    assert_eq!(maps.find_occurrence_containing(3), (2, 3));
    assert_eq!(maps.find_occurrence_containing(4), (2, 3));
    assert_eq!(maps.find_occurrence_containing(99), (2, 3));
}

#[test]
fn stored_strings_as_text() {
    let maps = maps_of(&[("r1", "ACGT"), ("r2", "GGNA")], true, true);
    assert_eq!(maps.text_debug(), "$TGCA$ACGT$ANGG$GGNA#");
    assert_eq!(maps.formatted(0), "TGCA");
    assert_eq!(maps.formatted(1), "ACGT");
    assert_eq!(maps.formatted(3), "GGNA");
    let records = vec![("odd".to_string(), vec![b'A', 0xff, b'C'])];
    let maps = prepare_maps(&records, &config(false, false)).unwrap();
    assert_eq!(maps.formatted(0), "C\u{fffd}A");
}

#[test]
fn text_behind_copies_of_another() {
    let maps = maps_of(&[], false, false);
    assert_eq!(maps.push_string("end", "ab", 3), "abababend");
    assert_eq!(maps.push_string("end", "ab", 0), "end");
    assert_eq!(maps.push_string("", " ", 4), "    ");
    assert_eq!(maps.push_string("x", "", 7), "x");
}

#[test]
fn alphabets_of_a_run() {
    assert_eq!(config(false, false).alphabet(), b"ACGT");
    assert_eq!(config(false, true).alphabet(), b"ACGNT");
}

#[test]
fn parameters_in_and_out_of_range() {
    let mut c = config(false, false);
    assert!(c.is_valid());
    c.thresh = 0;
    assert!(!c.is_valid());
    c.thresh = 1;
    c.worker_threads = 0;
    assert!(!c.is_valid());
    c.worker_threads = 8;
    c.err_rate = ErrorRate { numerator: 1, denominator: 1 };
    assert!(!c.is_valid());
    c.err_rate = ErrorRate { numerator: 0, denominator: 0 };
    assert!(!c.is_valid());
    c.err_rate = ErrorRate { numerator: 99, denominator: 100 };
    assert!(c.is_valid());
}

#[test]
fn solutions_are_compared_by_names() {
    let maps = maps_of(&[("b", "ACGT"), ("a", "GGNA"), ("b", "TT")], false, false);
    let x = solution(0, 1, 4, 4, 0);
    assert_eq!(solution_comparator(&x, &solution(1, 0, 4, 4, 0), &maps), std::cmp::Ordering::Greater);
    assert_eq!(solution_comparator(&x, &solution(0, 0, 9, 9, 0), &maps), std::cmp::Ordering::Less);
    assert_eq!(solution_comparator(&x, &solution(2, 1, 4, 4, 7), &maps), std::cmp::Ordering::Equal);
    assert_eq!(solution_comparator(&x, &solution(0, 1, 3, 9, 0), &maps), std::cmp::Ordering::Greater);
    assert_eq!(solution_comparator(&x, &solution(0, 1, 4, 5, 0), &maps), std::cmp::Ordering::Less);
    assert_eq!(compare_by_names(&x, &solution(0, 1, 4, 5, 0), &maps), -1);
    let mut reversed = solution(0, 1, -9, -9, 0);
    reversed.orientation = Orientation::Reversed;
    assert_eq!(solution_comparator(&x, &reversed, &maps), std::cmp::Ordering::Less);
    let mut longer = solution(0, 1, 4, 4, 0);
    longer.overlap_b = 7;
    assert_eq!(solution_comparator(&x, &longer, &maps), std::cmp::Ordering::Less);
    longer.overlap_a = 5;
    longer.overlap_b = 0;
    assert_eq!(solution_comparator(&longer, &x, &maps), std::cmp::Ordering::Less);
}

#[test]
fn sorting_keeps_one_of_each_name_group() {
    let maps = maps_of(&[("same", "ACGT"), ("same", "GGNA"), ("z", "TT")], false, false);
    let list = vec![
        solution(2, 0, 1, 1, 0),
        solution(1, 0, 4, 4, 0),
        solution(0, 1, 4, 4, 0),
        solution(0, 0, 4, 4, 3),
    ];
    let sorted = sort_and_dedup(list, &maps);
    let lines: Vec<String> = sorted.iter().map(|s| solution_line(s, &maps)).collect();
    assert_eq!(lines.len(), 2);
    assert!(lines[0].starts_with("same\tsame\tN\t4\t4\t6\t6\t"));
    assert_eq!(lines[1], "z\tsame\tN\t1\t1\t6\t6\t0\n");
    assert!(sort_and_dedup(Vec::new(), &maps).is_empty());
}

#[test]
fn picture_of_a_solution() {
    let maps = maps_of(&[("r1", "ACGTAC"), ("r2", "GTACGG")], false, false);
    // Stored: CATGCA and GGCATG.
    let s = solution(0, 1, 2, 2, 0);
    assert_eq!(alignment_picture(&s, &maps), " 'r1':\tCATGCA\n 'r2':\t  GGCATG\n\n");
    let s = solution(0, 1, -3, 2, 0);
    assert_eq!(alignment_picture(&s, &maps), " 'r1':\t   CATGCA\n 'r2':\tGGCATG\n\n");
    let s = solution(1, 0, 0, 0, 0);
    assert_eq!(alignment_picture(&s, &maps), " 'r2':\tGGCATG\n 'r1':\tCATGCA\n\n");
}

#[test]
fn time_since_now_is_short() {
    let start = std::time::Instant::now();
    assert_eq!(approx_elapsed_string(&start), "< 1 sec");
}

#[test]
fn more_time_texts() {
    assert_eq!(time_display(1), "~1 sec");
    assert_eq!(time_display(7199), "~119 min");
    assert_eq!(time_display(359999), "~99 hrs");
    assert_eq!(time_display(604800), "~1 weeks");
    assert_eq!(time_display(1814399), "~2 weeks");
    assert_eq!(time_display(10367999), "~3 months");
    assert_eq!(time_display(157679999), "~60 years");
    assert_eq!(time_display(u64::MAX), "eternity");
}

#[test]
fn progress_without_tasks_ends_at_once() {
    let mut tracker = ProgressTracker::new();
    let step = tracker.tick(0, 0, 0);
    assert_eq!(tracker.complete, 0);
    assert!(step.status.is_some());
    assert_eq!(
        step.closing.unwrap(),
        format!("\r[{}] 0/0 tasks done.{}\n", " ".repeat(30), " ".repeat(28))
    );
}

#[test]
fn progress_bar_never_shrinks_and_fills_by_share() {
    let mut tracker = ProgressTracker::new();
    tracker.tick(1, 3, 5);
    assert_eq!(tracker.complete, 10);
    tracker.tick(1, 3, 6);
    assert_eq!(tracker.complete, 10);
    let step = tracker.tick(2, 3, 7);
    assert_eq!(tracker.complete, 20);
    assert!(step.status.is_some());
    assert_eq!((tracker.tick_modulo, tracker.redraw), (0, false));
    let step = tracker.tick(2, 3, 8);
    assert!(step.status.is_none());
    assert_eq!(tracker.tick_modulo, 1);
    tracker.tick(1, 1000, 9);
    assert_eq!(tracker.complete, 20);
    let step = tracker.tick(usize::MAX, usize::MAX, u64::MAX);
    assert_eq!(tracker.complete, 30);
    assert!(step.closing.is_some());
    let mut slow = ProgressTracker::new();
    let step = slow.tick(0, usize::MAX, u64::MAX);
    assert!(step.status.unwrap().contains("ETA eternity"));
    let step = slow.tick(1, 1000, 1);
    assert_eq!(slow.complete, 1);
    assert!(step.status.unwrap().contains("1/1000 tasks done. ETA ~13 min"));
}
