use overlapper::modes::kucherov::KucherovMode;
use overlapper::modes::Mode;
use overlapper::structs::run_config::ErrorRate;

fn rate(numerator: u32, denominator: u32) -> ErrorRate {
    ErrorRate::new(numerator, denominator).unwrap()
}

#[test]
fn error_rates_are_fractions_below_one() {
    assert!(ErrorRate::new(0, 1).is_some());
    assert!(ErrorRate::new(1, 10).is_some());
    assert!(ErrorRate::new(9, 10).is_some());
    assert!(ErrorRate::new(1, 1).is_none());
    assert!(ErrorRate::new(3, 2).is_none());
    assert!(ErrorRate::new(0, 0).is_none());
    let r = rate(3, 7);
    assert_eq!((r.numerator, r.denominator), (3, 7));
}

#[test]
fn error_budget_rounds_up() {
    let tenth = rate(1, 10);
    assert_eq!(tenth.error_budget(0), 0);
    assert_eq!(tenth.error_budget(1), 1);
    assert_eq!(tenth.error_budget(10), 1);
    assert_eq!(tenth.error_budget(11), 2);
    assert_eq!(tenth.error_budget(i32::MAX), 214748365);
    assert_eq!(rate(0, 5).error_budget(1000), 0);
    assert_eq!(rate(4294967294, 4294967295).error_budget(i32::MAX), i32::MAX);
}

#[test]
fn mode_is_made_from_its_argument() {
    let mode = KucherovMode::new(&["3"]);
    assert_eq!(mode.get_guaranteed_extra_blocks(), 3);
    assert_eq!(mode.get_fewest_suff_blocks(), 3);
    assert_eq!(mode.to_string(), "Kucherov S=3");
    let mode = Mode::Kucherov(KucherovMode::new(&["+12"]));
    assert_eq!(mode.get_guaranteed_extra_blocks(), 12);
    assert_eq!(mode.get_fewest_suff_blocks(), 12);
    assert_eq!(mode.to_string(), "Kucherov S=12");
}

#[test]
fn filter_is_the_smaller_of_two() {
    let mode = KucherovMode::new(&["2"]);
    assert_eq!(mode.filter_func(3, 10, 0), 3);
    assert_eq!(mode.filter_func(9, 10, 0), 8);
    assert_eq!(mode.filter_func(8, 10, 5), 8);
    assert_eq!(mode.filter_func(0, 1, 0), -1);
    assert_eq!(Mode::Kucherov(mode).filter_func(7, 4, 1), 2);
}

#[test]
fn candidate_condition_holds_all_four_parts() {
    let mode = KucherovMode::new(&["2"]);
    assert!(mode.candidate_condition(10, 2, 10, 1));
    assert!(mode.candidate_condition(10, 1, 10, 0));
    assert!(!mode.candidate_condition(9, 2, 10, 1));
    assert!(!mode.candidate_condition(10, 0, 10, 0));
    assert!(!mode.candidate_condition(10, 2, 10, 2));
    assert!(!mode.candidate_condition(10, 1, 10, 1));
    let mode = KucherovMode::new(&["4"]);
    assert!(!mode.candidate_condition(10, 2, 10, 0));
    assert!(mode.candidate_condition(10, 3, 10, 0));
    assert!(Mode::Kucherov(mode).candidate_condition(i32::MAX, i32::MAX, i32::MIN, i32::MIN));
    let mode = KucherovMode::new(&["1"]);
    assert!(mode.candidate_condition(5, 1, 5, 1));
    assert!(!mode.candidate_condition(5, i32::MIN, 5, 0));
}

#[test]
fn short_pattern_is_one_block() {
    let mode = KucherovMode::new(&["2"]);
    assert_eq!(mode.get_block_lengths(7, rate(1, 10), 10), vec![7]);
    assert_eq!(mode.get_block_lengths(0, rate(1, 10), 1), vec![0]);
    assert_eq!(mode.get_block_lengths(-5, rate(1, 10), 1), vec![-5]);
}

#[test]
fn block_lengths_for_tenth_error_rate() {
    // The budget of a tenth grows at 11 and 21: boundaries 11, 21 and 31.
    // Three blocks before the first boundary hold 10 places: the long one
    // max(ceil(10 / 3), 11 - 10) = 4, the two before it (10 - 4) / 2 = 3.
    let mode = KucherovMode::new(&["2"]);
    assert_eq!(mode.get_block_lengths(30, rate(1, 10), 10), vec![3, 3, 4, 10, 10]);
    // With one extra block less there are two blocks before the boundary.
    let mode = KucherovMode::new(&["1"]);
    assert_eq!(mode.get_block_lengths(30, rate(1, 10), 10), vec![5, 5, 10, 10]);
}

#[test]
fn block_lengths_with_longer_blocks() {
    // Rate 1/4, threshold 3, length 12: the budget grows at 5 and 9, so the
    // boundaries are 5, 9 and 13. k = max(1, 2) + 3 - 1 = 4 blocks hold 4
    // places: the long one max(ceil(4 / 4), 5 - 3) = 2, the three before it
    // 2 / 3 = 0 each with 2 of them one longer.
    let mode = KucherovMode::new(&["3"]);
    assert_eq!(mode.get_block_lengths(12, rate(1, 4), 3), vec![0, 1, 1, 2, 4, 4]);
}

#[test]
fn block_lengths_without_errors() {
    // No budget step at all: the one boundary is 11, and S blocks hold the
    // whole pattern.
    let none = rate(0, 1);
    assert_eq!(KucherovMode::new(&["1"]).get_block_lengths(10, none, 5), vec![10]);
    assert_eq!(KucherovMode::new(&["2"]).get_block_lengths(10, none, 5), vec![4, 6]);
    assert_eq!(KucherovMode::new(&["3"]).get_block_lengths(10, none, 5), vec![2, 2, 6]);
    assert_eq!(KucherovMode::new(&["1"]).get_block_lengths(5, none, 5), vec![5]);
}

#[test]
fn block_lengths_where_the_threshold_is_a_boundary() {
    // Rate 1/2, threshold 3: the budget grows at every odd length.
    let mode = KucherovMode::new(&["1"]);
    assert_eq!(mode.get_block_lengths(7, rate(1, 2), 3), vec![1, 1, 2, 2, 1]);
}

#[test]
fn first_blocks_hold_the_places_before_the_first_boundary() {
    for s in 1..5 {
        let mode = KucherovMode::new(&[&s.to_string()]);
        for (numerator, denominator) in [(0u32, 1u32), (1, 10), (1, 4), (1, 3), (9, 10), (1, 100)] {
            let rate = rate(numerator, denominator);
            for thresh in 1..12 {
                for patt_len in thresh..40 {
                    let blocks = mode.get_block_lengths(patt_len, rate, thresh);
                    let first = (thresh..=patt_len)
                        .find(|&l| rate.error_budget(l - 1) < rate.error_budget(l))
                        .unwrap_or(patt_len + 1);
                    let k = (rate.error_budget(first).max(1) + s - 1) as usize;
                    assert!(blocks.len() >= k);
                    assert_eq!(blocks[..k].iter().sum::<i32>(), first - 1);
                    assert!(blocks[k - 1] >= first - thresh);
                    assert!(blocks.iter().all(|&b| b >= 0));
                    assert_eq!(blocks.iter().sum::<i32>(), patt_len);
                }
            }
        }
    }
}
