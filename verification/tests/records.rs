use overlapper::structs::solutions::{Candidate, Orientation, Solution};
use std::collections::hash_map::DefaultHasher;
use std::collections::HashSet;
use std::hash::{Hash, Hasher};

fn candidate(overhang_left_a: i32, overlap_a: usize, overlap_b: usize) -> Candidate {
    Candidate { id_b: 3, overlap_a, overlap_b, overhang_left_a, debug_str: String::new() }
}

fn solution(left: i32, right: i32) -> Solution {
    Solution {
        id_a: 2,
        id_b: 7,
        orientation: Orientation::Reversed,
        overhang_left_a: left,
        overhang_right_b: right,
        overlap_a: 11,
        overlap_b: 12,
        errors: 1,
        cigar: String::from("x"),
    }
}

fn fields(s: &Solution) -> (usize, usize, Orientation, i32, i32, usize, usize, u32, String) {
    (
        s.id_a,
        s.id_b,
        s.orientation,
        s.overhang_left_a,
        s.overhang_right_b,
        s.overlap_a,
        s.overlap_b,
        s.errors,
        s.cigar.clone(),
    )
}

#[test]
fn orientation_letters() {
    assert_eq!(Orientation::Normal.to_string(), "N");
    assert_eq!(Orientation::Reversed.to_string(), "I");
    assert!(Orientation::Normal < Orientation::Reversed);
}

#[test]
fn candidate_parts_with_prefix_of_a() {
    let c = candidate(4, 6, 6);
    assert_eq!((c.a1(), c.a2(), c.a3(10)), (4, 6, 0));
    assert_eq!((c.b1(), c.b2(), c.b3(10)), (0, 6, 4));
}

#[test]
fn candidate_parts_with_prefix_of_b() {
    let c = candidate(-3, 5, 7);
    assert_eq!((c.a1(), c.a2(), c.a3(9)), (0, 5, 4));
    assert_eq!((c.b1(), c.b2(), c.b3(10)), (3, 7, 0));
}

#[test]
fn candidate_parts_at_the_limits() {
    let c = candidate(i32::MIN, 0, 0);
    assert_eq!(c.a1(), 0);
    assert_eq!(c.b1(), 2147483648);
    let c = candidate(i32::MAX, 0, 0);
    assert_eq!(c.a1(), 2147483647);
    assert_eq!(c.b1(), 0);
    let c = candidate(0, 2, 2);
    assert_eq!((c.a1(), c.b1()), (0, 0));
}

#[test]
fn v_flip_changes_the_point_of_view() {
    let mut s = solution(4, -2);
    s.v_flip();
    assert_eq!(
        fields(&s),
        (7, 2, Orientation::Reversed, -4, 2, 12, 11, 1, String::from("x"))
    );
}

#[test]
fn un_reverse_reads_from_the_other_end() {
    let mut s = solution(4, -2);
    s.un_reverse();
    assert_eq!(
        fields(&s),
        (2, 7, Orientation::Reversed, 2, -4, 11, 12, 1, String::from("x"))
    );
}

#[test]
fn flipping_twice_gives_the_solution_back() {
    for (left, right) in [(4, -2), (0, 0), (-7, 13), (i32::MAX, -i32::MAX)] {
        let mut s = solution(left, right);
        s.v_flip();
        s.v_flip();
        assert_eq!(fields(&s), fields(&solution(left, right)));
        s.un_reverse();
        s.un_reverse();
        assert_eq!(fields(&s), fields(&solution(left, right)));
    }
}

fn hash_of(s: &Solution) -> u64 {
    let mut hasher = DefaultHasher::new();
    s.hash(&mut hasher);
    hasher.finish()
}

#[test]
fn errors_and_cigar_are_no_part_of_a_solution() {
    let s = solution(4, -2);
    let mut t = solution(4, -2);
    t.errors = 9;
    t.cigar = String::from("other");
    assert!(s == t);
    assert_eq!(hash_of(&s), hash_of(&t));
    assert_eq!(s.cmp(&t), std::cmp::Ordering::Equal);
    assert_eq!(s.partial_cmp(&t), Some(std::cmp::Ordering::Equal));
    let mut set = HashSet::new();
    set.insert(s);
    assert!(!set.insert(t));
}

#[test]
fn solutions_are_ordered_field_by_field() {
    let base = solution(4, -2);
    let mut by_id_a = solution(-100, -100);
    by_id_a.id_a = 3;
    assert_eq!(base.cmp(&by_id_a), std::cmp::Ordering::Less);
    let mut by_id_b = solution(4, -2);
    by_id_b.id_b = 6;
    assert_eq!(base.cmp(&by_id_b), std::cmp::Ordering::Greater);
    let mut by_orientation = solution(100, 100);
    by_orientation.orientation = Orientation::Normal;
    assert_eq!(base.cmp(&by_orientation), std::cmp::Ordering::Greater);
    assert_eq!(base.cmp(&solution(5, -100)), std::cmp::Ordering::Less);
    assert_eq!(base.cmp(&solution(4, -3)), std::cmp::Ordering::Greater);
    let mut by_overlap_a = solution(4, -2);
    by_overlap_a.overlap_a = 12;
    by_overlap_a.overlap_b = 0;
    assert_eq!(base.cmp(&by_overlap_a), std::cmp::Ordering::Less);
    let mut by_overlap_b = solution(4, -2);
    by_overlap_b.overlap_b = 11;
    assert_eq!(base.cmp(&by_overlap_b), std::cmp::Ordering::Greater);
    assert!(base != by_overlap_b);
    assert!(base > by_overlap_b);
    assert_eq!(base.compare_identity(&by_overlap_b), 1);
    assert_eq!(base.compare_shape(&solution(5, 0)), -1);
}
