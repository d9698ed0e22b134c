//! Checking candidates: a candidate whose two regions are close enough
//! becomes a solution.

use crate::structs::run_config::{Config, ErrorRate, Maps};
use crate::structs::solutions::{Candidate, Orientation, Solution};
use vstd::prelude::*;
use vstd::slice::slice_subrange;

verus! {

/// The number of places at which two strings of one length differ.
pub open spec fn hamming(x: Seq<u8>, y: Seq<u8>) -> nat
    decreases x.len(),
{
    if x.len() == 0 || y.len() == 0 {
        0
    } else {
        hamming(x.drop_last(), y.drop_last()) + (if x.last() != y.last() {
            1nat
        } else {
            0nat
        })
    }
}

/// The least of three numbers.
pub open spec fn min3(a: nat, b: nat, c: nat) -> nat {
    if a <= b && a <= c {
        a
    } else if b <= c {
        b
    } else {
        c
    }
}

/// The fewest changes that turn one string into the other, a change being
/// to put another symbol in the place of one, to take one out or to put one
/// in.
pub open spec fn edit_distance(x: Seq<u8>, y: Seq<u8>) -> nat
    decreases x.len() + y.len(),
{
    if x.len() == 0 {
        y.len()
    } else if y.len() == 0 {
        x.len()
    } else {
        min3(
            edit_distance(x.drop_last(), y.drop_last()) + (if x.last() != y.last() {
                1nat
            } else {
                0nat
            }),
            edit_distance(x.drop_last(), y) + 1,
            edit_distance(x, y.drop_last()) + 1,
        )
    }
}

/// Two strings of one length differ at no more places than they have.
pub proof fn lemma_hamming_bound(x: Seq<u8>, y: Seq<u8>)
    requires
        x.len() == y.len(),
    ensures
        hamming(x, y) <= x.len(),
        hamming(x, y) == 0 <==> x == y,
    decreases x.len(),
{
    if x.len() > 0 {
        lemma_hamming_bound(x.drop_last(), y.drop_last());
        if x.drop_last() == y.drop_last() && x.last() == y.last() {
            assert(x =~= x.drop_last().push(x.last()));
            assert(y =~= y.drop_last().push(y.last()));
        }
    } else {
        assert(x =~= y);
    }
}

/// Two strings of one length differ at as many places as they do behind
/// their first symbols, and at one more where the first symbols differ.
pub proof fn lemma_hamming_front(x: Seq<u8>, y: Seq<u8>)
    requires
        x.len() == y.len(),
        x.len() > 0,
    ensures
        hamming(x, y) == hamming(x.skip(1), y.skip(1)) + (if x[0] != y[0] {
            1nat
        } else {
            0nat
        }),
    decreases x.len(),
{
    if x.len() == 1 {
        assert(hamming(x.drop_last(), y.drop_last()) == 0);
    } else {
        lemma_hamming_front(x.drop_last(), y.drop_last());
        assert(x.skip(1).drop_last() =~= x.drop_last().skip(1));
        assert(y.skip(1).drop_last() =~= y.drop_last().skip(1));
        assert(hamming(x.skip(1), y.skip(1)) == hamming(
            x.skip(1).drop_last(),
            y.skip(1).drop_last(),
        ) + (if x.last() != y.last() {
            1nat
        } else {
            0nat
        }));
    }
}

/// Two strings differ from each other at as many places, whichever is held
/// against the other.
pub proof fn lemma_hamming_symmetric(x: Seq<u8>, y: Seq<u8>)
    requires
        x.len() == y.len(),
    ensures
        hamming(x, y) == hamming(y, x),
    decreases x.len(),
{
    if x.len() > 0 {
        lemma_hamming_symmetric(x.drop_last(), y.drop_last());
    }
}

/// The number of places at which two strings of one length differ.
pub fn count_mismatches(x: &[u8], y: &[u8]) -> (count: usize)
    requires
        x@.len() == y@.len(),
    ensures
        count == hamming(x@, y@),
{
    let mut count: usize = 0;
    let mut i: usize = 0;
    while i < x.len()
        invariant
            0 <= i <= x@.len(),
            x@.len() == y@.len(),
            count == hamming(x@.take(i as int), y@.take(i as int)),
            count <= i,
        decreases x@.len() - i,
    {
        proof {
            assert(x@.take(i + 1).drop_last() =~= x@.take(i as int));
            assert(y@.take(i + 1).drop_last() =~= y@.take(i as int));
        }
        if x[i] != y[i] {
            count += 1;
        }
        i += 1;
    }
    proof {
        assert(x@.take(x@.len() as int) =~= x@);
        assert(y@.take(y@.len() as int) =~= y@);
    }
    count
}

/// `bio::alignment::distance::levenshtein`: the edit distance of two strings
/// that are short enough for the distance to fit the result.
#[verifier::external_body]
fn levenshtein(x: &[u8], y: &[u8]) -> (distance: u32)
    requires
        x@.len() <= u32::MAX,
        y@.len() <= u32::MAX,
    ensures
        distance == edit_distance(x@, y@),
{
    bio::alignment::distance::levenshtein(x, y)
}

/// The part of A that a candidate lays over B.
pub open spec fn region_a(c: &Candidate, a: Seq<u8>) -> Seq<u8> {
    a.subrange(c.spec_a1(), c.spec_a1() + c.overlap_a)
}

/// The part of B that a candidate lays over A.
pub open spec fn region_b(c: &Candidate, b: Seq<u8>) -> Seq<u8> {
    b.subrange(c.spec_b1(), c.spec_b1() + c.overlap_b)
}

/// Whether the regions of a candidate lie within the two strings and reach
/// the end of one of them, and the strings are short enough for overhangs
/// of 32 bits.
pub open spec fn fits(c: &Candidate, a_len: int, b_len: int) -> bool {
    &&& a_len <= i32::MAX
    &&& b_len <= i32::MAX
    &&& c.spec_a1() + c.overlap_a <= a_len
    &&& c.spec_b1() + c.overlap_b <= b_len
    &&& (c.spec_a1() + c.overlap_a == a_len || c.spec_b1() + c.overlap_b == b_len)
}

/// Whether one of the two strings lies in the overlap as a whole.
pub open spec fn is_inclusion(c: &Candidate, a_len: int, b_len: int) -> bool {
    c.overlap_a == a_len || c.overlap_b == b_len
}

/// The length that the error rate is held against: with the edit distance
/// the longer of the two overlap lengths, else the shorter.
pub open spec fn measured(overlap_a: int, overlap_b: int, edit: bool) -> int {
    if edit {
        if overlap_a >= overlap_b {
            overlap_a
        } else {
            overlap_b
        }
    } else {
        if overlap_a <= overlap_b {
            overlap_a
        } else {
            overlap_b
        }
    }
}

/// How far the two regions of a candidate are from each other: their edit
/// distance, or the number of places at which they differ.
pub open spec fn distance(c: &Candidate, a: Seq<u8>, b: Seq<u8>, edit: bool) -> nat {
    if edit {
        edit_distance(region_a(c, a), region_b(c, b))
    } else {
        hamming(region_a(c, a), region_b(c, b))
    }
}

/// Whether a candidate for the strings `a` and `b` is a solution: its
/// regions fit, they are as long as each other unless the edit distance is
/// asked for, one of them is as long as the threshold, their distance is
/// within what the error rate allows, and no string lies in the overlap as
/// a whole unless inclusions are asked for.
#[verifier::opaque]
pub open spec fn acceptable(c: &Candidate, a: Seq<u8>, b: Seq<u8>, config: &Config) -> bool {
    &&& fits(c, a.len() as int, b.len() as int)
    &&& (config.edit_distance || c.overlap_a == c.overlap_b)
    &&& (c.overlap_a >= config.thresh || c.overlap_b >= config.thresh)
    &&& (config.inclusions || !is_inclusion(c, a.len() as int, b.len() as int))
    &&& distance(c, a, b, config.edit_distance) <= config.err_rate.allowance(
        measured(c.overlap_a as int, c.overlap_b as int, config.edit_distance),
    )
}

/// Whether a candidate of the query `id_a` is a solution: its target exists
/// and it is a solution for the stored strings of the query and the target.
pub open spec fn accepted(c: &Candidate, id_a: int, config: &Config, maps: &Maps) -> bool {
    c.id_b < maps.num_ids && acceptable(
        c,
        maps.string(id_a),
        maps.string(c.id_b as int),
        config,
    )
}

/// A number of errors is within what the rate allows for a length exactly
/// when the errors times the denominator are no more than the length times
/// the numerator.
pub proof fn lemma_allowance(rate: ErrorRate, errors: int, len: int)
    requires
        rate.wf(),
        len >= 0,
        errors >= 0,
    ensures
        errors <= rate.allowance(len) <==> errors * rate.denominator <= rate.numerator * len,
{
    let n = rate.numerator as int;
    let d = rate.denominator as int;
    assert(errors <= (n * len) / d <==> errors * d <= n * len) by (nonlinear_arith)
        requires
            d > 0,
            n >= 0,
            len >= 0,
            errors >= 0,
    ;
}

/// The solution that a candidate stands for before it is oriented. The
/// stored strings run from right to left; the solution speaks of them from
/// left to right, so what is left over on the right of the stored strings
/// is the left overhang, and what is left over on their left is the right
/// overhang.
pub open spec fn raw_solution(
    c: &Candidate,
    id_a: usize,
    a_len: int,
    b_len: int,
    errors: u32,
    cigar: String,
) -> Solution {
    Solution {
        id_a,
        id_b: c.id_b,
        orientation: Orientation::Normal,
        overhang_left_a: ((a_len - c.spec_a1() - c.overlap_a) - (b_len - c.spec_b1()
            - c.overlap_b)) as i32,
        overhang_right_b: (c.spec_b1() - c.spec_a1()) as i32,
        overlap_a: c.overlap_a,
        overlap_b: c.overlap_b,
        errors,
        cigar,
    }
}

/// Whether the string `id` holds a read the other way round. With reversals
/// each read is stored twice, and the second string, with the odd id, is the
/// one the other way round.
pub open spec fn is_reversed(id: usize, reversals: bool) -> bool {
    reversals && id % 2 == 1
}

/// The solution with A as the read was given. Where only B is the other way
/// round the solution is said to be reversed. Where only A is, the overlap
/// is seen from B. Where both are, the overlap is read from right to left
/// and stands for the two reads as they were given.
pub open spec fn oriented(s: Solution, reversals: bool) -> Solution {
    if is_reversed(s.id_a, reversals) {
        if is_reversed(s.id_b, reversals) {
            Solution { id_a: (s.id_a - 1) as usize, id_b: (s.id_b - 1) as usize, ..s.unreversed() }
        } else {
            Solution { orientation: Orientation::Reversed, ..s.flipped() }
        }
    } else {
        if is_reversed(s.id_b, reversals) {
            Solution { orientation: Orientation::Reversed, ..s }
        } else {
            s
        }
    }
}

/// The same overlap with the two reads in each other's place. For a
/// reversed solution B becomes the read as it was given and A the one the
/// other way round, so the overhangs change places.
pub open spec fn other_view(s: Solution) -> Solution {
    match s.orientation {
        Orientation::Normal => s.flipped(),
        Orientation::Reversed => Solution {
            id_a: (s.id_b - 1) as usize,
            id_b: (s.id_a + 1) as usize,
            ..s.flipped().unreversed()
        },
    }
}

/// Whether the other view of the overlap is the one to give out: the view
/// in which A begins first is given out, and where both views are alike in
/// that, the one with the larger right overhang, then the one with the
/// smaller id of A, then the one with the longer overlap of A.
pub open spec fn prefers_other(s: Solution) -> bool {
    let other = other_view(s);
    s.overhang_left_a < other.overhang_left_a || (s.overhang_left_a == other.overhang_left_a && (
    s.overhang_right_b < other.overhang_right_b || (s.overhang_right_b == other.overhang_right_b
        && (s.id_a > other.id_a || (s.id_a == other.id_a && s.overlap_a < other.overlap_a)))))
}

/// The view of the overlap that is given out.
pub open spec fn canonical(s: Solution) -> Solution {
    if prefers_other(s) {
        other_view(s)
    } else {
        s
    }
}

/// Whether a solution speaks of strings that both views can name: its
/// overhangs can change their sign, and where it is reversed the id of A is
/// even and the id of B is odd.
pub open spec fn viewable(s: Solution) -> bool {
    &&& s.flippable()
    &&& s.orientation == Orientation::Reversed ==> s.id_a % 2 == 0 && s.id_b % 2 == 1 && s.id_a
        < usize::MAX
}

/// Both views of an overlap give out the same view, and the other view of
/// the other view is the overlap itself.
pub proof fn lemma_views_agree(s: Solution)
    requires
        viewable(s),
    ensures
        viewable(other_view(s)),
        other_view(other_view(s)) == s,
        canonical(other_view(s)) == canonical(s),
        other_view(s).errors == s.errors,
{
}

/// The overlap of two strings gives out the same view from whichever of
/// the two it is seen.
pub proof fn lemma_raw_views(r: Solution, reversals: bool)
    requires
        r.orientation == Orientation::Normal,
        r.flippable(),
        r.id_a < usize::MAX,
        r.id_b < usize::MAX,
    ensures
        canonical(oriented(r.flipped(), reversals)) == canonical(oriented(r, reversals)),
{
    let a_turned = is_reversed(r.id_a, reversals);
    let b_turned = is_reversed(r.id_b, reversals);
    if a_turned == b_turned {
        lemma_views_agree(oriented(r, reversals));
    }
}

/// The solution that a candidate of the query `id_a` stands for.
#[verifier::opaque]
pub open spec fn solution_of(
    c: &Candidate,
    id_a: usize,
    a_len: int,
    b_len: int,
    errors: u32,
    cigar: String,
    reversals: bool,
) -> Solution {
    canonical(oriented(raw_solution(c, id_a, a_len, b_len, errors, cigar), reversals))
}

/// Turns the solution into the view that is given out.
fn canonicalize(s: &mut Solution)
    requires
        viewable(*old(s)),
    ensures
        *final(s) == canonical(*old(s)),
{
    match s.orientation {
        Orientation::Normal => {
            let other_first = s.overhang_left_a < 0 || (s.overhang_left_a == 0 && (
            s.overhang_right_b < 0 || (s.overhang_right_b == 0 && (s.id_a > s.id_b || (s.id_a
                == s.id_b && s.overlap_a < s.overlap_b)))));
            if other_first {
                s.v_flip();
            }
        },
        Orientation::Reversed => {
            let other_first = s.overhang_left_a < s.overhang_right_b || (s.overhang_left_a
                == s.overhang_right_b && (s.id_a > s.id_b - 1 || (s.id_a == s.id_b - 1
                && s.overlap_a < s.overlap_b)));
            if other_first {
                s.v_flip();
                s.un_reverse();
                s.id_a = s.id_a - 1;
                s.id_b = s.id_b + 1;
            }
        },
    }
}

/// Turns the solution of two stored strings into one with A as the read was
/// given.
fn orient(s: &mut Solution, reversals: bool)
    requires
        old(s).flippable(),
        old(s).orientation == Orientation::Normal,
    ensures
        *final(s) == oriented(*old(s), reversals),
        viewable(*final(s)),
{
    let a_reversed = reversals && s.id_a % 2 == 1;
    let b_reversed = reversals && s.id_b % 2 == 1;
    if a_reversed {
        if b_reversed {
            s.un_reverse();
            s.id_a = s.id_a - 1;
            s.id_b = s.id_b - 1;
        } else {
            s.v_flip();
            s.orientation = Orientation::Reversed;
        }
    } else if b_reversed {
        s.orientation = Orientation::Reversed;
    }
}

/// Whether the solution is the one that the candidate of the query `id_a`
/// stands for, with the distance of its two regions as its errors and with
/// no record of the changes.
pub open spec fn stands_for(
    s: &Solution,
    c: &Candidate,
    id_a: usize,
    config: &Config,
    maps: &Maps,
) -> bool {
    let a = maps.string(id_a as int);
    let b = maps.string(c.id_b as int);
    &&& *s == solution_of(
        c,
        id_a,
        a.len() as int,
        b.len() as int,
        s.errors,
        s.cigar,
        config.reversals,
    )
    &&& s.errors == distance(c, a, b, config.edit_distance)
    &&& s.cigar@ == Seq::<char>::empty()
}

/// Whether the strings of the corpus come in pairs where reversals are
/// asked for, so that each string has its partner the other way round.
pub open spec fn paired(config: &Config, maps: &Maps) -> bool {
    config.reversals ==> maps.num_ids % 2 == 0
}

/// Whether the solution keeps to the threshold and to the error rate: one
/// of its overlap lengths is as long as the threshold, and its errors are
/// within what the error rate allows for the length that is measured.
pub open spec fn within_limits(s: &Solution, config: &Config) -> bool {
    &&& s.overlap_a >= config.thresh || s.overlap_b >= config.thresh
    &&& s.errors <= config.err_rate.allowance(
        measured(s.overlap_a as int, s.overlap_b as int, config.edit_distance),
    )
}

/// The distance of the two regions of a candidate for the strings `a` and
/// `b`, where the candidate is a solution for them.
fn measure(c: &Candidate, a: &[u8], b: &[u8], config: &Config) -> (errors: Option<u32>)
    requires
        config.wf(),
    ensures
        errors is Some <==> acceptable(c, a@, b@, config),
        errors matches Some(e) ==> e == distance(c, a@, b@, config.edit_distance),
        errors is Some ==> fits(c, a@.len() as int, b@.len() as int) && (c.overlap_a
            >= config.thresh || c.overlap_b >= config.thresh) && errors->0
            <= config.err_rate.allowance(
            measured(c.overlap_a as int, c.overlap_b as int, config.edit_distance),
        ),
{
    proof {
        reveal(acceptable);
    }
    let a_len = a.len();
    let b_len = b.len();
    if a_len > i32::MAX as usize || b_len > i32::MAX as usize {
        return None;
    }
    let a1 = c.a1();
    let b1 = c.b1();
    if c.overlap_a > a_len || a1 > a_len - c.overlap_a {
        return None;
    }
    if c.overlap_b > b_len || b1 > b_len - c.overlap_b {
        return None;
    }
    if a1 + c.overlap_a != a_len && b1 + c.overlap_b != b_len {
        return None;
    }
    if !config.edit_distance && c.overlap_a != c.overlap_b {
        return None;
    }
    let thresh = config.thresh as usize;
    if c.overlap_a < thresh && c.overlap_b < thresh {
        return None;
    }
    if !config.inclusions && (c.overlap_a == a_len || c.overlap_b == b_len) {
        return None;
    }
    let in_a = slice_subrange(a, a1, a1 + c.overlap_a);
    let in_b = slice_subrange(b, b1, b1 + c.overlap_b);
    let errors: u32 = if config.edit_distance {
        levenshtein(in_a, in_b)
    } else {
        proof {
            lemma_hamming_bound(in_a@, in_b@);
        }
        count_mismatches(in_a, in_b) as u32
    };
    let longer = c.overlap_a >= c.overlap_b;
    let measured_len: usize = if config.edit_distance == longer {
        c.overlap_a
    } else {
        c.overlap_b
    };
    assert(measured_len == measured(
        c.overlap_a as int,
        c.overlap_b as int,
        config.edit_distance,
    ));
    if within_rate(config.err_rate, errors, measured_len) {
        Some(errors)
    } else {
        None
    }
}

/// Whether a number of errors is within what the rate allows for a length.
fn within_rate(rate: ErrorRate, errors: u32, len: usize) -> (within: bool)
    requires
        rate.wf(),
        len <= i32::MAX,
    ensures
        within == (errors <= rate.allowance(len as int)),
{
    proof {
        lemma_allowance(rate, errors as int, len as int);
        assert(errors * rate.denominator <= 0xffff_ffff * 0xffff_ffff) by (nonlinear_arith)
            requires
                0 <= errors <= 0xffff_ffff,
                0 <= rate.denominator <= 0xffff_ffff,
        ;
        assert(rate.numerator * len <= 0xffff_ffff * 0x7fff_ffff) by (nonlinear_arith)
            requires
                0 <= rate.numerator <= 0xffff_ffff,
                0 <= len <= 0x7fff_ffff,
        ;
    }
    (errors as u64) * (rate.denominator as u64) <= (rate.numerator as u64) * (len as u64)
}

/// The solution that a candidate of the query `id_a` stands for, in the
/// view that is given out.
fn build(
    c: &Candidate,
    id_a: usize,
    a_len: usize,
    b_len: usize,
    errors: u32,
    reversals: bool,
    Ghost(num_ids): Ghost<int>,
) -> (s: Solution)
    requires
        fits(c, a_len as int, b_len as int),
    ensures
        id_a < num_ids && c.id_b < num_ids && (reversals ==> num_ids % 2 == 0) ==> s.id_a
            < num_ids && s.id_b < num_ids,
        s == solution_of(c, id_a, a_len as int, b_len as int, s.errors, s.cigar, reversals),
        s.errors == errors,
        s.cigar@ == Seq::<char>::empty(),
        viewable(s),
        (s.overlap_a == c.overlap_a && s.overlap_b == c.overlap_b) || (s.overlap_a == c.overlap_b
            && s.overlap_b == c.overlap_a),
{
    let a1 = c.a1();
    let b1 = c.b1();
    let a3 = a_len - a1 - c.overlap_a;
    let b3 = b_len - b1 - c.overlap_b;
    let mut s = Solution {
        id_a,
        id_b: c.id_b,
        orientation: Orientation::Normal,
        overhang_left_a: (a3 as i64 - b3 as i64) as i32,
        overhang_right_b: (b1 as i64 - a1 as i64) as i32,
        overlap_a: c.overlap_a,
        overlap_b: c.overlap_b,
        errors,
        cigar: String::new(),
    };
    orient(&mut s, reversals);
    canonicalize(&mut s);
    proof {
        reveal(solution_of);
    }
    s
}

/// Checks a candidate of the query `id_a`. A candidate that is accepted
/// gives the solution that it stands for, in the view that is given out.
pub fn verify(id_a: usize, c: &Candidate, config: &Config, maps: &Maps) -> (solution: Option<
    Solution,
>)
    requires
        maps.wf(),
        config.wf(),
        id_a < maps.num_ids,
    ensures
        solution is Some <==> accepted(c, id_a as int, config, maps),
        solution matches Some(s) ==> stands_for(&s, c, id_a, config, maps) && within_limits(
            &s,
            config,
        ) && viewable(s),
        solution matches Some(s) ==> (paired(config, maps) ==> s.id_a < maps.num_ids && s.id_b
            < maps.num_ids),
{
    if c.id_b >= maps.num_ids {
        return None;
    }
    let a = maps.get_string(id_a);
    let b = maps.get_string(c.id_b);
    match measure(c, a, b, config) {
        Some(errors) => Some(
            build(
                c,
                id_a,
                a.len(),
                b.len(),
                errors,
                config.reversals,
                Ghost(maps.num_ids as int),
            ),
        ),
        None => None,
    }
}

/// Whether the solution speaks of the overlap that the candidate of the
/// query `id_a` stands for, whatever its errors are.
pub open spec fn same_overlap(
    s: &Solution,
    c: &Candidate,
    id_a: usize,
    config: &Config,
    maps: &Maps,
) -> bool {
    s.identity() == solution_of(
        c,
        id_a,
        maps.string(id_a as int).len() as int,
        maps.string(c.id_b as int).len() as int,
        s.errors,
        s.cigar,
        config.reversals,
    ).identity()
}

/// Whether one of the candidates is accepted and the solution stands for it.
pub open spec fn found_among(
    s: &Solution,
    candidates: Seq<Candidate>,
    id_a: usize,
    config: &Config,
    maps: &Maps,
) -> bool {
    exists|i: int|
        0 <= i < candidates.len() && accepted(#[trigger] &candidates[i], id_a as int, config, maps)
            && stands_for(s, &candidates[i], id_a, config, maps)
}

/// Whether one of the solutions speaks of the overlap that the candidate
/// stands for.
pub open spec fn kept_among(
    c: &Candidate,
    solutions: Seq<Solution>,
    id_a: usize,
    config: &Config,
    maps: &Maps,
) -> bool {
    exists|k: int|
        0 <= k < solutions.len() && same_overlap(#[trigger] &solutions[k], c, id_a, config, maps)
}

/// Whether no two solutions of the list are the same solution.
pub open spec fn all_distinct(solutions: Seq<Solution>) -> bool {
    forall|j: int, k: int|
        0 <= j < k < solutions.len() ==> solutions[j].identity() != solutions[k].identity()
}

/// The overlap that a candidate stands for does not hang on the errors: a
/// solution that is the same solution as one that speaks of the overlap
/// speaks of it too.
proof fn lemma_same_overlap(
    s: &Solution,
    t: &Solution,
    c: &Candidate,
    id_a: usize,
    config: &Config,
    maps: &Maps,
)
    requires
        same_overlap(t, c, id_a, config, maps),
        s.identity() == t.identity(),
    ensures
        same_overlap(s, c, id_a, config, maps),
{
    reveal(solution_of);
}

/// Whether one of the solutions is the same solution as `s`.
fn holds(solutions: &Vec<Solution>, s: &Solution) -> (found: bool)
    ensures
        found <==> exists|k: int|
            0 <= k < solutions@.len() && (#[trigger] solutions@[k]).identity() == s.identity(),
{
    let mut k: usize = 0;
    while k < solutions.len()
        invariant
            0 <= k <= solutions@.len(),
            forall|j: int| 0 <= j < k ==> (#[trigger] solutions@[j]).identity() != s.identity(),
        decreases solutions@.len() - k,
    {
        proof {
            solutions@[k as int].lemma_identity_sign(s);
        }
        if solutions[k].compare_identity(s) == 0 {
            return true;
        }
        k += 1;
    }
    false
}

/// Checks the candidates of the query `id_a` and gives the solutions as a
/// set.
///
/// Each solution stands for a candidate that is accepted, and keeps to the
/// threshold and the error rate. For each candidate that is accepted one of
/// the solutions speaks of its overlap. No two solutions are the same.
pub fn verify_all(id_a: usize, candidates: Vec<Candidate>, config: &Config, maps: &Maps) -> (solutions:
    Vec<Solution>)
    requires
        maps.wf(),
        config.wf(),
        id_a < maps.num_ids,
    ensures
        forall|k: int|
            0 <= k < solutions@.len() ==> found_among(
                #[trigger] &solutions@[k],
                candidates@,
                id_a,
                config,
                maps,
            ) && within_limits(&solutions@[k], config) && viewable(solutions@[k]),
        forall|i: int|
            0 <= i < candidates@.len() && accepted(
                #[trigger] &candidates@[i],
                id_a as int,
                config,
                maps,
            ) ==> kept_among(&candidates@[i], solutions@, id_a, config, maps),
        all_distinct(solutions@),
        paired(config, maps) ==> forall|k: int|
            0 <= k < solutions@.len() ==> (#[trigger] solutions@[k]).id_a < maps.num_ids
                && solutions@[k].id_b < maps.num_ids,
{
    let mut solutions: Vec<Solution> = Vec::new();
    let mut i: usize = 0;
    while i < candidates.len()
        invariant
            0 <= i <= candidates@.len(),
            maps.wf(),
            config.wf(),
            id_a < maps.num_ids,
            forall|k: int|
                0 <= k < solutions@.len() ==> found_among(
                    #[trigger] &solutions@[k],
                    candidates@,
                    id_a,
                    config,
                    maps,
                ) && within_limits(&solutions@[k], config) && viewable(solutions@[k]),
            forall|j: int|
                0 <= j < i && accepted(#[trigger] &candidates@[j], id_a as int, config, maps)
                    ==> kept_among(&candidates@[j], solutions@, id_a, config, maps),
            all_distinct(solutions@),
            paired(config, maps) ==> forall|k: int|
                0 <= k < solutions@.len() ==> (#[trigger] solutions@[k]).id_a < maps.num_ids
                    && solutions@[k].id_b < maps.num_ids,
        decreases candidates@.len() - i,
    {
        let ghost before = solutions@;
        match verify(id_a, &candidates[i], config, maps) {
            Some(s) => {
                if !holds(&solutions, &s) {
                    solutions.push(s);
                    proof {
                        let last = before.len() as int;
                        assert(same_overlap(&solutions@[last], &candidates@[i as int], id_a, config, maps));
                    }
                } else {
                    proof {
                        let k = choose|k: int|
                            0 <= k < before.len() && (#[trigger] before[k]).identity()
                                == s.identity();
                        lemma_same_overlap(
                            &solutions@[k],
                            &s,
                            &candidates@[i as int],
                            id_a,
                            config,
                            maps,
                        );
                    }
                }
            },
            None => {},
        }
        proof {
            assert forall|j: int|
                0 <= j < i + 1 && accepted(
                    #[trigger] &candidates@[j],
                    id_a as int,
                    config,
                    maps,
                ) implies kept_among(&candidates@[j], solutions@, id_a, config, maps) by {
                if j < i {
                    let k = choose|k: int|
                        0 <= k < before.len() && same_overlap(
                            #[trigger] &before[k],
                            &candidates@[j],
                            id_a,
                            config,
                            maps,
                        );
                    assert(solutions@[k] == before[k]);
                }
            }
        }
        i += 1;
    }
    solutions
}

/// The same way of laying two strings over each other as a candidate of
/// the other string: the candidate of the string `id_b` whose target is the
/// query `id_a`.
pub open spec fn mirrored(c: &Candidate, id_a: usize) -> Candidate {
    Candidate {
        id_b: id_a,
        overlap_a: c.overlap_b,
        overlap_b: c.overlap_a,
        overhang_left_a: (-c.overhang_left_a) as i32,
        debug_str: c.debug_str,
    }
}

/// A candidate that is accepted by places is accepted as a candidate of its
/// target too, the solutions that speak of the overlap of the one speak of
/// the overlap of the other, and the region of the one candidate in its
/// query is the region of the other in its target.
pub proof fn lemma_mirrored(c: &Candidate, id_a: usize, config: &Config, maps: &Maps)
    requires
        !config.edit_distance,
        id_a < maps.num_ids,
        accepted(c, id_a as int, config, maps),
    ensures
        accepted(&mirrored(c, id_a), c.id_b as int, config, maps),
        mirrored(c, id_a).spec_a1() == c.spec_b1(),
        mirrored(c, id_a).spec_b1() == c.spec_a1(),
        forall|t: Solution|
            #[trigger] same_overlap(&t, &mirrored(c, id_a), c.id_b, config, maps) ==> same_overlap(
                &t,
                c,
                id_a,
                config,
                maps,
            ),
{
    reveal(acceptable);
    let other = mirrored(c, id_a);
    let a = maps.string(id_a as int);
    let b = maps.string(c.id_b as int);
    lemma_hamming_symmetric(region_a(c, a), region_b(c, b));
    assert forall|t: Solution|
        #[trigger] same_overlap(&t, &other, c.id_b, config, maps) implies same_overlap(
        &t,
        c,
        id_a,
        config,
        maps,
    ) by {
        reveal(solution_of);
        let raw = raw_solution(c, id_a, a.len() as int, b.len() as int, t.errors, t.cigar);
        lemma_raw_views(raw, config.reversals);
    }
}

} // verus!
