//! Overlap records: unverified candidates and verified, oriented solutions.

use crate::order::{first_decisive, int_sign, ordering_of, ordering_with, sign};
use std::cmp::Ordering;
use std::hash::{Hash, Hasher};
use vstd::prelude::*;

verus! {

/// `Hash::hash` of `usize`: feeds the number to the hasher. Nothing is
/// stated of what the hasher makes of it.
pub assume_specification<H: Hasher>[ <usize as Hash>::hash ](value: &usize, state: &mut H);

/// `Hash::hash` of `i32`: feeds the number to the hasher. Nothing is stated
/// of what the hasher makes of it.
pub assume_specification<H: Hasher>[ <i32 as Hash>::hash ](value: &i32, state: &mut H);

/// Relative orientation of the two reads of a solution.
///
/// `Normal`: neither read is reversed. `Reversed`: A is as given and B is reversed.
#[derive(Hash, PartialEq, Eq, Debug, PartialOrd, Ord, Clone, Copy, Structural)]
pub enum Orientation {
    Normal,
    Reversed,
}

impl Orientation {
    /// The letter that stands for the orientation in the output table.
    pub open spec fn letter(self) -> char {
        match self {
            Orientation::Normal => 'N',
            Orientation::Reversed => 'I',
        }
    }

    /// Position of the orientation in the order `Normal < Reversed`.
    pub open spec fn rank(self) -> int {
        match self {
            Orientation::Normal => 0,
            Orientation::Reversed => 1,
        }
    }

    /// The one-letter text of the orientation: `N` or `I`.
    pub fn to_string(&self) -> (text: String)
        ensures
            text@ == seq![self.letter()],
    {
        let mut text = String::new();
        match self {
            Orientation::Normal => text.push('N'),
            Orientation::Reversed => text.push('I'),
        }
        text
    }
}

/// A potential overlap between the query read A and a target read B, not yet
/// checked and not yet oriented.
///
/// Read A splits into three consecutive parts of lengths `a1`, `a2`, `a3`, and
/// read B into `b1`, `b2`, `b3`; the middle parts are the ones that overlap.
#[derive(Hash, PartialEq, Eq, Debug)]
pub struct Candidate {
    pub id_b: usize,
    pub overlap_a: usize,
    pub overlap_b: usize,
    /// Positive: A has an unpaired prefix. Negative: B has one.
    pub overhang_left_a: i32,
    pub debug_str: String,
}

impl Candidate {
    /// Length of the part of A before the overlap.
    pub open spec fn spec_a1(&self) -> int {
        if self.overhang_left_a > 0 {
            self.overhang_left_a as int
        } else {
            0
        }
    }

    /// Length of the part of B before the overlap.
    pub open spec fn spec_b1(&self) -> int {
        if self.overhang_left_a < 0 {
            -(self.overhang_left_a as int)
        } else {
            0
        }
    }

    /// Length of the part of A before the overlap.
    #[inline]
    pub fn a1(&self) -> (len: usize)
        ensures
            len == self.spec_a1(),
    {
        if self.overhang_left_a > 0 {
            self.overhang_left_a as usize
        } else {
            0
        }
    }

    /// Length of the part of B before the overlap.
    #[inline]
    pub fn b1(&self) -> (len: usize)
        ensures
            len == self.spec_b1(),
    {
        if self.overhang_left_a < 0 {
            let wide: i64 = -(self.overhang_left_a as i64);
            wide as usize
        } else {
            0
        }
    }

    /// Length of the overlapping part of A.
    #[inline]
    pub fn a2(&self) -> (len: usize)
        ensures
            len == self.overlap_a,
    {
        self.overlap_a
    }

    /// Length of the overlapping part of B.
    #[inline]
    pub fn b2(&self) -> (len: usize)
        ensures
            len == self.overlap_b,
    {
        self.overlap_b
    }

    /// Length of the part of A after the overlap, for a read A of length `a_len`.
    #[inline]
    pub fn a3(&self, a_len: usize) -> (len: usize)
        requires
            a_len >= self.spec_a1() + self.overlap_a,
        ensures
            len == a_len - self.spec_a1() - self.overlap_a,
    {
        a_len - self.a1() - self.a2()
    }

    /// Length of the part of B after the overlap, for a read B of length `b_len`.
    #[inline]
    pub fn b3(&self, b_len: usize) -> (len: usize)
        requires
            b_len >= self.spec_b1() + self.overlap_b,
        ensures
            len == b_len - self.spec_b1() - self.overlap_b,
    {
        b_len - self.b1() - self.b2()
    }
}

/// A verified overlap of read A with read B, oriented.
///
/// Two solutions are the same solution where they agree in everything but
/// `errors` and `cigar`.
#[derive(Debug)]
pub struct Solution {
    pub id_a: usize,
    pub id_b: usize,
    pub orientation: Orientation,
    /// How far B begins to the right of the beginning of A; negative where B
    /// begins to the left.
    pub overhang_left_a: i32,
    /// How far B ends to the right of the end of A; negative where B ends to
    /// the left.
    pub overhang_right_b: i32,
    pub overlap_a: usize,
    pub overlap_b: usize,
    pub errors: u32,
    pub cigar: String,
}

/// The sign of a number of 32 bits against another.
fn compare_i32(a: i32, b: i32) -> (s: i8)
    ensures
        s == int_sign(a as int, b as int),
{
    if a < b {
        -1
    } else if a > b {
        1
    } else {
        0
    }
}

/// The sign of a length against another.
fn compare_usize(a: usize, b: usize) -> (s: i8)
    ensures
        s == int_sign(a as int, b as int),
{
    if a < b {
        -1
    } else if a > b {
        1
    } else {
        0
    }
}

/// The position of an orientation in the order `Normal < Reversed`.
fn orientation_rank(orientation: &Orientation) -> (rank: i32)
    ensures
        rank == orientation.rank(),
{
    match orientation {
        Orientation::Normal => 0,
        Orientation::Reversed => 1,
    }
}

impl Solution {
    /// What makes a solution the solution it is: the two ids, the
    /// orientation, the two overhangs and the two overlap lengths.
    pub open spec fn identity(&self) -> (int, int, int, int, int, int, int) {
        (
            self.id_a as int,
            self.id_b as int,
            self.orientation.rank(),
            self.overhang_left_a as int,
            self.overhang_right_b as int,
            self.overlap_a as int,
            self.overlap_b as int,
        )
    }

    /// The sign of comparing two solutions by orientation, overhangs and
    /// overlap lengths, in this order.
    pub open spec fn shape_sign(&self, other: &Solution) -> int {
        first_decisive(
            int_sign(self.orientation.rank(), other.orientation.rank()),
            first_decisive(
                int_sign(self.overhang_left_a as int, other.overhang_left_a as int),
                first_decisive(
                    int_sign(self.overhang_right_b as int, other.overhang_right_b as int),
                    first_decisive(
                        int_sign(self.overlap_a as int, other.overlap_a as int),
                        int_sign(self.overlap_b as int, other.overlap_b as int),
                    ),
                ),
            ),
        )
    }

    /// The sign of comparing two solutions by what makes them the solutions
    /// they are: first by the ids, then by the shape.
    pub open spec fn identity_sign(&self, other: &Solution) -> int {
        first_decisive(
            int_sign(self.id_a as int, other.id_a as int),
            first_decisive(int_sign(self.id_b as int, other.id_b as int), self.shape_sign(other)),
        )
    }

    /// Comparing by identity is comparing the identities, and its sign is 0
    /// exactly where they are the same.
    pub proof fn lemma_identity_sign(&self, other: &Solution)
        ensures
            -1 <= self.identity_sign(other) <= 1,
            self.identity_sign(other) == 0 <==> self.identity() == other.identity(),
            other.identity_sign(self) == -self.identity_sign(other),
    {
    }

    /// Both overhangs can change their sign.
    pub open spec fn flippable(&self) -> bool {
        self.overhang_left_a > i32::MIN && self.overhang_right_b > i32::MIN
    }

    /// The same overlap seen from B: the reads change places and both
    /// overhangs change their sign.
    pub open spec fn flipped(self) -> Solution {
        Solution {
            id_a: self.id_b,
            id_b: self.id_a,
            overhang_left_a: (-self.overhang_left_a) as i32,
            overhang_right_b: (-self.overhang_right_b) as i32,
            overlap_a: self.overlap_b,
            overlap_b: self.overlap_a,
            ..self
        }
    }

    /// The same overlap read from right to left: the overhangs change places
    /// and both change their sign.
    pub open spec fn unreversed(self) -> Solution {
        Solution {
            overhang_left_a: (-self.overhang_right_b) as i32,
            overhang_right_b: (-self.overhang_left_a) as i32,
            ..self
        }
    }

    /// Turns the solution into the same overlap seen from B.
    pub fn v_flip(&mut self)
        requires
            old(self).flippable(),
        ensures
            *final(self) == old(self).flipped(),
    {
        self.overhang_left_a = -self.overhang_left_a;
        self.overhang_right_b = -self.overhang_right_b;
        let id = self.id_a;
        self.id_a = self.id_b;
        self.id_b = id;
        let overlap = self.overlap_a;
        self.overlap_a = self.overlap_b;
        self.overlap_b = overlap;
    }

    /// Turns the solution into the same overlap read from right to left.
    pub fn un_reverse(&mut self)
        requires
            old(self).flippable(),
        ensures
            *final(self) == old(self).unreversed(),
    {
        let left = self.overhang_left_a;
        self.overhang_left_a = -self.overhang_right_b;
        self.overhang_right_b = -left;
    }

    /// Seeing an overlap from B and then from B again gives back the
    /// solution.
    pub proof fn lemma_v_flip_twice(self)
        requires
            self.flippable(),
        ensures
            self.flipped().flippable(),
            self.flipped().flipped() == self,
    {
    }

    /// Reading an overlap from right to left and then from right to left
    /// again gives back the solution.
    pub proof fn lemma_un_reverse_twice(self)
        requires
            self.flippable(),
        ensures
            self.unreversed().flippable(),
            self.unreversed().unreversed() == self,
    {
    }

    /// The sign of comparing two solutions by their shape.
    pub fn compare_shape(&self, other: &Solution) -> (s: i8)
        ensures
            s == self.shape_sign(other),
    {
        let by_orientation = compare_i32(
            orientation_rank(&self.orientation),
            orientation_rank(&other.orientation),
        );
        if by_orientation != 0 {
            return by_orientation;
        }
        let by_left = compare_i32(self.overhang_left_a, other.overhang_left_a);
        if by_left != 0 {
            return by_left;
        }
        let by_right = compare_i32(self.overhang_right_b, other.overhang_right_b);
        if by_right != 0 {
            return by_right;
        }
        let by_overlap = compare_usize(self.overlap_a, other.overlap_a);
        if by_overlap != 0 {
            return by_overlap;
        }
        compare_usize(self.overlap_b, other.overlap_b)
    }

    /// The sign of comparing two solutions by what makes them the solutions
    /// they are.
    pub fn compare_identity(&self, other: &Solution) -> (s: i8)
        ensures
            s == self.identity_sign(other),
    {
        let by_a = compare_usize(self.id_a, other.id_a);
        if by_a != 0 {
            return by_a;
        }
        let by_b = compare_usize(self.id_b, other.id_b);
        if by_b != 0 {
            return by_b;
        }
        self.compare_shape(other)
    }

    /// Compares two solutions by what makes them the solutions they are.
    pub fn cmp(&self, other: &Solution) -> (ordering: Ordering)
        ensures
            sign(ordering) == self.identity_sign(other),
            ordering == ordering_with(self.identity_sign(other)),
    {
        ordering_of(self.compare_identity(other))
    }
}

impl PartialEq for Solution {
    fn eq(&self, other: &Self) -> (equal: bool) {
        self.compare_identity(other) == 0
    }
}

impl vstd::std_specs::cmp::PartialEqSpecImpl for Solution {
    open spec fn obeys_eq_spec() -> bool {
        true
    }

    open spec fn eq_spec(&self, other: &Self) -> bool {
        self.identity_sign(other) == 0
    }
}

impl Eq for Solution {

}

impl PartialOrd for Solution {
    fn partial_cmp(&self, other: &Self) -> (ordering: Option<Ordering>) {
        Some(self.cmp(other))
    }
}

impl vstd::std_specs::cmp::PartialOrdSpecImpl for Solution {
    open spec fn obeys_partial_cmp_spec() -> bool {
        true
    }

    open spec fn partial_cmp_spec(&self, other: &Self) -> Option<Ordering> {
        Some(ordering_with(self.identity_sign(other)))
    }
}

impl Hash for Solution {
    /// Feeds the hasher what makes the solution the solution it is, and
    /// nothing of `errors` and `cigar`.
    fn hash<H: Hasher>(&self, state: &mut H) {
        self.id_a.hash(state);
        self.id_b.hash(state);
        orientation_rank(&self.orientation).hash(state);
        self.overlap_a.hash(state);
        self.overlap_b.hash(state);
        self.overhang_left_a.hash(state);
        self.overhang_right_b.hash(state);
    }
}

} // verus!
