//! The Kucherov mode: a pattern is cut into blocks so that a prefix with few
//! enough errors must hold enough error-free blocks to be found.

use crate::structs::run_config::ErrorRate;
use crate::text::{parse_i32, parsed_i32, push_signed, signed_decimal};
use vstd::prelude::*;
use vstd::string::StringExecFns;

verus! {

/// The numbers of a sequence of machine integers.
pub open spec fn as_ints(lengths: Seq<i32>) -> Seq<int> {
    lengths.map_values(|x: i32| x as int)
}

/// The sum of a sequence of numbers.
pub open spec fn sum(numbers: Seq<int>) -> int
    decreases numbers.len(),
{
    if numbers.len() == 0 {
        0
    } else {
        sum(numbers.drop_last()) + numbers.last()
    }
}

/// The lengths in `from ..= to`, in rising order, at which the whole-number
/// error budget is larger than at the length before.
pub open spec fn budget_steps(rate: ErrorRate, from: int, to: int) -> Seq<int>
    decreases to - from + 1,
{
    if to < from {
        Seq::empty()
    } else if rate.budget(to - 1) < rate.budget(to) {
        budget_steps(rate, from, to - 1).push(to)
    } else {
        budget_steps(rate, from, to - 1)
    }
}

/// The budget steps of a pattern from the threshold on, closed by the length
/// just past the pattern.
pub open spec fn boundaries(patt_len: int, rate: ErrorRate, thresh: int) -> Seq<int> {
    budget_steps(rate, thresh, patt_len).push(patt_len + 1)
}

/// Number of blocks that cover the pattern up to the first boundary.
pub open spec fn block_count(s: int, rate: ErrorRate, first: int) -> int {
    (if rate.budget(first) > 1 {
        rate.budget(first)
    } else {
        1
    }) + s - 1
}

/// Length of the last block before the first boundary: the larger of an even
/// share of the `first - 1` positions, rounded up, and `first - thresh`.
pub open spec fn long_block(k: int, first: int, thresh: int) -> int {
    let share = (first - 1 + k - 1) / k;
    if share > first - thresh {
        share
    } else {
        first - thresh
    }
}

/// Length of the shorter blocks ahead of the long block.
pub open spec fn short_block(k: int, first: int, thresh: int) -> int {
    if k == 1 {
        0
    } else {
        (first - 1 - long_block(k, first, thresh)) / (k - 1)
    }
}

/// How many of the blocks ahead of the long block are one longer than the
/// shorter ones.
pub open spec fn longer_blocks(k: int, first: int, thresh: int) -> int {
    first - 1 - long_block(k, first, thresh) - short_block(k, first, thresh) * (k - 1)
}

/// The block lengths of a pattern of length `patt_len` under parameter `s`.
///
/// A pattern shorter than the threshold is one block. Otherwise the first
/// `k` blocks cover the positions before the first boundary, shorter blocks
/// first and the long block last, and one block follows for each stretch
/// between neighbouring boundaries.
pub open spec fn block_lengths(s: int, patt_len: int, rate: ErrorRate, thresh: int) -> Seq<int> {
    if patt_len < thresh {
        seq![patt_len]
    } else {
        let bounds = boundaries(patt_len, rate, thresh);
        let first = bounds[0];
        let k = block_count(s, rate, first);
        let short = short_block(k, first, thresh);
        let longer = longer_blocks(k, first, thresh);
        Seq::new((k - 1 - longer) as nat, |i: int| short) + Seq::new(
            longer as nat,
            |i: int| short + 1,
        ) + seq![long_block(k, first, thresh)] + Seq::new(
            (bounds.len() - 1) as nat,
            |i: int| bounds[i + 1] - bounds[i],
        )
    }
}

/// The boundaries and the block count of the pattern fit the machine integers
/// that hold them.
pub open spec fn block_lengths_fit(s: int, patt_len: int, rate: ErrorRate, thresh: int) -> bool {
    thresh <= patt_len ==> patt_len < i32::MAX && block_count(
        s,
        rate,
        boundaries(patt_len, rate, thresh)[0],
    ) <= i32::MAX
}

/// Every budget step lies in the range it was taken from, and the steps rise.
pub proof fn lemma_budget_steps_range(rate: ErrorRate, from: int, to: int)
    ensures
        budget_steps(rate, from, to).len() <= (if to < from {
            0
        } else {
            to - from + 1
        }),
        forall|i: int|
            0 <= i < budget_steps(rate, from, to).len() ==> from <= #[trigger] budget_steps(
                rate,
                from,
                to,
            )[i] <= to,
        forall|i: int, j: int|
            0 <= i < j < budget_steps(rate, from, to).len() ==> budget_steps(rate, from, to)[i]
                < budget_steps(rate, from, to)[j],
    decreases to - from + 1,
{
    if to >= from {
        lemma_budget_steps_range(rate, from, to - 1);
    }
}

/// The boundaries start at or after the threshold, rise strictly, and end
/// just past the pattern.
pub proof fn lemma_boundaries(patt_len: int, rate: ErrorRate, thresh: int)
    requires
        thresh <= patt_len,
    ensures
        boundaries(patt_len, rate, thresh).len() >= 1,
        boundaries(patt_len, rate, thresh).last() == patt_len + 1,
        thresh <= boundaries(patt_len, rate, thresh)[0] <= patt_len + 1,
        forall|i: int|
            0 <= i < boundaries(patt_len, rate, thresh).len() ==> thresh <= #[trigger] boundaries(
                patt_len,
                rate,
                thresh,
            )[i] <= patt_len + 1,
        forall|i: int, j: int|
            0 <= i < j < boundaries(patt_len, rate, thresh).len() ==> boundaries(
                patt_len,
                rate,
                thresh,
            )[i] < boundaries(patt_len, rate, thresh)[j],
{
    lemma_budget_steps_range(rate, thresh, patt_len);
}

/// Adding a machine integer at the end adds its number at the end.
pub proof fn lemma_as_ints_push(lengths: Seq<i32>, last: i32)
    ensures
        as_ints(lengths.push(last)) == as_ints(lengths).push(last as int),
{
}

/// The sum of two sequences laid end to end is the sum of their sums.
pub proof fn lemma_sum_concat(front: Seq<int>, back: Seq<int>)
    ensures
        sum(front + back) == sum(front) + sum(back),
    decreases back.len(),
{
    if back.len() > 0 {
        assert((front + back).drop_last() =~= front + back.drop_last());
        lemma_sum_concat(front, back.drop_last());
    }
}

/// A sequence of `count` equal numbers sums to `count` times the number.
pub proof fn lemma_sum_constant(count: nat, value: int)
    ensures
        sum(Seq::new(count, |i: int| value)) == count * value,
    decreases count,
{
    if count > 0 {
        assert(Seq::new(count, |i: int| value).drop_last() =~= Seq::new(
            (count - 1) as nat,
            |i: int| value,
        ));
        lemma_sum_constant((count - 1) as nat, value);
        assert((count - 1) * value + value == count * value) by (nonlinear_arith);
    } else {
        assert(count * value == 0) by (nonlinear_arith)
            requires
                count == 0,
        ;
    }
}

/// The gaps between neighbours of the first `count + 1` numbers sum to the
/// distance from the first of them to the last.
pub proof fn lemma_sum_gaps(bounds: Seq<int>, count: nat)
    requires
        count < bounds.len(),
    ensures
        sum(Seq::new(count, |i: int| bounds[i + 1] - bounds[i])) == bounds[count as int]
            - bounds[0],
    decreases count,
{
    if count > 0 {
        assert(Seq::new(count, |i: int| bounds[i + 1] - bounds[i]).drop_last() =~= Seq::new(
            (count - 1) as nat,
            |i: int| bounds[i + 1] - bounds[i],
        ));
        lemma_sum_gaps(bounds, (count - 1) as nat);
    }
}

/// The blocks ahead of the first boundary are well formed: none is negative,
/// their counts are not negative, and together they hold `first - 1`
/// positions.
pub proof fn lemma_front_blocks(k: int, first: int, thresh: int)
    requires
        k >= 1,
        1 <= thresh <= first,
    ensures
        first - thresh <= long_block(k, first, thresh) <= first - 1,
        0 <= long_block(k, first, thresh),
        0 <= short_block(k, first, thresh) <= first - 1,
        0 <= longer_blocks(k, first, thresh) <= k - 1,
        k > 1 ==> longer_blocks(k, first, thresh) < k - 1,
        (k - 1 - longer_blocks(k, first, thresh)) * short_block(k, first, thresh) + longer_blocks(
            k,
            first,
            thresh,
        ) * (short_block(k, first, thresh) + 1) + long_block(k, first, thresh) == first - 1,
{
    let share = (first - 1 + k - 1) / k;
    assert(0 <= share <= first - 1) by (nonlinear_arith)
        requires
            share == (first - 1 + k - 1) / k,
            k >= 1,
            first >= 1,
    ;
    let big = long_block(k, first, thresh);
    let rest = first - 1 - big;
    let short = short_block(k, first, thresh);
    let longer = longer_blocks(k, first, thresh);
    if k > 1 {
        assert(0 <= short <= rest && 0 <= rest - short * (k - 1) < k - 1) by (nonlinear_arith)
            requires
                short == rest / (k - 1),
                rest >= 0,
                k > 1,
        ;
    } else {
        assert(short * (k - 1) == 0) by (nonlinear_arith)
            requires
                k == 1,
        ;
    }
    assert((k - 1 - longer) * short + longer * (short + 1) + big == first - 1)
        by (nonlinear_arith)
        requires
            longer == first - 1 - big - short * (k - 1),
    ;
}

/// The block lengths of a pattern that is at least as long as the threshold.
///
/// The first `k` blocks, `k` being the block count at the first boundary,
/// hold exactly the positions before that boundary; the last of them is the
/// long block and is at least `first - thresh` long; no block is negative;
/// all blocks together hold the whole pattern.
pub proof fn lemma_block_lengths(s: int, patt_len: int, rate: ErrorRate, thresh: int)
    requires
        s >= 1,
        rate.wf(),
        1 <= thresh <= patt_len,
    ensures
        ({
            let bounds = boundaries(patt_len, rate, thresh);
            let first = bounds[0];
            let k = block_count(s, rate, first);
            let blocks = block_lengths(s, patt_len, rate, thresh);
            &&& k >= s
            &&& blocks.len() == k + bounds.len() - 1
            &&& sum(blocks.take(k)) == first - 1
            &&& blocks[k - 1] == long_block(k, first, thresh)
            &&& blocks[k - 1] >= first - thresh
            &&& forall|i: int| 0 <= i < blocks.len() ==> #[trigger] blocks[i] >= 0
            &&& sum(blocks) == patt_len
        }),
{
    let bounds = boundaries(patt_len, rate, thresh);
    let first = bounds[0];
    let k = block_count(s, rate, first);
    let blocks = block_lengths(s, patt_len, rate, thresh);
    let short = short_block(k, first, thresh);
    let longer = longer_blocks(k, first, thresh);
    let big = long_block(k, first, thresh);
    lemma_boundaries(patt_len, rate, thresh);
    lemma_front_blocks(k, first, thresh);
    let shorts = Seq::new((k - 1 - longer) as nat, |i: int| short);
    let longs = Seq::new(longer as nat, |i: int| short + 1);
    let gaps = Seq::new((bounds.len() - 1) as nat, |i: int| bounds[i + 1] - bounds[i]);
    let front = shorts + longs + seq![big];
    assert(blocks.take(k) =~= front);
    lemma_sum_constant((k - 1 - longer) as nat, short);
    lemma_sum_constant(longer as nat, short + 1);
    lemma_sum_concat(shorts, longs);
    lemma_sum_concat(shorts + longs, seq![big]);
    assert(sum(seq![big]) == big) by {
        assert(seq![big].drop_last() =~= Seq::<int>::empty());
        assert(sum(Seq::<int>::empty()) == 0);
    }
    lemma_sum_gaps(bounds, (bounds.len() - 1) as nat);
    lemma_sum_concat(front, gaps);
    assert forall|i: int| 0 <= i < blocks.len() implies #[trigger] blocks[i] >= 0 by {
    }
}

/// The budget never shrinks as the length grows.
pub proof fn lemma_budget_monotone(rate: ErrorRate, shorter: int, longer: int)
    requires
        rate.wf(),
        0 <= shorter <= longer,
    ensures
        rate.budget(shorter) <= rate.budget(longer),
    decreases longer - shorter,
{
    if shorter < longer {
        lemma_budget_monotone(rate, shorter, longer - 1);
        rate.lemma_budget_bounds(longer - 1);
    }
}

/// What the rate allows for a length is less than the budget of the next
/// length, unless that budget is 0 and nothing is allowed.
pub proof fn lemma_allowance_below_budget(rate: ErrorRate, len: int)
    requires
        rate.wf(),
        len >= 0,
    ensures
        rate.allowance(len) <= (if rate.budget(len + 1) >= 1 {
            rate.budget(len + 1) - 1
        } else {
            0
        }),
{
    let n = rate.numerator as int;
    let d = rate.denominator as int;
    assert((n * len) / d <= (if (n * (len + 1) + d - 1) / d >= 1 {
        (n * (len + 1) + d - 1) / d - 1
    } else {
        0
    })) by (nonlinear_arith)
        requires
            0 <= n < d,
            len >= 0,
    ;
    assert(n * (len + 1) == rate.numerator * (len + 1));
}

/// Every length of the range at which the budget grows is a budget step.
pub proof fn lemma_step_member(rate: ErrorRate, from: int, to: int, x: int)
    requires
        from <= x <= to,
        rate.budget(x - 1) < rate.budget(x),
    ensures
        budget_steps(rate, from, to).contains(x),
    decreases to - from + 1,
{
    let steps = budget_steps(rate, from, to);
    if x == to {
        assert(steps[steps.len() - 1] == x);
    } else {
        lemma_step_member(rate, from, to - 1, x);
        let rest = budget_steps(rate, from, to - 1);
        let i = choose|i: int| 0 <= i < rest.len() && rest[i] == x;
        assert(steps[i] == x);
    }
}

/// From a budget step up to the next one the budget stays what it is at the
/// step.
pub proof fn lemma_between_steps(rate: ErrorRate, from: int, to: int, i: int, x: int)
    requires
        rate.wf(),
        from >= 1,
        0 <= i < budget_steps(rate, from, to).len(),
        budget_steps(rate, from, to)[i] <= x <= to,
        i + 1 < budget_steps(rate, from, to).len() ==> x < budget_steps(rate, from, to)[i + 1],
    ensures
        rate.budget(x) == rate.budget(budget_steps(rate, from, to)[i]),
    decreases x,
{
    let steps = budget_steps(rate, from, to);
    lemma_budget_steps_range(rate, from, to);
    if x > steps[i] {
        lemma_between_steps(rate, from, to, i, x - 1);
        rate.lemma_budget_bounds(x - 1);
        if rate.budget(x - 1) < rate.budget(x) {
            lemma_step_member(rate, from, to, x);
            let at = choose|at: int| 0 <= at < steps.len() && steps[at] == x;
        }
    }
}

/// The budget at a boundary is at most the budget at the first boundary and
/// one more for each boundary between.
pub proof fn lemma_boundary_budget(patt_len: int, rate: ErrorRate, thresh: int, i: int)
    requires
        rate.wf(),
        1 <= thresh <= patt_len,
        0 <= i < boundaries(patt_len, rate, thresh).len(),
    ensures
        rate.budget(boundaries(patt_len, rate, thresh)[i]) <= rate.budget(
            boundaries(patt_len, rate, thresh)[0],
        ) + i,
    decreases i,
{
    let bounds = boundaries(patt_len, rate, thresh);
    lemma_boundaries(patt_len, rate, thresh);
    if i > 0 {
        lemma_boundary_budget(patt_len, rate, thresh, i - 1);
        lemma_between_steps(rate, thresh, patt_len, i - 1, bounds[i] - 1);
        rate.lemma_budget_bounds(bounds[i] - 1);
    }
}

/// The last boundary that is no larger than a length below the last
/// boundary.
proof fn lemma_last_boundary(bounds: Seq<int>, j: int, top: int) -> (i: int)
    requires
        forall|a: int, b: int| 0 <= a < b < bounds.len() ==> bounds[a] < bounds[b],
        0 <= top < bounds.len(),
        bounds[0] <= j < bounds[top],
    ensures
        0 <= i < top,
        bounds[i] <= j < bounds[i + 1],
    decreases top,
{
    if bounds[top - 1] <= j {
        top - 1
    } else {
        lemma_last_boundary(bounds, j, top - 1)
    }
}

/// Where the blocks end: the first `k` blocks end just before the first
/// boundary, the block before the last of them ends before the threshold,
/// and each block behind them ends just before the next boundary.
pub proof fn lemma_block_ends(s: int, patt_len: int, rate: ErrorRate, thresh: int, i: int)
    requires
        s >= 1,
        rate.wf(),
        1 <= thresh <= patt_len,
        0 <= i < boundaries(patt_len, rate, thresh).len(),
    ensures
        ({
            let bounds = boundaries(patt_len, rate, thresh);
            let k = block_count(s, rate, bounds[0]);
            let blocks = block_lengths(s, patt_len, rate, thresh);
            &&& k >= 1
            &&& k + i <= blocks.len()
            &&& sum(blocks.take(k + i)) == bounds[i] - 1
            &&& sum(blocks.take(k - 1)) <= thresh - 1
        }),
{
    let bounds = boundaries(patt_len, rate, thresh);
    let first = bounds[0];
    let k = block_count(s, rate, first);
    let blocks = block_lengths(s, patt_len, rate, thresh);
    let short = short_block(k, first, thresh);
    let longer = longer_blocks(k, first, thresh);
    let big = long_block(k, first, thresh);
    lemma_boundaries(patt_len, rate, thresh);
    lemma_block_lengths(s, patt_len, rate, thresh);
    let shorts = Seq::new((k - 1 - longer) as nat, |x: int| short);
    let longs = Seq::new(longer as nat, |x: int| short + 1);
    let gaps = Seq::new((bounds.len() - 1) as nat, |x: int| bounds[x + 1] - bounds[x]);
    let front = shorts + longs + seq![big];
    assert(blocks.take(k) =~= front);
    assert(blocks.take(k - 1) =~= shorts + longs);
    lemma_sum_concat(shorts + longs, seq![big]);
    assert(sum(seq![big]) == big) by {
        assert(seq![big].drop_last() =~= Seq::<int>::empty());
        assert(sum(Seq::<int>::empty()) == 0);
    }
    assert(blocks.take(k + i) =~= front + gaps.take(i));
    lemma_sum_concat(front, gaps.take(i));
    assert(gaps.take(i) =~= Seq::new(i as nat, |x: int| bounds[x + 1] - bounds[x]));
    lemma_sum_gaps(bounds, i as nat);
}

/// The blocks are many enough for the errors that the rate allows: for each
/// length from the threshold on there is a block that begins before the
/// length is reached and that has at least as many blocks before it as the
/// rate allows errors for the length.
pub proof fn lemma_blocks_cover_budget(
    s: int,
    patt_len: int,
    rate: ErrorRate,
    thresh: int,
    j: int,
) -> (b: int)
    requires
        s >= 1,
        rate.wf(),
        1 <= thresh <= j <= patt_len,
    ensures
        0 <= b < block_lengths(s, patt_len, rate, thresh).len(),
        sum(block_lengths(s, patt_len, rate, thresh).take(b)) <= j - 1,
        rate.allowance(j) <= b,
{
    let bounds = boundaries(patt_len, rate, thresh);
    let first = bounds[0];
    let k = block_count(s, rate, first);
    lemma_boundaries(patt_len, rate, thresh);
    lemma_allowance_below_budget(rate, j);
    if j < first {
        lemma_block_ends(s, patt_len, rate, thresh, 0);
        lemma_budget_monotone(rate, j + 1, first);
        k - 1
    } else {
        let i = lemma_last_boundary(bounds, j, bounds.len() - 1);
        lemma_block_ends(s, patt_len, rate, thresh, i);
        lemma_boundary_budget(patt_len, rate, thresh, i + 1);
        lemma_budget_monotone(rate, j + 1, bounds[i + 1]);
        k + i
    }
}

/// A block count fits a machine integer whenever the pattern length and the
/// parameter together do.
pub proof fn lemma_block_lengths_fit(s: int, patt_len: int, rate: ErrorRate, thresh: int)
    requires
        s >= 1,
        rate.wf(),
        thresh >= 1,
        patt_len + s <= i32::MAX,
    ensures
        block_lengths_fit(s, patt_len, rate, thresh),
{
    if thresh <= patt_len {
        lemma_boundaries(patt_len, rate, thresh);
        rate.lemma_budget_bounds(boundaries(patt_len, rate, thresh)[0]);
    }
}

/// The smaller of a number of completed blocks and the number of pattern
/// blocks less the parameter.
pub open spec fn filtered(s: int, completed_blocks: int, patt_blocks: int) -> int {
    if completed_blocks <= patt_blocks - s {
        completed_blocks
    } else {
        patt_blocks - s
    }
}

/// Whether a partial match may be looked up as a candidate: the overlap
/// reaches the threshold, a block is completed, and the errors are within
/// what the completed blocks allow.
pub open spec fn admissible(
    s: int,
    generous_overlap_len: int,
    completed_blocks: int,
    thresh: int,
    errors: int,
) -> bool {
    &&& generous_overlap_len >= thresh
    &&& completed_blocks > 0
    &&& completed_blocks >= s - 1
    &&& errors <= completed_blocks - s + 1
}

/// The Kucherov mode with its parameter S, which is at least 1.
#[derive(Debug)]
pub struct KucherovMode {
    s_param: i32,
}

impl KucherovMode {
    #[verifier::type_invariant]
    spec fn parameter_is_positive(&self) -> bool {
        self.s_param >= 1
    }

    /// The parameter S.
    pub closed spec fn s(&self) -> int {
        self.s_param as int
    }

    /// The mode whose parameter is the one argument, a numeral of at least 1.
    pub fn new(args: &[&str]) -> (mode: Self)
        requires
            args@.len() == 1,
            parsed_i32(args@[0]@) is Some,
            parsed_i32(args@[0]@)->0 >= 1,
        ensures
            mode.s() == parsed_i32(args@[0]@)->0,
    {
        let parsed = parse_i32(args[0]);
        let s_param: i32 = parsed.unwrap();
        KucherovMode { s_param }
    }

    /// The name of the mode with its parameter.
    pub fn to_string(&self) -> (text: String)
        ensures
            text@ == "Kucherov S="@ + signed_decimal(self.s()),
    {
        let mut text = String::from_str("Kucherov S=");
        push_signed(&mut text, self.s_param as i64);
        text
    }

    /// The parameter S: the blocks to walk beyond the completed ones before
    /// positions are looked up.
    pub fn get_guaranteed_extra_blocks(&self) -> (blocks: i32)
        ensures
            blocks == self.s(),
            blocks >= 1,
    {
        proof {
            use_type_invariant(self);
        }
        self.s_param
    }

    /// The parameter S: the fewest blocks that a suffix is cut into.
    pub fn get_fewest_suff_blocks(&self) -> (blocks: i32)
        ensures
            blocks == self.s(),
            blocks >= 1,
    {
        proof {
            use_type_invariant(self);
        }
        self.s_param
    }

    /// The smaller of the completed blocks and the pattern blocks less S.
    #[allow(unused_variables)]
    pub fn filter_func(&self, completed_blocks: i32, patt_blocks: i32, blind_blocks: i32) -> (blocks:
        i32)
        requires
            patt_blocks - self.s() >= i32::MIN,
        ensures
            blocks == filtered(self.s(), completed_blocks as int, patt_blocks as int),
    {
        proof {
            use_type_invariant(self);
        }
        let rest = patt_blocks - self.s_param;
        if completed_blocks <= rest {
            completed_blocks
        } else {
            rest
        }
    }

    /// The block lengths of a pattern of length `patt_len`.
    pub fn get_block_lengths(&self, patt_len: i32, err_rate: ErrorRate, thresh: i32) -> (lengths:
        Vec<i32>)
        requires
            err_rate.wf(),
            thresh >= 1,
            block_lengths_fit(self.s(), patt_len as int, err_rate, thresh as int),
        ensures
            as_ints(lengths@) == block_lengths(
                self.s(),
                patt_len as int,
                err_rate,
                thresh as int,
            ),
            thresh <= patt_len ==> ({
                let first = boundaries(patt_len as int, err_rate, thresh as int)[0];
                let k = block_count(self.s(), err_rate, first);
                &&& 1 <= k <= lengths@.len()
                &&& sum(as_ints(lengths@).take(k)) == first - 1
                &&& lengths@[k - 1] >= first - thresh
            }),
    {
        proof {
            use_type_invariant(self);
        }
        let mut ls: Vec<i32> = Vec::new();
        if patt_len < thresh {
            ls.push(patt_len);
            return ls;
        }
        let mut l: i32 = thresh;
        while l <= patt_len
            invariant
                1 <= thresh <= l <= patt_len + 1,
                patt_len < i32::MAX,
                err_rate.wf(),
                as_ints(ls@) == budget_steps(err_rate, thresh as int, l - 1),
            decreases patt_len - l + 1,
        {
            if err_rate.error_budget(l - 1) < err_rate.error_budget(l) {
                ls.push(l);
                assert(as_ints(ls@) =~= budget_steps(err_rate, thresh as int, l - 1).push(
                    l as int,
                ));
            }
            l += 1;
        }
        ls.push(patt_len + 1);
        let ghost bounds = boundaries(patt_len as int, err_rate, thresh as int);
        proof {
            lemma_boundaries(patt_len as int, err_rate, thresh as int);
            lemma_block_lengths(self.s(), patt_len as int, err_rate, thresh as int);
        }
        let first: i32 = ls[0];
        assert(first == bounds[0]);
        let budget: i32 = err_rate.error_budget(first);
        let k: i32 = (if budget > 1 {
            budget
        } else {
            1
        }) + (self.s_param - 1);
        let ghost big_spec = long_block(k as int, first as int, thresh as int);
        let ghost short = short_block(k as int, first as int, thresh as int);
        let ghost longer = longer_blocks(k as int, first as int, thresh as int);
        proof {
            lemma_front_blocks(k as int, first as int, thresh as int);
        }
        let share: i64 = ((first - 1) as i64 + (k - 1) as i64) / (k as i64);
        let big_l: i32 = if share > (first - thresh) as i64 {
            share as i32
        } else {
            first - thresh
        };
        let p: i32 = if k == 1 {
            0
        } else {
            (first - 1 - big_l) / (k - 1)
        };
        assert(0 <= p * (k - 1) <= first - 1 - big_l) by (nonlinear_arith)
            requires
                0 <= first - 1 - big_l - p * (k - 1),
                p >= 0,
                k >= 1,
        ;
        let first_half_len: i32 = p * (k - 1) + big_l;
        let longer_blocks_in_first_half: i32 = first - 1 - first_half_len;

        let mut blocks: Vec<i32> = Vec::new();
        let shorter_count: i32 = k - 1 - longer_blocks_in_first_half;
        let mut i: i32 = 0;
        while i < shorter_count
            invariant
                0 <= i <= shorter_count,
                as_ints(blocks@) =~= Seq::new(i as nat, |j: int| p as int),
            decreases shorter_count - i,
        {
            proof {
                lemma_as_ints_push(blocks@, p);
            }
            blocks.push(p);
            i += 1;
        }
        let ghost shorts = as_ints(blocks@);
        let mut i: i32 = 0;
        while i < longer_blocks_in_first_half
            invariant
                0 <= i <= longer_blocks_in_first_half,
                p < i32::MAX,
                as_ints(blocks@) =~= shorts + Seq::new(i as nat, |j: int| p + 1),
            decreases longer_blocks_in_first_half - i,
        {
            proof {
                lemma_as_ints_push(blocks@, (p + 1) as i32);
            }
            blocks.push(p + 1);
            i += 1;
        }
        blocks.push(big_l);
        let ghost front = as_ints(blocks@);
        assert(front =~= Seq::new((k - 1 - longer) as nat, |j: int| short) + Seq::new(
            longer as nat,
            |j: int| short + 1,
        ) + seq![big_spec]);
        let mut i: usize = 0;
        while i < ls.len() - 1
            invariant
                0 <= i <= ls.len() - 1,
                as_ints(ls@) == bounds,
                forall|a: int, b: int| 0 <= a < b < bounds.len() ==> bounds[a] < bounds[b],
                forall|a: int| 0 <= a < bounds.len() ==> 1 <= #[trigger] bounds[a],
                as_ints(blocks@) =~= front + Seq::new(
                    i as nat,
                    |j: int| bounds[j + 1] - bounds[j],
                ),
            decreases ls.len() - 1 - i,
        {
            assert(as_ints(ls@)[i + 1] == ls@[i + 1] as int);
            assert(bounds[i as int] >= 1);
            proof {
                lemma_as_ints_push(blocks@, (ls@[i + 1] - ls@[i as int]) as i32);
            }
            blocks.push(ls[i + 1] - ls[i]);
            i += 1;
        }
        assert(as_ints(blocks@) =~= block_lengths(
            self.s(),
            patt_len as int,
            err_rate,
            thresh as int,
        ));
        blocks
    }

    /// Whether a partial match may be looked up as a candidate.
    pub fn candidate_condition(
        &self,
        generous_overlap_len: i32,
        completed_blocks: i32,
        thresh: i32,
        errors: i32,
    ) -> (candidate: bool)
        ensures
            candidate == admissible(
                self.s(),
                generous_overlap_len as int,
                completed_blocks as int,
                thresh as int,
                errors as int,
            ),
    {
        proof {
            use_type_invariant(self);
        }
        let c1 = generous_overlap_len >= thresh;
        let c2 = completed_blocks > 0;
        let c3 = completed_blocks >= self.s_param - 1 && errors <= (completed_blocks
            - self.s_param + 1);
        c1 && c2 && c3
    }
}

} // verus!
