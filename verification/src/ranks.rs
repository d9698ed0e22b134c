//! Why the backward search is right: a step with a symbol turns the ranks
//! of the suffixes that begin with a string into the ranks of those that
//! begin with the symbol and go on with the string.

use crate::index::{
    closed_by_least, is_bwt, is_suffix_array, lemma_counts, lemma_occurrences_grow, occurrences,
    smaller,
};
use crate::order::{bytes_sign, lemma_bytes_sign_basics};
use vstd::prelude::*;
use vstd::relations::injective_on;
use vstd::set_lib::{lemma_int_range, lemma_map_size, lemma_subset_equality, set_int_range};

verus! {

/// Whether the string `s` begins with the string `w`.
pub open spec fn begins(s: Seq<u8>, w: Seq<u8>) -> bool {
    w.len() <= s.len() && s.take(w.len() as int) == w
}

/// Whether the suffix of the rank `r` begins with the string `w`.
pub open spec fn matches_at(text: Seq<u8>, sa: Seq<usize>, r: int, w: Seq<u8>) -> bool {
    begins(text.skip(sa[r] as int), w)
}

/// Whether the ranks from `lower` to `upper` are those of the suffixes that
/// begin with the string `w`, and no other rank is.
pub open spec fn is_match_range(
    text: Seq<u8>,
    sa: Seq<usize>,
    lower: int,
    upper: int,
    w: Seq<u8>,
) -> bool {
    forall|r: int|
        0 <= r < sa.len() ==> ((lower <= r <= upper) <==> #[trigger] matches_at(text, sa, r, w))
}

/// Of two ranks the smaller one is the one with the smaller suffix.
pub proof fn lemma_rank_order(text: Seq<u8>, sa: Seq<usize>, r1: int, r2: int)
    requires
        is_suffix_array(text, sa),
        0 <= r1 < sa.len(),
        0 <= r2 < sa.len(),
    ensures
        r1 < r2 <==> bytes_sign(text.skip(sa[r1] as int), text.skip(sa[r2] as int)) < 0,
        r1 == r2 <==> sa[r1] == sa[r2],
{
    let x = text.skip(sa[r1] as int);
    let y = text.skip(sa[r2] as int);
    lemma_bytes_sign_basics(x, y);
}

/// Every place of the text is named by a rank.
pub proof fn lemma_every_place_ranked(text: Seq<u8>, sa: Seq<usize>, place: int)
    requires
        is_suffix_array(text, sa),
        0 <= place < text.len(),
    ensures
        exists|r: int| 0 <= r < sa.len() && #[trigger] sa[r] == place,
{
    let n = text.len() as int;
    let ranks = set_int_range(0, n);
    let name = |r: int| sa[r] as int;
    let named = ranks.map(name);
    lemma_int_range(0, n);
    assert(injective_on(name, ranks)) by {
        assert forall|r1: int, r2: int|
            ranks.contains(r1) && ranks.contains(r2) && #[trigger] name(r1) == #[trigger] name(
                r2,
            ) implies r1 == r2 by {
            lemma_rank_order(text, sa, r1, r2);
        }
    }
    lemma_map_size(ranks, named, name);
    assert(named.subset_of(ranks)) by {
        assert forall|p: int| named.contains(p) implies ranks.contains(p) by {
            let r = choose|r: int| ranks.contains(r) && name(r) == p;
        }
    }
    lemma_subset_equality(named, ranks);
    assert(named.contains(place));
    let r = choose|r: int| ranks.contains(r) && name(r) == place;
}

/// The rank of the suffix that begins at the place.
pub open spec fn rank_of(sa: Seq<usize>, place: int) -> int {
    choose|r: int| 0 <= r < sa.len() && #[trigger] sa[r] == place
}

/// The rank of a place of the text is a rank, and it names the place.
pub proof fn lemma_rank_of(text: Seq<u8>, sa: Seq<usize>, place: int)
    requires
        is_suffix_array(text, sa),
        0 <= place < text.len(),
    ensures
        0 <= rank_of(sa, place) < sa.len(),
        sa[rank_of(sa, place)] == place,
{
    lemma_every_place_ranked(text, sa, place);
}

/// The first symbols of the suffixes, in the order of their ranks.
pub open spec fn first_column(text: Seq<u8>, sa: Seq<usize>) -> Seq<u8> {
    Seq::new(sa.len(), |r: int| text[sa[r] as int])
}

/// Whether the symbols never fall from one place to the next.
pub open spec fn rises(f: Seq<u8>) -> bool {
    forall|i: int, j: int| 0 <= i < j < f.len() ==> f[i] <= f[j]
}

/// The first symbols of the suffixes never fall as the ranks rise.
pub proof fn lemma_first_column_rises(text: Seq<u8>, sa: Seq<usize>)
    requires
        is_suffix_array(text, sa),
    ensures
        rises(first_column(text, sa)),
{
    let f = first_column(text, sa);
    assert forall|i: int, j: int| 0 <= i < j < f.len() implies f[i] <= f[j] by {
    }
}

/// In symbols that never fall, those smaller than `a` come first and those
/// that are `a` come right after them.
pub proof fn lemma_sorted_ranks(f: Seq<u8>, a: u8, r: int)
    requires
        rises(f),
        0 <= r < f.len(),
    ensures
        f[r] < a <==> r < smaller(f, a as int),
        f[r] == a <==> smaller(f, a as int) <= r < smaller(f, a as int) + occurrences(f, a),
    decreases f.len(),
{
    let front = f.drop_last();
    let k = f.len() - 1;
    lemma_counts(front, a, 0);
    assert(rises(front)) by {
        assert forall|i: int, j: int| 0 <= i < j < front.len() implies front[i] <= front[j] by {
        }
    }
    if r < k {
        lemma_sorted_ranks(front, a, r);
    } else if k > 0 {
        lemma_sorted_ranks(front, a, k - 1);
    }
}

/// Taking one symbol out of a string takes it out of the counts.
pub proof fn lemma_remove_counts(x: Seq<u8>, j: int, a: u8)
    requires
        0 <= j < x.len(),
    ensures
        occurrences(x.remove(j), a) + (if x[j] == a {
            1nat
        } else {
            0nat
        }) == occurrences(x, a),
        smaller(x.remove(j), a as int) + (if x[j] < a {
            1nat
        } else {
            0nat
        }) == smaller(x, a as int),
    decreases x.len(),
{
    if j < x.len() - 1 {
        assert(x.remove(j).drop_last() =~= x.drop_last().remove(j));
        lemma_remove_counts(x.drop_last(), j, a);
    }
}

/// Whether `at` names each place of a string of its length once at most.
pub open spec fn rearranges(at: Seq<int>) -> bool {
    &&& forall|i: int| 0 <= i < at.len() ==> 0 <= #[trigger] at[i] < at.len()
    &&& forall|i: int, j: int| 0 <= i < j < at.len() ==> at[i] != at[j]
}

/// A string whose symbols are those of another in another order holds each
/// symbol as often, and as many symbols smaller than a given one.
pub proof fn lemma_rearranged_counts(x: Seq<u8>, y: Seq<u8>, at: Seq<int>, a: u8)
    requires
        x.len() == y.len(),
        at.len() == y.len(),
        rearranges(at),
        forall|i: int| 0 <= i < y.len() ==> #[trigger] y[i] == x[at[i]],
    ensures
        occurrences(y, a) == occurrences(x, a),
        smaller(y, a as int) == smaller(x, a as int),
    decreases y.len(),
{
    let n = y.len() as int;
    if n > 0 {
        let j = at[n - 1];
        let x_rest = x.remove(j);
        let y_rest = y.drop_last();
        let at_rest = Seq::new(
            (n - 1) as nat,
            |i: int|
                if at[i] > j {
                    at[i] - 1
                } else {
                    at[i]
                },
        );
        assert forall|i: int| 0 <= i < y_rest.len() implies #[trigger] y_rest[i]
            == x_rest[at_rest[i]] by {
        }
        assert(rearranges(at_rest)) by {
            assert forall|i: int| 0 <= i < at_rest.len() implies 0 <= #[trigger] at_rest[i]
                < at_rest.len() by {
            }
            assert forall|i: int, k: int| 0 <= i < k < at_rest.len() implies at_rest[i]
                != at_rest[k] by {
            }
        }
        lemma_rearranged_counts(x_rest, y_rest, at_rest, a);
        lemma_remove_counts(x, j, a);
    }
}

/// The transform and the first symbols of the suffixes hold each symbol as
/// often as each other, and as many symbols smaller than a given one.
pub proof fn lemma_columns_agree(text: Seq<u8>, sa: Seq<usize>, bwt: Seq<u8>, a: u8)
    requires
        text.len() > 0,
        is_suffix_array(text, sa),
        is_bwt(text, sa, bwt),
    ensures
        occurrences(bwt, a) == occurrences(first_column(text, sa), a),
        smaller(bwt, a as int) == smaller(first_column(text, sa), a as int),
{
    let n = text.len() as int;
    let first = Seq::new(n as nat, |r: int| sa[r] as int);
    let before = Seq::new(
        n as nat,
        |r: int|
            if sa[r] > 0 {
                sa[r] - 1
            } else {
                n - 1
            },
    );
    assert(rearranges(first)) by {
        assert forall|i: int, j: int| 0 <= i < j < first.len() implies first[i] != first[j] by {
            lemma_rank_order(text, sa, i, j);
        }
    }
    assert(rearranges(before)) by {
        assert forall|i: int, j: int| 0 <= i < j < before.len() implies before[i]
            != before[j] by {
            lemma_rank_order(text, sa, i, j);
        }
    }
    lemma_rearranged_counts(text, first_column(text, sa), first, a);
    lemma_rearranged_counts(text, bwt, before, a);
}

/// Whether a step of the backward search can be reasoned about: the text
/// ends with a symbol smaller than all the others, `sa` and `bwt` are its
/// suffix array and its transform, and `a` is not that last symbol.
pub open spec fn steppable(text: Seq<u8>, sa: Seq<usize>, bwt: Seq<u8>, a: u8) -> bool {
    &&& closed_by_least(text)
    &&& is_suffix_array(text, sa)
    &&& is_bwt(text, sa, bwt)
    &&& a != text.last()
}

/// The rank of the suffix that begins one place before the suffix of the
/// rank `q`.
pub open spec fn rank_before(sa: Seq<usize>, q: int) -> int {
    rank_of(sa, sa[q] - 1)
}

/// Where the transform holds `a` at a rank, the suffix of that rank does not
/// begin the text, and the suffix one place before it begins with `a`.
pub proof fn lemma_rank_before(text: Seq<u8>, sa: Seq<usize>, bwt: Seq<u8>, a: u8, q: int)
    requires
        steppable(text, sa, bwt, a),
        0 <= q < bwt.len(),
        bwt[q] == a,
    ensures
        sa[q] > 0,
        0 <= rank_before(sa, q) < sa.len(),
        sa[rank_before(sa, q)] == sa[q] - 1,
        first_column(text, sa)[rank_before(sa, q)] == a,
        text.skip(sa[q] - 1) == seq![a] + text.skip(sa[q] as int),
{
    lemma_rank_of(text, sa, sa[q] - 1);
}

/// Among the ranks at which the transform holds `a`, the suffixes one place
/// before keep the order of the ranks.
pub proof fn lemma_step_order(
    text: Seq<u8>,
    sa: Seq<usize>,
    bwt: Seq<u8>,
    a: u8,
    q1: int,
    q2: int,
)
    requires
        steppable(text, sa, bwt, a),
        0 <= q1 < q2 < bwt.len(),
        bwt[q1] == a,
        bwt[q2] == a,
    ensures
        rank_before(sa, q1) < rank_before(sa, q2),
{
    lemma_rank_before(text, sa, bwt, a, q1);
    lemma_rank_before(text, sa, bwt, a, q2);
    let x = text.skip(sa[q1] as int);
    let y = text.skip(sa[q2] as int);
    assert((seq![a] + x).drop_first() =~= x);
    assert((seq![a] + y).drop_first() =~= y);
    lemma_rank_order(text, sa, rank_before(sa, q1), rank_before(sa, q2));
}

/// The ranks of the less table for `a`, moved on by the occurrences of `a`
/// in the transform before the rank `q`.
pub open spec fn stepped(bwt: Seq<u8>, a: u8, q: int) -> int {
    (smaller(bwt, a as int) + occurrences(bwt.take(q), a)) as int
}

/// The suffix one place before a rank at which the transform holds `a` has
/// at least the rank that a step gives for any rank that is not larger.
proof fn lemma_step_lower(text: Seq<u8>, sa: Seq<usize>, bwt: Seq<u8>, a: u8, q: int, q1: int)
    requires
        steppable(text, sa, bwt, a),
        0 <= q <= q1 < bwt.len(),
        bwt[q1] == a,
    ensures
        rank_before(sa, q1) >= stepped(bwt, a, q),
    decreases q,
{
    lemma_rank_before(text, sa, bwt, a, q1);
    if q == 0 {
        lemma_sorted_ranks(first_column(text, sa), a, rank_before(sa, q1));
        lemma_columns_agree(text, sa, bwt, a);
    } else {
        lemma_step_lower(text, sa, bwt, a, q - 1, q1);
        assert(bwt.take(q).drop_last() =~= bwt.take(q - 1));
        if bwt[q - 1] == a {
            lemma_step_lower(text, sa, bwt, a, q - 1, q - 1);
            lemma_step_order(text, sa, bwt, a, q - 1, q1);
        }
    }
}

/// The suffix one place before a rank at which the transform holds `a` has
/// a rank below the rank that a step gives for any rank that is larger.
proof fn lemma_step_upper(text: Seq<u8>, sa: Seq<usize>, bwt: Seq<u8>, a: u8, q: int, q1: int)
    requires
        steppable(text, sa, bwt, a),
        0 <= q1 < q <= bwt.len(),
        bwt[q1] == a,
    ensures
        rank_before(sa, q1) < stepped(bwt, a, q),
    decreases bwt.len() - q,
{
    lemma_rank_before(text, sa, bwt, a, q1);
    if q == bwt.len() {
        lemma_sorted_ranks(first_column(text, sa), a, rank_before(sa, q1));
        lemma_columns_agree(text, sa, bwt, a);
        assert(bwt.take(q) =~= bwt);
    } else {
        lemma_step_upper(text, sa, bwt, a, q + 1, q1);
        assert(bwt.take(q + 1).drop_last() =~= bwt.take(q));
        if bwt[q] == a {
            lemma_step_upper(text, sa, bwt, a, q + 1, q);
            lemma_step_order(text, sa, bwt, a, q1, q);
        }
    }
}

/// The suffix one place before a rank at which the transform holds `a` has
/// the rank that a step gives for that rank.
pub proof fn lemma_step_rank(text: Seq<u8>, sa: Seq<usize>, bwt: Seq<u8>, a: u8, q: int)
    requires
        steppable(text, sa, bwt, a),
        0 <= q < bwt.len(),
        bwt[q] == a,
    ensures
        rank_before(sa, q) == stepped(bwt, a, q),
{
    lemma_step_lower(text, sa, bwt, a, q, q);
    lemma_step_upper(text, sa, bwt, a, q + 1, q);
    assert(bwt.take(q + 1).drop_last() =~= bwt.take(q));
}

/// A rank between `lo` and `hi` at which the transform holds `a` for the
/// `k`-th time, where the occurrences of `a` before `lo` are `k` at most
/// and those before `hi` are more.
proof fn lemma_find_occurrence(bwt: Seq<u8>, a: u8, lo: int, hi: int, k: int) -> (q: int)
    requires
        0 <= lo <= hi <= bwt.len(),
        occurrences(bwt.take(lo), a) <= k < occurrences(bwt.take(hi), a),
    ensures
        lo <= q < hi,
        bwt[q] == a,
        occurrences(bwt.take(q), a) == k,
    decreases hi - lo,
{
    assert(bwt.take(hi).drop_last() =~= bwt.take(hi - 1));
    if bwt[hi - 1] == a && occurrences(bwt.take(hi - 1), a) == k {
        hi - 1
    } else {
        lemma_find_occurrence(bwt, a, lo, hi - 1, k)
    }
}

/// A step of the backward search is right: where the ranks from `lower` to
/// `upper` are those of the suffixes that begin with `w`, the ranks that
/// the step gives are those of the suffixes that begin with `a` and go on
/// with `w`. Where the step gives no rank, no suffix begins so.
pub proof fn lemma_step(
    text: Seq<u8>,
    sa: Seq<usize>,
    bwt: Seq<u8>,
    a: u8,
    lower: int,
    upper: int,
    w: Seq<u8>,
)
    requires
        steppable(text, sa, bwt, a),
        0 <= lower,
        lower <= upper + 1,
        upper < bwt.len(),
        is_match_range(text, sa, lower, upper, w),
    ensures
        is_match_range(
            text,
            sa,
            stepped(bwt, a, lower),
            stepped(bwt, a, upper + 1) - 1,
            seq![a] + w,
        ),
{
    let longer = seq![a] + w;
    let low = stepped(bwt, a, lower);
    let high = stepped(bwt, a, upper + 1) - 1;
    assert forall|r: int| 0 <= r < sa.len() implies ((low <= r <= high) <==> #[trigger] matches_at(
        text,
        sa,
        r,
        longer,
    )) by {
        if low <= r <= high {
            let k = r - smaller(bwt, a as int);
            let q = lemma_find_occurrence(bwt, a, lower, upper + 1, k);
            lemma_step_rank(text, sa, bwt, a, q);
            lemma_rank_before(text, sa, bwt, a, q);
            lemma_rank_order(text, sa, r, rank_before(sa, q));
            assert(matches_at(text, sa, q, w));
            let rest = text.skip(sa[q] as int);
            assert((seq![a] + rest).take(longer.len() as int) =~= seq![a] + rest.take(
                w.len() as int,
            ));
        }
        if matches_at(text, sa, r, longer) {
            let whole = text.skip(sa[r] as int);
            assert(whole.take(longer.len() as int)[0] == longer[0]);
            let place = sa[r] + 1;
            lemma_rank_of(text, sa, place);
            let q = rank_of(sa, place);
            let rest = text.skip(place);
            assert(rest.take(w.len() as int) =~= whole.take(longer.len() as int).drop_first());
            assert(longer.drop_first() =~= w);
            assert(matches_at(text, sa, q, w));
            lemma_step_rank(text, sa, bwt, a, q);
            lemma_rank_before(text, sa, bwt, a, q);
            lemma_rank_order(text, sa, r, rank_before(sa, q));
            lemma_occurrences_grow(bwt, a, lower, q);
            lemma_occurrences_grow(bwt, a, q + 1, upper + 1);
            assert(bwt.take(q + 1).drop_last() =~= bwt.take(q));
        }
    }
}

/// Before the first step the ranks are all ranks: every suffix begins with
/// the empty string.
pub proof fn lemma_all_ranks_match(text: Seq<u8>, sa: Seq<usize>)
    requires
        is_suffix_array(text, sa),
    ensures
        is_match_range(text, sa, 0, sa.len() - 1, Seq::<u8>::empty()),
{
    assert forall|r: int| 0 <= r < sa.len() implies #[trigger] matches_at(
        text,
        sa,
        r,
        Seq::<u8>::empty(),
    ) by {
        assert(text.skip(sa[r] as int).take(0) =~= Seq::<u8>::empty());
    }
}

} // verus!
