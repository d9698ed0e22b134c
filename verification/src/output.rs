//! What a run gives out: the order of the solutions, the lines of the table
//! and the texts that tell how long the work takes.

use crate::order::{
    bytes_sign, compare_bytes, first_decisive, lemma_bytes_sign_basics,
    lemma_bytes_sign_transitive, ordering_of, sign,
};
use crate::structs::run_config::Maps;
use crate::structs::solutions::Solution;
use crate::text::{decimal, push_decimal, push_signed, repeated, signed_decimal, utf8_lossy};
use std::cmp::Ordering;
use std::time::{Duration, Instant};
use vstd::prelude::*;
use vstd::string::StringExecFns;
use vstd::utf8::encode_utf8;

verus! {

/// The bytes of the name of the string `id`.
pub open spec fn name_bytes(names: Seq<String>, id: usize) -> Seq<u8> {
    encode_utf8(names[id as int]@)
}

/// Both reads of the solution have a name.
pub open spec fn named(s: &Solution, names: Seq<String>) -> bool {
    s.id_a < names.len() && s.id_b < names.len()
}

/// All solutions of the list have names for both of their reads.
pub open spec fn all_named(list: Seq<Solution>, names: Seq<String>) -> bool {
    forall|i: int| 0 <= i < list.len() ==> named(#[trigger] &list[i], names)
}

/// The sign of comparing two solutions for the output: by the name of A, by
/// the name of B, and then by orientation, overhangs and overlap lengths.
#[verifier::opaque]
pub open spec fn name_sign(x: &Solution, y: &Solution, names: Seq<String>) -> int {
    first_decisive(
        bytes_sign(name_bytes(names, x.id_a), name_bytes(names, y.id_a)),
        first_decisive(
            bytes_sign(name_bytes(names, x.id_b), name_bytes(names, y.id_b)),
            x.shape_sign(y),
        ),
    )
}

/// Comparing for the output is a comparison: its sign is -1, 0 or 1, a
/// solution is equal to itself, and comparing the other way round turns the
/// sign.
pub proof fn lemma_name_sign_basics(x: &Solution, y: &Solution, names: Seq<String>)
    ensures
        -1 <= name_sign(x, y, names) <= 1,
        name_sign(x, x, names) == 0,
        name_sign(y, x, names) == -name_sign(x, y, names),
        name_sign(x, y, names) == 0 <==> {
            &&& name_bytes(names, x.id_a) == name_bytes(names, y.id_a)
            &&& name_bytes(names, x.id_b) == name_bytes(names, y.id_b)
            &&& x.orientation == y.orientation
            &&& x.overhang_left_a == y.overhang_left_a
            &&& x.overhang_right_b == y.overhang_right_b
            &&& x.overlap_a == y.overlap_a
            &&& x.overlap_b == y.overlap_b
        },
{
    reveal(name_sign);
    lemma_bytes_sign_basics(name_bytes(names, x.id_a), name_bytes(names, y.id_a));
    lemma_bytes_sign_basics(name_bytes(names, x.id_b), name_bytes(names, y.id_b));
    lemma_bytes_sign_basics(name_bytes(names, x.id_a), name_bytes(names, x.id_a));
    lemma_bytes_sign_basics(name_bytes(names, x.id_b), name_bytes(names, x.id_b));
}

/// The order of the output is transitive, and strict as soon as one of its
/// two steps is.
pub proof fn lemma_name_sign_transitive(
    x: &Solution,
    y: &Solution,
    z: &Solution,
    names: Seq<String>,
)
    requires
        name_sign(x, y, names) <= 0,
        name_sign(y, z, names) <= 0,
    ensures
        name_sign(x, z, names) <= 0,
        name_sign(x, y, names) < 0 || name_sign(y, z, names) < 0 ==> name_sign(x, z, names) < 0,
{
    reveal(name_sign);
    let xa = name_bytes(names, x.id_a);
    let ya = name_bytes(names, y.id_a);
    let za = name_bytes(names, z.id_a);
    let xb = name_bytes(names, x.id_b);
    let yb = name_bytes(names, y.id_b);
    let zb = name_bytes(names, z.id_b);
    lemma_bytes_sign_transitive(xa, ya, za);
    if bytes_sign(xa, ya) == 0 && bytes_sign(ya, za) == 0 {
        lemma_bytes_sign_transitive(xb, yb, zb);
    }
}

/// Where no two ids share a name, two solutions compare equal for the output
/// exactly where they are the same solution.
pub proof fn lemma_name_sign_identity(x: &Solution, y: &Solution, names: Seq<String>)
    requires
        named(x, names),
        named(y, names),
        forall|i: int, j: int|
            0 <= i < names.len() && 0 <= j < names.len() && names[i]@ == names[j]@ ==> i == j,
    ensures
        name_sign(x, y, names) == 0 <==> x.identity() == y.identity(),
{
    lemma_name_sign_basics(x, y, names);
    vstd::utf8::encode_utf8_decode_utf8(names[x.id_a as int]@);
    vstd::utf8::encode_utf8_decode_utf8(names[y.id_a as int]@);
    vstd::utf8::encode_utf8_decode_utf8(names[x.id_b as int]@);
    vstd::utf8::encode_utf8_decode_utf8(names[y.id_b as int]@);
}

/// The sign of comparing two solutions for the output.
pub fn compare_by_names(x: &Solution, y: &Solution, maps: &Maps) -> (s: i8)
    requires
        named(x, maps.id2name_vec@),
        named(y, maps.id2name_vec@),
    ensures
        s == name_sign(x, y, maps.id2name_vec@),
{
    proof {
        reveal(name_sign);
    }
    let by_a = compare_bytes(
        maps.get_name_for(x.id_a).as_bytes(),
        maps.get_name_for(y.id_a).as_bytes(),
    );
    if by_a != 0 {
        return by_a;
    }
    let by_b = compare_bytes(
        maps.get_name_for(x.id_b).as_bytes(),
        maps.get_name_for(y.id_b).as_bytes(),
    );
    if by_b != 0 {
        return by_b;
    }
    x.compare_shape(y)
}

/// Compares two solutions for the output: by the names of their reads, and
/// then by orientation, overhangs and overlap lengths.
pub fn solution_comparator(x: &Solution, y: &Solution, maps: &Maps) -> (ordering: Ordering)
    requires
        named(x, maps.id2name_vec@),
        named(y, maps.id2name_vec@),
    ensures
        sign(ordering) == name_sign(x, y, maps.id2name_vec@),
{
    proof {
        lemma_name_sign_basics(x, y, maps.id2name_vec@);
    }
    ordering_of(compare_by_names(x, y, maps))
}

/// Whether the list rises by the order of the output. A strict rise leaves
/// no place for two solutions that compare equal.
pub open spec fn rising(list: Seq<Solution>, names: Seq<String>, strict: bool) -> bool {
    forall|i: int, j: int|
        0 <= i < j < list.len() ==> name_sign(&list[i], &list[j], names) <= (if strict {
            -1int
        } else {
            0int
        })
}

/// Whether the solution compares equal to a solution of the list.
pub open spec fn represented(s: &Solution, list: Seq<Solution>, names: Seq<String>) -> bool {
    exists|j: int| 0 <= j < list.len() && name_sign(s, &#[trigger] list[j], names) == 0
}

/// Whether each solution of `part` compares equal to a solution of `whole`.
pub open spec fn covered(part: Seq<Solution>, whole: Seq<Solution>, names: Seq<String>) -> bool {
    forall|i: int| 0 <= i < part.len() ==> represented(#[trigger] &part[i], whole, names)
}

/// The solutions of the list that compare equal to `x` for the output, in
/// the order of the list.
pub open spec fn alike(list: Seq<Solution>, x: Solution, names: Seq<String>) -> Seq<Solution> {
    list.filter(|e: Solution| name_sign(&e, &x, names) == 0)
}

/// `sort_by` of slices, with the comparison of the output: the list holds
/// the solutions it held, each as often as before, it rises by the order of
/// the output, and solutions that compare equal keep the order they had.
#[verifier::external_body]
fn sort_by_names(list: &mut Vec<Solution>, maps: &Maps)
    requires
        all_named(old(list)@, maps.id2name_vec@),
    ensures
        final(list)@.to_multiset() == old(list)@.to_multiset(),
        rising(final(list)@, maps.id2name_vec@, false),
        forall|x: Solution|
            #[trigger] alike(final(list)@, x, maps.id2name_vec@) == alike(
                old(list)@,
                x,
                maps.id2name_vec@,
            ),
{
    list.sort_by(|x, y| solution_comparator(x, y, maps));
}

/// Where the solution at the place `first` is the first of a list that
/// compares equal to `x`, it is the first of those that compare equal to
/// `x`.
proof fn lemma_first_alike(list: Seq<Solution>, x: Solution, names: Seq<String>, first: int)
    requires
        0 <= first < list.len(),
        name_sign(&list[first], &x, names) == 0,
        forall|q: int| 0 <= q < first ==> name_sign(&#[trigger] list[q], &x, names) != 0,
    ensures
        alike(list, x, names).len() > 0,
        alike(list, x, names)[0] == list[first],
    decreases list.len(),
{
    reveal(Seq::filter);
    let front = list.drop_last();
    if first == list.len() - 1 {
        lemma_none_alike(front, x, names);
    } else {
        assert forall|q: int| 0 <= q < first implies name_sign(
            &#[trigger] front[q],
            &x,
            names,
        ) != 0 by {
        }
        lemma_first_alike(front, x, names, first);
    }
}

/// Where no solution of a list compares equal to `x`, none is among those
/// that do.
proof fn lemma_none_alike(list: Seq<Solution>, x: Solution, names: Seq<String>)
    requires
        forall|q: int| 0 <= q < list.len() ==> name_sign(&#[trigger] list[q], &x, names) != 0,
    ensures
        alike(list, x, names).len() == 0,
    decreases list.len(),
{
    reveal(Seq::filter);
    if list.len() > 0 {
        let front = list.drop_last();
        assert forall|q: int| 0 <= q < front.len() implies name_sign(
            &#[trigger] front[q],
            &x,
            names,
        ) != 0 by {
        }
        lemma_none_alike(front, x, names);
    }
}

/// The solutions in the order of the output, one for each group of solutions
/// that compare equal.
///
/// The list that comes out rises strictly, holds solutions of the list that
/// went in and nothing else, and holds for each solution that went in one
/// that compares equal to it: of those that compare equal the one that
/// came first in the list that went in.
pub fn sort_and_dedup(list: Vec<Solution>, maps: &Maps) -> (sorted: Vec<Solution>)
    requires
        all_named(list@, maps.id2name_vec@),
    ensures
        rising(sorted@, maps.id2name_vec@, true),
        forall|i: int| 0 <= i < sorted@.len() ==> list@.contains(#[trigger] sorted@[i]),
        covered(list@, sorted@, maps.id2name_vec@),
        all_named(sorted@, maps.id2name_vec@),
        forall|i: int|
            0 <= i < sorted@.len() ==> alike(list@, sorted@[i], maps.id2name_vec@).len() > 0
                && #[trigger] sorted@[i] == alike(list@, sorted@[i], maps.id2name_vec@)[0],
{
    let ghost names = maps.id2name_vec@;
    let mut rest = list;
    sort_by_names(&mut rest, maps);
    let ghost full = rest@;
    proof {
        full.to_multiset_ensures();
        list@.to_multiset_ensures();
        assert forall|i: int| 0 <= i < full.len() implies list@.contains(#[trigger] full[i]) by {
            assert(full.contains(full[i]));
            assert(full.to_multiset().count(full[i]) > 0);
        }
        assert forall|i: int| 0 <= i < list@.len() implies full.contains(#[trigger] list@[i]) by {
            assert(list@.to_multiset().count(list@[i]) > 0);
        }
        assert forall|i: int| 0 <= i < full.len() implies named(#[trigger] &full[i], names) by {
            let j = choose|j: int| 0 <= j < list@.len() && list@[j] == full[i];
        }
    }
    // The heads of the groups, from the last group to the first.
    let mut heads: Vec<Solution> = Vec::new();
    let ghost mut picked: Seq<int> = Seq::empty();
    while rest.len() > 0
        invariant
            rest@ == full.take(rest@.len() as int),
            rest@.len() <= full.len(),
            names == maps.id2name_vec@,
            all_named(full, names),
            rising(full, names, false),
            picked.len() == heads@.len(),
            forall|a: int|
                0 <= a < picked.len() ==> rest@.len() <= #[trigger] picked[a] < full.len()
                    && heads@[a] == full[picked[a]],
            forall|a: int|
                0 <= a < picked.len() ==> #[trigger] picked[a] == 0 || name_sign(
                    &full[picked[a] - 1],
                    &full[picked[a]],
                    names,
                ) < 0,
            forall|a: int, b: int| 0 <= a < b < picked.len() ==> picked[a] > picked[b],
            forall|idx: int|
                rest@.len() <= idx < full.len() ==> represented(
                    #[trigger] &full[idx],
                    heads@,
                    names,
                ) || (rest@.len() > 0 && name_sign(&full[rest@.len() - 1], &full[idx], names)
                    == 0),
        decreases rest@.len(),
    {
        let ghost before = rest@.len() as int;
        let ghost old_heads = heads@;
        let s = rest.pop().unwrap();
        let ghost at = before - 1;
        let head = if rest.len() == 0 {
            true
        } else {
            compare_by_names(&rest[rest.len() - 1], &s, maps) != 0
        };
        proof {
            lemma_name_sign_basics(&full[at], &full[at], names);
        }
        if head {
            heads.push(s);
            proof {
                picked = picked.push(at);
                let last = old_heads.len() as int;
                assert forall|idx: int| at <= idx < full.len() implies represented(
                    #[trigger] &full[idx],
                    heads@,
                    names,
                ) by {
                    if idx == at {
                        assert(name_sign(&full[idx], &heads@[last], names) == 0);
                    } else if represented(&full[idx], old_heads, names) {
                        let a = choose|a: int|
                            0 <= a < old_heads.len() && name_sign(
                                &full[idx],
                                &#[trigger] old_heads[a],
                                names,
                            ) == 0;
                        assert(heads@[a] == old_heads[a]);
                    } else {
                        lemma_name_sign_basics(&full[at], &full[idx], names);
                    }
                }
            }
        } else {
            proof {
                assert forall|idx: int| at <= idx < full.len() implies represented(
                    #[trigger] &full[idx],
                    heads@,
                    names,
                ) || (at > 0 && name_sign(&full[at - 1], &full[idx], names) == 0) by {
                    if idx > at && !represented(&full[idx], heads@, names) {
                        lemma_name_sign_basics(&full[at - 1], &full[at], names);
                        lemma_name_sign_basics(&full[at], &full[idx], names);
                        lemma_name_sign_basics(&full[at - 1], &full[idx], names);
                    }
                }
            }
        }
    }
    let mut sorted: Vec<Solution> = Vec::new();
    let ghost all_heads = heads@;
    while heads.len() > 0
        invariant
            heads@ == all_heads.take(heads@.len() as int),
            heads@.len() <= all_heads.len(),
            sorted@.len() == all_heads.len() - heads@.len(),
            forall|k: int|
                0 <= k < sorted@.len() ==> #[trigger] sorted@[k] == all_heads[all_heads.len() - 1
                    - k],
        decreases heads@.len(),
    {
        let s = heads.pop().unwrap();
        sorted.push(s);
    }
    proof {
        let count = all_heads.len() as int;
        assert forall|i: int, j: int| 0 <= i < j < sorted@.len() implies name_sign(
            &sorted@[i],
            &sorted@[j],
            names,
        ) <= -1 by {
            let low = picked[count - 1 - i];
            let high = picked[count - 1 - j];
            if low < high - 1 {
                lemma_name_sign_transitive(&full[low], &full[high - 1], &full[high], names);
            }
        }
        assert forall|i: int| 0 <= i < sorted@.len() implies list@.contains(
            #[trigger] sorted@[i],
        ) && named(&sorted@[i], names) by {
            assert(sorted@[i] == full[picked[count - 1 - i]]);
        }
        assert forall|i: int| 0 <= i < sorted@.len() implies alike(list@, sorted@[i], names).len()
            > 0 && #[trigger] sorted@[i] == alike(list@, sorted@[i], names)[0] by {
            let at = picked[count - 1 - i];
            let x = full[at];
            lemma_name_sign_basics(&x, &x, names);
            assert forall|q: int| 0 <= q < at implies name_sign(
                &#[trigger] full[q],
                &x,
                names,
            ) != 0 by {
                if q < at - 1 {
                    lemma_name_sign_transitive(&full[q], &full[at - 1], &x, names);
                }
            }
            lemma_first_alike(full, x, names, at);
        }
        assert forall|i: int| 0 <= i < list@.len() implies represented(
            #[trigger] &list@[i],
            sorted@,
            names,
        ) by {
            let idx = choose|idx: int| 0 <= idx < full.len() && full[idx] == list@[i];
            let a = choose|a: int|
                0 <= a < all_heads.len() && name_sign(&full[idx], &#[trigger] all_heads[a], names)
                    == 0;
            assert(sorted@[count - 1 - a] == all_heads[a]);
        }
    }
    sorted
}

/// An output is fixed by the groups of solutions it stands for: two lists
/// that rise strictly and hold, each for every solution of the other, one
/// that compares equal, are as long as each other and compare equal place by
/// place.
pub proof fn lemma_rising_is_unique(a: Seq<Solution>, b: Seq<Solution>, names: Seq<String>)
    requires
        rising(a, names, true),
        rising(b, names, true),
        covered(a, b, names),
        covered(b, a, names),
    ensures
        a.len() == b.len(),
        forall|i: int| 0 <= i < a.len() ==> name_sign(#[trigger] &a[i], &b[i], names) == 0,
    decreases a.len(),
{
    if a.len() > 0 {
        let j = choose|j: int| 0 <= j < b.len() && name_sign(&a[0], &#[trigger] b[j], names) == 0;
        let i = choose|i: int| 0 <= i < a.len() && name_sign(&b[0], &#[trigger] a[i], names) == 0;
        lemma_name_sign_basics(&a[0], &b[j], names);
        lemma_name_sign_basics(&b[0], &a[i], names);
        lemma_name_sign_basics(&a[0], &b[0], names);
        lemma_name_sign_transitive(&b[0], &b[j], &a[0], names);
        lemma_name_sign_transitive(&a[0], &a[i], &b[0], names);
        let a_rest = a.drop_first();
        let b_rest = b.drop_first();
        lemma_covered_rest(a, b, names);
        lemma_covered_rest(b, a, names);
        assert forall|i: int, j: int| 0 <= i < j < a_rest.len() implies name_sign(
            &a_rest[i],
            &a_rest[j],
            names,
        ) <= -1 by {
        }
        assert forall|i: int, j: int| 0 <= i < j < b_rest.len() implies name_sign(
            &b_rest[i],
            &b_rest[j],
            names,
        ) <= -1 by {
        }
        lemma_rising_is_unique(a_rest, b_rest, names);
        assert forall|i: int| 0 <= i < a.len() implies name_sign(#[trigger] &a[i], &b[i], names)
            == 0 by {
            if i > 0 {
                assert(a_rest[i - 1] == a[i] && b_rest[i - 1] == b[i]);
            }
        }
    }
}

/// Of two lists that rise strictly and begin with solutions that compare
/// equal, what follows the first solution of the one is covered by what
/// follows the first solution of the other, where the whole lists are.
proof fn lemma_covered_rest(a: Seq<Solution>, b: Seq<Solution>, names: Seq<String>)
    requires
        a.len() > 0,
        b.len() > 0,
        rising(a, names, true),
        covered(a, b, names),
        name_sign(&a[0], &b[0], names) == 0,
    ensures
        covered(a.drop_first(), b.drop_first(), names),
{
    let a_rest = a.drop_first();
    let b_rest = b.drop_first();
    assert forall|k: int| 0 <= k < a_rest.len() implies represented(
        #[trigger] &a_rest[k],
        b_rest,
        names,
    ) by {
        let l = choose|l: int|
            0 <= l < b.len() && name_sign(&a[k + 1], &#[trigger] b[l], names) == 0;
        lemma_name_sign_basics(&a[k + 1], &b[l], names);
        lemma_name_sign_basics(&a[0], &a[k + 1], names);
        lemma_name_sign_basics(&a[0], &b[0], names);
        assert(b_rest[l - 1] == b[l]);
    }
}

/// The first line of the table, where one is asked for: the names of the
/// columns.
pub fn header_line() -> (line: &'static str)
    ensures
        line@ == "idA\tidB\tO\tOHA\tOHB\tOLA\tOLB\tK\n"@,
{
    "idA\tidB\tO\tOHA\tOHB\tOLA\tOLB\tK\n"
}

/// The line of the table for a solution: the names of A and B, the letter of
/// the orientation, the two overhangs, the two overlap lengths and the
/// errors, with a tab between each two and a line end behind.
pub open spec fn line_text(s: &Solution, names: Seq<String>) -> Seq<char> {
    names[s.id_a as int]@ + seq!['\t'] + names[s.id_b as int]@ + seq!['\t'] + seq![
        s.orientation.letter(),
    ] + seq!['\t'] + signed_decimal(s.overhang_left_a as int) + seq!['\t'] + signed_decimal(
        s.overhang_right_b as int,
    ) + seq!['\t'] + decimal(s.overlap_a as nat) + seq!['\t'] + decimal(s.overlap_b as nat)
        + seq!['\t'] + decimal(s.errors as nat) + seq!['\n']
}

/// The line of the table for a solution.
pub fn solution_line(s: &Solution, maps: &Maps) -> (line: String)
    requires
        named(s, maps.id2name_vec@),
    ensures
        line@ == line_text(s, maps.id2name_vec@),
{
    let mut line = String::new();
    line.append(maps.get_name_for(s.id_a));
    line.push('\t');
    line.append(maps.get_name_for(s.id_b));
    line.push('\t');
    let letter = s.orientation.to_string();
    line.append(letter.as_str());
    line.push('\t');
    push_signed(&mut line, s.overhang_left_a as i64);
    line.push('\t');
    push_signed(&mut line, s.overhang_right_b as i64);
    line.push('\t');
    push_decimal(&mut line, s.overlap_a as u64);
    line.push('\t');
    push_decimal(&mut line, s.overlap_b as u64);
    line.push('\t');
    push_decimal(&mut line, s.errors as u64);
    line.push('\n');
    line
}

/// One row of a picture: a blank, the name between quotes, a colon and a
/// tab, then blanks to move the read to its place, the read and a line end.
pub open spec fn picture_row(name: Seq<char>, shift: nat, read: Seq<char>) -> Seq<char> {
    seq![' ', '\''] + name + seq!['\'', ':', '\t'] + repeated(seq![' '], shift) + read + seq![
        '\n',
    ]
}

/// The picture of a solution: the stored string of A above that of B, the
/// one that begins later moved to the right by the left overhang, and an
/// empty line below.
pub open spec fn picture_text(s: &Solution, maps: &Maps) -> Seq<char> {
    let a = utf8_lossy(maps.string(s.id_a as int));
    let b = utf8_lossy(maps.string(s.id_b as int));
    let name_a = maps.id2name_vec@[s.id_a as int]@;
    let name_b = maps.id2name_vec@[s.id_b as int]@;
    if s.overhang_left_a > 0 {
        picture_row(name_a, 0, a) + picture_row(name_b, s.overhang_left_a as nat, b) + seq!['\n']
    } else {
        picture_row(name_a, (-s.overhang_left_a) as nat, a) + picture_row(name_b, 0, b) + seq![
            '\n',
        ]
    }
}

/// Adds one row of a picture to the text.
fn push_picture_row(text: &mut String, name: &str, shift: usize, read: &str)
    ensures
        final(text)@ == old(text)@ + picture_row(name@, shift as nat, read@),
{
    text.push(' ');
    text.push('\'');
    text.append(name);
    text.push('\'');
    text.push(':');
    text.push('\t');
    let ghost before = text@;
    let mut i: usize = 0;
    while i < shift
        invariant
            0 <= i <= shift,
            text@ == before + repeated(seq![' '], i as nat),
        decreases shift - i,
    {
        text.push(' ');
        i += 1;
    }
    text.append(read);
    text.push('\n');
}

/// The picture of a solution, for a debugging printout.
pub fn alignment_picture(s: &Solution, maps: &Maps) -> (text: String)
    requires
        maps.wf(),
        s.id_a < maps.num_ids,
        s.id_b < maps.num_ids,
    ensures
        text@ == picture_text(s, maps),
{
    let a = maps.formatted(s.id_a);
    let b = maps.formatted(s.id_b);
    let a_name = maps.get_name_for(s.id_a);
    let b_name = maps.get_name_for(s.id_b);
    let mut text = String::new();
    if s.overhang_left_a > 0 {
        push_picture_row(&mut text, a_name, 0, a.as_str());
        push_picture_row(&mut text, b_name, s.overhang_left_a as usize, b.as_str());
    } else {
        let shift: i64 = -(s.overhang_left_a as i64);
        push_picture_row(&mut text, a_name, shift as usize, a.as_str());
        push_picture_row(&mut text, b_name, 0, b.as_str());
    }
    text.push('\n');
    text
}

/// A rough text for a time span of `sec` seconds, in the largest unit that
/// the span is not small for. A span of 100 hours or more is told in weeks.
pub open spec fn time_display_text(sec: nat) -> Seq<char> {
    if sec == 0 {
        "< 1 sec"@
    } else if sec < 200 {
        "~"@ + decimal(sec) + " sec"@
    } else if sec < 60 * 120 {
        "~"@ + decimal(sec / 60) + " min"@
    } else if sec < 60 * 60 * 100 {
        "~"@ + decimal(sec / 60 / 60) + " hrs"@
    } else if sec < 60 * 60 * 24 * 7 * 3 {
        "~"@ + decimal(sec / 60 / 60 / 24 / 7) + " weeks"@
    } else if sec < 60 * 60 * 24 * 30 * 4 {
        "~"@ + decimal(sec / 60 / 60 / 24 / 30) + " months"@
    } else if sec < 60 * 60 * 24 * 365 * 5 {
        "~"@ + decimal(sec / 60 / 60 / 24 / 30) + " years"@
    } else {
        "eternity"@
    }
}

/// The text `~`, the number and the unit.
fn about(number: u64, unit: &str) -> (text: String)
    ensures
        text@ == "~"@ + decimal(number as nat) + unit@,
{
    let mut text = String::from_str("~");
    push_decimal(&mut text, number);
    text.append(unit);
    text
}

/// A rough text for a time span of `sec` seconds.
pub fn time_display(sec: u64) -> (text: String)
    ensures
        text@ == time_display_text(sec as nat),
{
    if sec == 0 {
        String::from_str("< 1 sec")
    } else if sec < 200 {
        about(sec, " sec")
    } else if sec < 60 * 120 {
        about(sec / 60, " min")
    } else if sec < 60 * 60 * 100 {
        about(sec / 60 / 60, " hrs")
    } else if sec < 60 * 60 * 24 * 7 * 3 {
        about(sec / 60 / 60 / 24 / 7, " weeks")
    } else if sec < 60 * 60 * 24 * 30 * 4 {
        about(sec / 60 / 60 / 24 / 30, " months")
    } else if sec < 60 * 60 * 24 * 365 * 5 {
        about(sec / 60 / 60 / 24 / 30, " years")
    } else {
        String::from_str("eternity")
    }
}

/// A point in time of the clock that never runs backwards.
#[verifier::external_type_specification]
#[verifier::external_body]
pub struct ExInstant(Instant);

/// `Instant::elapsed`: the time that has passed since the instant. Nothing
/// is stated of it, which the clock decides.
pub assume_specification[ Instant::elapsed ](start_time: &Instant) -> (elapsed: Duration);

/// `Duration::as_secs`: the whole seconds of a time span. Nothing is stated
/// of their number.
pub assume_specification[ Duration::as_secs ](span: &Duration) -> (secs: u64);

/// A rough text for the time that has passed since `start_time`.
pub fn approx_elapsed_string(start_time: &Instant) -> (text: String)
    ensures
        exists|sec: nat| text@ == time_display_text(sec),
{
    let elapsed = start_time.elapsed();
    time_display(elapsed.as_secs())
}

} // verus!
