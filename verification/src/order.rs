//! Three-way comparison: signs, the order of byte strings, and how
//! comparisons combine field by field.

use std::cmp::Ordering;
use vstd::prelude::*;

verus! {

/// The sign of a comparison: -1 for less, 0 for equal, 1 for greater.
pub open spec fn sign(ordering: Ordering) -> int {
    match ordering {
        Ordering::Less => -1,
        Ordering::Equal => 0,
        Ordering::Greater => 1,
    }
}

/// The comparison that a sign stands for.
pub open spec fn ordering_with(s: int) -> Ordering {
    if s < 0 {
        Ordering::Less
    } else if s > 0 {
        Ordering::Greater
    } else {
        Ordering::Equal
    }
}

/// The sign of comparing two whole numbers.
pub open spec fn int_sign(a: int, b: int) -> int {
    if a < b {
        -1
    } else if a > b {
        1
    } else {
        0
    }
}

/// The sign of a comparison by two keys: that of the first key where it
/// decides, else that of the second.
pub open spec fn first_decisive(first: int, second: int) -> int {
    if first != 0 {
        first
    } else {
        second
    }
}

/// The sign of comparing two byte strings as a dictionary does: by the first
/// place where they differ, a string that ends there coming first.
pub open spec fn bytes_sign(a: Seq<u8>, b: Seq<u8>) -> int
    decreases a.len(),
{
    if a.len() == 0 {
        if b.len() == 0 {
            0
        } else {
            -1
        }
    } else if b.len() == 0 {
        1
    } else if a[0] != b[0] {
        int_sign(a[0] as int, b[0] as int)
    } else {
        bytes_sign(a.drop_first(), b.drop_first())
    }
}

/// A sign is -1, 0 or 1; two strings compare equal exactly when they are the
/// same; comparing the other way round turns the sign.
pub proof fn lemma_bytes_sign_basics(a: Seq<u8>, b: Seq<u8>)
    ensures
        -1 <= bytes_sign(a, b) <= 1,
        bytes_sign(a, b) == 0 <==> a == b,
        bytes_sign(b, a) == -bytes_sign(a, b),
    decreases a.len(),
{
    if a.len() > 0 && b.len() > 0 && a[0] == b[0] {
        lemma_bytes_sign_basics(a.drop_first(), b.drop_first());
        if a.drop_first() == b.drop_first() {
            assert(a =~= seq![a[0]] + a.drop_first());
            assert(b =~= seq![b[0]] + b.drop_first());
        }
    } else if a.len() == 0 && b.len() == 0 {
        assert(a =~= b);
    }
}

/// The order of byte strings is transitive, and strict as soon as one of its
/// two steps is.
pub proof fn lemma_bytes_sign_transitive(a: Seq<u8>, b: Seq<u8>, c: Seq<u8>)
    requires
        bytes_sign(a, b) <= 0,
        bytes_sign(b, c) <= 0,
    ensures
        bytes_sign(a, c) <= 0,
        bytes_sign(a, b) < 0 || bytes_sign(b, c) < 0 ==> bytes_sign(a, c) < 0,
    decreases a.len(),
{
    if a.len() > 0 && b.len() > 0 && c.len() > 0 {
        if a[0] == b[0] && b[0] == c[0] {
            lemma_bytes_sign_transitive(a.drop_first(), b.drop_first(), c.drop_first());
        }
    }
}

/// Strings that agree on their first `count` bytes compare as what follows
/// those bytes.
pub proof fn lemma_bytes_sign_skip(a: Seq<u8>, b: Seq<u8>, count: int)
    requires
        0 <= count <= a.len(),
        count <= b.len(),
        a.take(count) == b.take(count),
    ensures
        bytes_sign(a, b) == bytes_sign(a.skip(count), b.skip(count)),
    decreases count,
{
    if count > 0 {
        assert(b[0] == b.take(count)[0]);
        assert(a.drop_first().take(count - 1) =~= a.take(count).drop_first());
        assert(b.drop_first().take(count - 1) =~= b.take(count).drop_first());
        lemma_bytes_sign_skip(a.drop_first(), b.drop_first(), count - 1);
        assert(a.drop_first().skip(count - 1) =~= a.skip(count));
        assert(b.drop_first().skip(count - 1) =~= b.skip(count));
    } else {
        assert(a.skip(0) =~= a);
        assert(b.skip(0) =~= b);
    }
}

/// The sign of comparing two byte strings as a dictionary does.
pub fn compare_bytes(a: &[u8], b: &[u8]) -> (s: i8)
    ensures
        s == bytes_sign(a@, b@),
{
    let mut i: usize = 0;
    while i < a.len() && i < b.len()
        invariant
            0 <= i <= a@.len(),
            i <= b@.len(),
            a@.take(i as int) == b@.take(i as int),
        decreases a@.len() - i,
    {
        proof {
            lemma_bytes_sign_skip(a@, b@, i as int);
        }
        if a[i] < b[i] {
            return -1;
        }
        if a[i] > b[i] {
            return 1;
        }
        i += 1;
    }
    proof {
        lemma_bytes_sign_skip(a@, b@, i as int);
    }
    if a.len() < b.len() {
        -1
    } else if a.len() > b.len() {
        1
    } else {
        0
    }
}

/// The comparison that a sign stands for.
pub fn ordering_of(s: i8) -> (ordering: Ordering)
    requires
        -1 <= s <= 1,
    ensures
        sign(ordering) == s,
        ordering == ordering_with(sign(ordering)),
{
    if s < 0 {
        Ordering::Less
    } else if s > 0 {
        Ordering::Greater
    } else {
        Ordering::Equal
    }
}

} // verus!
