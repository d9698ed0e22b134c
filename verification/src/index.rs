//! The full-text index over the corpus text: suffix array,
//! Burrows-Wheeler transform, less table and occurrence table.

use crate::order::bytes_sign;
use bio::alphabets::Alphabet;
use bio::data_structures::bwt::Occ;
use vstd::prelude::*;

verus! {

/// The occurrence table of the `bio` crate: for chosen symbols, how often
/// each of them occurs in the fronts of a transformed text.
#[verifier::external_type_specification]
#[verifier::external_body]
pub struct ExOcc(Occ);

/// The transformed text that an occurrence table was counted from.
pub uninterp spec fn occ_bwt(occ: Occ) -> Seq<u8>;

/// The symbols that an occurrence table counts.
pub uninterp spec fn occ_symbols(occ: Occ) -> Set<u8>;

/// How often the symbol occurs in the string.
pub open spec fn occurrences(s: Seq<u8>, a: u8) -> nat
    decreases s.len(),
{
    if s.len() == 0 {
        0
    } else {
        occurrences(s.drop_last(), a) + (if s.last() == a {
            1nat
        } else {
            0nat
        })
    }
}

/// How many symbols of the string are smaller than `a`.
pub open spec fn smaller(s: Seq<u8>, a: int) -> nat
    decreases s.len(),
{
    if s.len() == 0 {
        0
    } else {
        smaller(s.drop_last(), a) + (if s.last() < a {
            1nat
        } else {
            0nat
        })
    }
}

/// The largest of the symbols, or 0 where there is none.
pub open spec fn max_symbol(symbols: Seq<u8>) -> u8
    decreases symbols.len(),
{
    if symbols.len() == 0 {
        0
    } else if symbols.last() > max_symbol(symbols.drop_last()) {
        symbols.last()
    } else {
        max_symbol(symbols.drop_last())
    }
}

/// Whether the text can be indexed: it ends with a symbol that is smaller
/// than all the others.
pub open spec fn closed_by_least(text: Seq<u8>) -> bool {
    text.len() > 0 && forall|i: int| 0 <= i < text.len() - 1 ==> #[trigger] text[i] > text.last()
}

/// Whether `sa` is the suffix array of the text: it is as long as the text,
/// names places of the text, and the suffixes that begin at the places it
/// names rise strictly, in the order of a dictionary.
pub open spec fn is_suffix_array(text: Seq<u8>, sa: Seq<usize>) -> bool {
    &&& sa.len() == text.len()
    &&& forall|i: int| 0 <= i < sa.len() ==> #[trigger] sa[i] < text.len()
    &&& forall|i: int, j: int|
        0 <= i < j < sa.len() ==> bytes_sign(
            text.skip(#[trigger] sa[i] as int),
            text.skip(#[trigger] sa[j] as int),
        ) < 0
}

/// Whether `bwt` is the Burrows-Wheeler transform of the text: at each rank
/// the symbol that stands in the text before the suffix of that rank, and
/// for the suffix that is the whole text the last symbol.
pub open spec fn is_bwt(text: Seq<u8>, sa: Seq<usize>, bwt: Seq<u8>) -> bool {
    &&& bwt.len() == text.len()
    &&& forall|r: int|
        0 <= r < bwt.len() ==> #[trigger] bwt[r] == (if sa[r] > 0 {
            text[sa[r] - 1]
        } else {
            text[text.len() - 1]
        })
}

/// `bio::data_structures::suffix_array::suffix_array`: the suffix array of
/// a text that ends with a symbol smaller than all the others.
#[verifier::external_body]
fn suffix_array(text: &[u8]) -> (sa: Vec<usize>)
    requires
        closed_by_least(text@),
    ensures
        is_suffix_array(text@, sa@),
{
    bio::data_structures::suffix_array::suffix_array(text)
}

/// `bio::data_structures::bwt::bwt`: the Burrows-Wheeler transform of the
/// text for the places that `sa` names.
#[verifier::external_body]
fn bwt(text: &[u8], sa: &Vec<usize>) -> (bwt: Vec<u8>)
    requires
        text@.len() > 0,
        sa@.len() == text@.len(),
        forall|i: int| 0 <= i < sa@.len() ==> #[trigger] sa@[i] < text@.len(),
    ensures
        is_bwt(text@, sa@, bwt@),
{
    bio::data_structures::bwt::bwt(text, sa)
}

/// `bio::data_structures::bwt::less`, for the alphabet of the symbols: a
/// table that holds for each number up to the largest symbol and one more
/// how many symbols of the transformed text are smaller.
#[verifier::external_body]
fn less(bwt: &[u8], symbols: &[u8]) -> (less: Vec<usize>)
    requires
        symbols@.len() > 0,
        forall|i: int| 0 <= i < bwt@.len() ==> #[trigger] bwt@[i] <= max_symbol(symbols@) + 1,
    ensures
        less@.len() == max_symbol(symbols@) + 2,
        forall|a: int| 0 <= a < less@.len() ==> #[trigger] less@[a] == smaller(bwt@, a),
{
    bio::data_structures::bwt::less(bwt, &Alphabet::new(symbols))
}

/// `Occ::new`, for the alphabet of the symbols: an occurrence table of the
/// transformed text that keeps every `k`-th count. It counts the symbols
/// and, where the largest of them is larger than the separator, the
/// separator.
#[verifier::external_body]
fn occ_new(bwt: &[u8], k: u32, symbols: &[u8]) -> (occ: Occ)
    requires
        k > 0,
        symbols@.len() > 0,
        forall|i: int| 0 <= i < bwt@.len() ==> #[trigger] bwt@[i] <= max_symbol(symbols@),
    ensures
        occ_bwt(occ) == bwt@,
        forall|a: u8|
            #[trigger] occ_symbols(occ).contains(a) <==> symbols@.contains(a) || (a == 36
                && max_symbol(symbols@) > 36),
{
    Occ::new(bwt, k, &Alphabet::new(symbols))
}

/// `Occ::get`: how often the symbol `a` occurs in the transformed text up
/// to and with the rank `r`, for the text that the table was counted from
/// and a symbol that it counts.
#[verifier::external_body]
fn occ_get(occ: &Occ, bwt: &[u8], r: usize, a: u8) -> (count: usize)
    requires
        occ_bwt(*occ) == bwt@,
        occ_symbols(*occ).contains(a),
        r < bwt@.len(),
    ensures
        count == occurrences(bwt@.take(r + 1), a),
{
    occ.get(bwt, r, a)
}

/// How often the table of occurrences keeps a count: at every third rank.
pub const OCC_SAMPLING: u32 = 3;

/// The index of a text: its suffix array, its transform, and the two tables
/// that the backward search reads.
pub struct TextIndex {
    pub sa: Vec<usize>,
    pub bwt: Vec<u8>,
    pub less: Vec<usize>,
    pub occ: Occ,
}

/// A symbol occurs in the front of a string no more often than in the
/// string, and the symbols that are smaller than it and its occurrences are
/// together no more than the string holds.
pub proof fn lemma_counts(s: Seq<u8>, a: u8, front: int)
    requires
        0 <= front <= s.len(),
    ensures
        occurrences(s.take(front), a) <= occurrences(s, a),
        occurrences(s.take(front), a) <= front,
        smaller(s, a as int) + occurrences(s, a) <= s.len(),
    decreases s.len(),
{
    if s.len() > 0 {
        if front < s.len() {
            lemma_counts(s.drop_last(), a, front);
            assert(s.drop_last().take(front) =~= s.take(front));
        } else {
            assert(s.take(front) =~= s);
            lemma_counts(s.drop_last(), a, front - 1);
        }
    }
}

/// A symbol occurs in a shorter front no more often than in a longer one.
pub proof fn lemma_occurrences_grow(s: Seq<u8>, a: u8, shorter: int, longer: int)
    requires
        0 <= shorter <= longer <= s.len(),
    ensures
        occurrences(s.take(shorter), a) <= occurrences(s.take(longer), a),
{
    lemma_counts(s.take(longer), a, shorter);
    assert(s.take(longer).take(shorter) =~= s.take(shorter));
}

/// The largest of the symbols.
pub fn largest_symbol(symbols: &[u8]) -> (largest: u8)
    ensures
        largest == max_symbol(symbols@),
{
    let mut largest: u8 = 0;
    let mut i: usize = 0;
    while i < symbols.len()
        invariant
            0 <= i <= symbols@.len(),
            largest == max_symbol(symbols@.take(i as int)),
        decreases symbols@.len() - i,
    {
        assert(symbols@.take(i + 1).drop_last() =~= symbols@.take(i as int));
        if symbols[i] > largest {
            largest = symbols[i];
        }
        i += 1;
    }
    assert(symbols@.take(symbols@.len() as int) =~= symbols@);
    largest
}

impl TextIndex {
    /// The index is the index of the text for the symbols: the suffix array
    /// and the transform are those of the text, the less table holds for
    /// each number how many symbols of the transform are smaller, and the
    /// occurrence table counts the symbols and the separator in the
    /// transform.
    pub open spec fn wf(&self, text: Seq<u8>, symbols: Seq<u8>) -> bool {
        &&& closed_by_least(text)
        &&& is_suffix_array(text, self.sa@)
        &&& is_bwt(text, self.sa@, self.bwt@)
        &&& self.less@.len() == max_symbol(symbols) + 2
        &&& forall|a: int| 0 <= a < self.less@.len() ==> #[trigger] self.less@[a] == smaller(
            self.bwt@,
            a,
        )
        &&& occ_bwt(self.occ) == self.bwt@
        &&& forall|a: u8|
            #[trigger] occ_symbols(self.occ).contains(a) <==> symbols.contains(a) || (a == 36
                && max_symbol(symbols) > 36)
    }

    /// Whether the text can be indexed for the symbols: it ends with a
    /// symbol smaller than all the others and holds no symbol larger than
    /// the largest of the symbols, of which there is one at least.
    pub open spec fn indexable(text: Seq<u8>, symbols: Seq<u8>) -> bool {
        &&& closed_by_least(text)
        &&& symbols.len() > 0
        &&& forall|i: int| 0 <= i < text.len() ==> #[trigger] text[i] <= max_symbol(symbols)
    }

    /// Whether the text can be indexed for the symbols.
    pub fn is_indexable(text: &[u8], symbols: &[u8]) -> (indexable: bool)
        ensures
            indexable == Self::indexable(text@, symbols@),
    {
        if text.len() == 0 || symbols.len() == 0 {
            return false;
        }
        let largest = largest_symbol(symbols);
        let last = text[text.len() - 1];
        let mut i: usize = 0;
        while i < text.len()
            invariant
                0 <= i <= text@.len(),
                text@.len() > 0,
                last == text@.last(),
                largest == max_symbol(symbols@),
                forall|j: int| 0 <= j < i ==> #[trigger] text@[j] <= largest,
                forall|j: int| 0 <= j < i && j < text@.len() - 1 ==> #[trigger] text@[j] > last,
            decreases text@.len() - i,
        {
            if text[i] > largest {
                return false;
            }
            if i < text.len() - 1 && text[i] <= last {
                return false;
            }
            i += 1;
        }
        true
    }

    /// The index of the text for the symbols.
    pub fn build(text: &[u8], symbols: &[u8]) -> (index: TextIndex)
        requires
            Self::indexable(text@, symbols@),
        ensures
            index.wf(text@, symbols@),
    {
        let sa = suffix_array(text);
        let bwt = bwt(text, &sa);
        let less = less(bwt.as_slice(), symbols);
        let occ = occ_new(bwt.as_slice(), OCC_SAMPLING, symbols);
        TextIndex { sa, bwt, less, occ }
    }

    /// One step of the backward search: the ranks of the suffixes that
    /// begin with the symbol `a` and go on as the suffixes of the ranks from
    /// `lower` to `upper` begin. `None` where there is no such suffix.
    ///
    /// The ranks that come out are the ranks of the less table for `a`,
    /// moved on by the occurrences of `a` in the transform before `lower`
    /// and up to `upper`.
    pub fn extend(&self, lower: usize, upper: usize, a: u8) -> (ranks: Option<(usize, usize)>)
        requires
            occ_bwt(self.occ) == self.bwt@,
            occ_symbols(self.occ).contains(a),
            a < self.less@.len(),
            self.less@[a as int] == smaller(self.bwt@, a as int),
            lower <= upper < self.bwt@.len(),
        ensures
            match ranks {
                Some((l, u)) => {
                    &&& l <= u < self.bwt@.len()
                    &&& l == smaller(self.bwt@, a as int) + occurrences(
                        self.bwt@.take(lower as int),
                        a,
                    )
                    &&& u + 1 == smaller(self.bwt@, a as int) + occurrences(
                        self.bwt@.take(upper + 1),
                        a,
                    )
                },
                None => occurrences(self.bwt@.take(lower as int), a) == occurrences(
                    self.bwt@.take(upper + 1),
                    a,
                ),
            },
    {
        proof {
            lemma_counts(self.bwt@, a, upper + 1);
            lemma_counts(self.bwt@, a, lower as int);
            lemma_occurrences_grow(self.bwt@, a, lower as int, upper + 1);
        }
        let base = self.less[a as usize];
        let up_to_upper = occ_get(&self.occ, self.bwt.as_slice(), upper, a);
        let before_lower = if lower > 0 {
            occ_get(&self.occ, self.bwt.as_slice(), lower - 1, a)
        } else {
            0
        };
        assert(self.bwt@.len() == self.bwt.len());
        if before_lower >= up_to_upper {
            None
        } else {
            Some((base + before_lower, base + up_to_upper - 1))
        }
    }
}

} // verus!
