//! Run parameters and the immutable corpus built from the input reads.

use crate::text::{repeated, string_from_utf8_lossy, utf8_lossy};
use bidir_map::BidirMap;
use vstd::prelude::*;
use vstd::slice::slice_subrange;

verus! {

/// The bidirectional map of the `bidir_map` crate.
#[verifier::external_type_specification]
#[verifier::external_body]
#[verifier::reject_recursive_types(Kv1)]
#[verifier::reject_recursive_types(Kv2)]
pub struct ExBidirMap<Kv1: PartialEq, Kv2: PartialEq>(BidirMap<Kv1, Kv2>);

/// The pairs that a bidirectional map holds, in the order in which it keeps
/// them.
pub uninterp spec fn bdmap_pairs(map: BidirMap<usize, usize>) -> Seq<(usize, usize)>;

/// `BidirMap::new`: a map that holds no pair.
#[verifier::external_body]
pub(crate) fn bdmap_new() -> (map: BidirMap<usize, usize>)
    ensures
        bdmap_pairs(map) == Seq::<(usize, usize)>::empty(),
{
    BidirMap::new()
}

/// `BidirMap::insert`, for a pair of which the map holds neither half yet:
/// the pair is added behind the others and nothing is taken out.
#[verifier::external_body]
pub(crate) fn bdmap_insert(map: &mut BidirMap<usize, usize>, first: usize, second: usize)
    requires
        forall|i: int|
            0 <= i < bdmap_pairs(*old(map)).len() ==> (#[trigger] bdmap_pairs(*old(map))[i]).0
                != first && bdmap_pairs(*old(map))[i].1 != second,
    ensures
        bdmap_pairs(*final(map)) == bdmap_pairs(*old(map)).push((first, second)),
{
    map.insert(first, second);
}

/// `BidirMap::get_by_first`: the second half of the foremost pair whose first
/// half is `first`, or `None` where no pair has that first half.
#[verifier::external_body]
pub(crate) fn bdmap_get_by_first(map: &BidirMap<usize, usize>, first: usize) -> (second: Option<
    usize,
>)
    ensures
        match second {
            Some(found) => exists|i: int|
                0 <= i < bdmap_pairs(*map).len() && #[trigger] bdmap_pairs(*map)[i] == (
                    first,
                    found,
                ) && forall|j: int| 0 <= j < i ==> (#[trigger] bdmap_pairs(*map)[j]).0 != first,
            None => forall|i: int|
                0 <= i < bdmap_pairs(*map).len() ==> (#[trigger] bdmap_pairs(*map)[i]).0 != first,
        },
{
    map.get_by_first(&first).copied()
}

/// `BidirMap::get_by_second`: the first half of the foremost pair whose
/// second half is `second`, or `None` where no pair has that second half.
#[verifier::external_body]
pub(crate) fn bdmap_get_by_second(map: &BidirMap<usize, usize>, second: usize) -> (first: Option<
    usize,
>)
    ensures
        match first {
            Some(found) => exists|i: int|
                0 <= i < bdmap_pairs(*map).len() && #[trigger] bdmap_pairs(*map)[i] == (
                    found,
                    second,
                ) && forall|j: int| 0 <= j < i ==> (#[trigger] bdmap_pairs(*map)[j]).1 != second,
            None => forall|i: int|
                0 <= i < bdmap_pairs(*map).len() ==> (#[trigger] bdmap_pairs(*map)[i]).1
                    != second,
        },
{
    map.get_by_second(&second).copied()
}

/// `BidirMap::iter`: the pairs of the map, in the order in which it keeps them.
#[verifier::external_body]
pub(crate) fn bdmap_iter(map: &BidirMap<usize, usize>) -> (pairs: Vec<(usize, usize)>)
    ensures
        pairs@ == bdmap_pairs(*map),
{
    map.iter().map(|(first, second)| (*first, *second)).collect()
}

/// A per-position error rate, held as the exact fraction
/// `numerator / denominator`.
#[derive(Clone, Copy, Debug, PartialEq, Eq, Structural)]
pub struct ErrorRate {
    pub numerator: u32,
    pub denominator: u32,
}

impl ErrorRate {
    /// The fraction is defined and lies in `[0, 1)`.
    pub open spec fn wf(self) -> bool {
        self.numerator < self.denominator
    }

    /// Whole-number error budget of a stretch of `len` positions: the rate
    /// times `len`, rounded up.
    pub open spec fn budget(self, len: int) -> int {
        (self.numerator * len + self.denominator - 1) / (self.denominator as int)
    }

    /// Most errors that a stretch of `len` positions may hold: the rate times
    /// `len`, rounded down.
    pub open spec fn allowance(self, len: int) -> int {
        (self.numerator * len) / (self.denominator as int)
    }

    /// The rate `numerator / denominator`, if that is a fraction in `[0, 1)`.
    pub fn new(numerator: u32, denominator: u32) -> (rate: Option<ErrorRate>)
        ensures
            rate is Some <==> numerator < denominator,
            rate matches Some(r) ==> r.numerator == numerator && r.denominator == denominator,
    {
        if numerator < denominator {
            Some(ErrorRate { numerator, denominator })
        } else {
            None
        }
    }

    /// The budget never exceeds the length, never shrinks as the length grows,
    /// and grows by at most one per position.
    pub proof fn lemma_budget_bounds(self, len: int)
        requires
            self.wf(),
            len >= 0,
        ensures
            0 <= self.budget(len) <= len,
            self.budget(len) <= self.budget(len + 1) <= self.budget(len) + 1,
            0 <= self.allowance(len) <= self.budget(len),
    {
        let n = self.numerator as int;
        let d = self.denominator as int;
        assert(0 <= (n * len + d - 1) / d <= len && (n * len + d - 1) / d <= (n * (len + 1) + d
            - 1) / d <= (n * len + d - 1) / d + 1 && 0 <= (n * len) / d <= (n * len + d - 1) / d)
            by (nonlinear_arith)
            requires
                0 <= n < d,
                len >= 0,
        ;
    }

    /// Whole-number error budget of a stretch of `len` positions.
    pub fn error_budget(&self, len: i32) -> (errors: i32)
        requires
            self.wf(),
            len >= 0,
        ensures
            errors == self.budget(len as int),
    {
        proof {
            self.lemma_budget_bounds(len as int);
            assert(0 <= self.numerator * len <= 0xffff_ffff * 0x7fff_ffff) by (nonlinear_arith)
                requires
                    0 <= self.numerator <= 0xffff_ffff,
                    0 <= len <= 0x7fff_ffff,
            ;
        }
        let scaled: u64 = (self.numerator as u64) * (len as u64) + (self.denominator as u64 - 1);
        (scaled / (self.denominator as u64)) as i32
    }
}

/// The byte that stands before each stored string of the corpus text.
pub const SEPARATOR: u8 = 36;

/// The byte that closes the corpus text.
pub const TERMINATOR: u8 = 35;

/// Whether a text without its closing byte is laid out as the offsets say:
/// the ids count up from 0 in the order of the pairs, a separator stands
/// just before each offset and nowhere else, and no terminator occurs.
pub open spec fn laid_out(text: Seq<u8>, pairs: Seq<(usize, usize)>) -> bool {
    &&& forall|i: int| 0 <= i < pairs.len() ==> (#[trigger] pairs[i]).0 == i
    &&& forall|i: int|
        0 <= i < pairs.len() ==> 1 <= (#[trigger] pairs[i]).1 <= text.len() && text[pairs[i].1
            - 1] == SEPARATOR
    &&& forall|i: int, j: int| 0 <= i < j < pairs.len() ==> pairs[i].1 < pairs[j].1
    &&& forall|p: int|
        0 <= p < text.len() && #[trigger] text[p] == SEPARATOR ==> exists|i: int|
            0 <= i < pairs.len() && (#[trigger] pairs[i]).1 == p + 1
    &&& forall|p: int| 0 <= p < text.len() ==> #[trigger] text[p] != TERMINATOR
    &&& text.len() > 0 ==> text[0] == SEPARATOR
}

/// The corpus: the text of all stored strings, where each of them begins,
/// and the name of each.
#[derive(Debug)]
pub struct Maps {
    pub text: Vec<u8>,
    pub id2name_vec: Vec<String>,
    pub id2index_bdmap: BidirMap<usize, usize>,
    pub num_ids: usize,
}

impl Maps {
    /// The pairs of id and offset, in the order of the ids.
    pub open spec fn offsets(&self) -> Seq<(usize, usize)> {
        bdmap_pairs(self.id2index_bdmap)
    }

    /// The corpus is consistent: one name and one offset for each id, and a
    /// text that is a separator and a stored string for each id, in the order
    /// of the ids, closed by the terminator. Separator and terminator occur
    /// nowhere else.
    pub open spec fn wf(&self) -> bool {
        &&& self.num_ids == self.id2name_vec@.len()
        &&& self.num_ids == self.offsets().len()
        &&& self.text@.len() >= 1
        &&& self.text@.last() == TERMINATOR
        &&& laid_out(self.text@.drop_last(), self.offsets())
    }

    /// Where the stored string of `id` begins in the text.
    pub open spec fn offset(&self, id: int) -> int {
        self.offsets()[id].1 as int
    }

    /// Where the stored string of `id` ends in the text: the place of the
    /// next separator, or of the terminator.
    pub open spec fn end(&self, id: int) -> int {
        if id == self.num_ids - 1 {
            self.text@.len() - 1
        } else {
            self.offset(id + 1) - 1
        }
    }

    /// The stored string of `id`.
    pub open spec fn string(&self, id: int) -> Seq<u8> {
        self.text@.subrange(self.offset(id), self.end(id))
    }

    /// The stored string of an id lies within the text, between its offset
    /// and its end.
    pub proof fn lemma_string_range(&self, id: int)
        requires
            self.wf(),
            0 <= id < self.num_ids,
        ensures
            1 <= self.offset(id) <= self.end(id) < self.text@.len(),
            self.text@[self.offset(id) - 1] == SEPARATOR,
            self.offsets()[id].0 == id,
    {
    }

    /// Of two stored strings the one with the smaller id begins first.
    pub proof fn lemma_offsets_rise(&self, id: int, other: int)
        requires
            self.wf(),
            0 <= id < self.num_ids,
            0 <= other < self.num_ids,
        ensures
            id < other <==> self.offset(id) < self.offset(other),
            id == other <==> self.offset(id) == self.offset(other),
    {
    }

    /// A place of the text that lies in a stored string or at its end is
    /// held by that string and by no other.
    pub proof fn lemma_holder(&self, id: int, place: int, other: int)
        requires
            self.wf(),
            0 <= id < self.num_ids,
            0 <= other < self.num_ids,
            self.offset(id) <= place <= self.end(id),
            self.offset(other) <= place,
            other + 1 < self.num_ids ==> place < self.offset(other + 1),
        ensures
            other == id,
    {
        self.lemma_string_range(id);
        self.lemma_string_range(other);
        if id + 1 < self.num_ids {
            self.lemma_offsets_rise(other, id + 1);
        }
        if other + 1 < self.num_ids {
            self.lemma_offsets_rise(id, other + 1);
        }
    }

    /// The stored bytes of `id`.
    pub fn get_string(&self, id: usize) -> (string: &[u8])
        requires
            self.wf(),
            id < self.num_ids,
        ensures
            string@ == self.string(id as int),
    {
        proof {
            self.lemma_string_range(id as int);
        }
        let start = self.index_for(id);
        let end = self.get_end_index(id);
        slice_subrange(self.text.as_slice(), start, end)
    }

    /// The length of the stored string of `id`.
    pub fn get_length(&self, id: usize) -> (length: usize)
        requires
            self.wf(),
            id < self.num_ids,
        ensures
            length == self.string(id as int).len(),
    {
        proof {
            self.lemma_string_range(id as int);
        }
        self.get_end_index(id) - self.index_for(id)
    }

    /// Where the stored string of `id` ends in the text.
    fn get_end_index(&self, id: usize) -> (end: usize)
        requires
            self.wf(),
            id < self.num_ids,
        ensures
            end == self.end(id as int),
    {
        if id == self.num_ids - 1 {
            self.text.len() - 1
        } else {
            proof {
                self.lemma_string_range(id + 1);
            }
            self.index_for(id + 1) - 1
        }
    }

    /// The id and the offset of the stored string that holds the place
    /// `index` of the text: of all strings that begin at or before `index`,
    /// the last. Where none does, the id 0 with the offset 1.
    pub fn find_occurrence_containing(&self, index: usize) -> (found: (usize, usize))
        requires
            self.wf(),
        ensures
            self.num_ids == 0 || index == 0 ==> found == (0usize, 1usize),
            self.num_ids > 0 && index >= 1 ==> {
                &&& found.0 < self.num_ids
                &&& found.1 == self.offset(found.0 as int)
                &&& found.1 <= index
                &&& found.0 + 1 < self.num_ids ==> index < self.offset(found.0 + 1)
            },
    {
        let pairs = bdmap_iter(&self.id2index_bdmap);
        let mut best: (usize, usize) = (0, 1);
        let mut i: usize = 0;
        while i < pairs.len()
            invariant
                0 <= i <= pairs.len(),
                pairs@ == self.offsets(),
                self.wf(),
                i == 0 || index == 0 ==> best == (0usize, 1usize),
                i > 0 && index >= 1 ==> {
                    &&& best.0 < i
                    &&& best.1 == self.offset(best.0 as int)
                    &&& best.1 <= index
                    &&& best.0 + 1 < i ==> index < self.offset(best.0 + 1)
                },
            decreases pairs.len() - i,
        {
            let (id, ind) = pairs[i];
            proof {
                self.lemma_string_range(i as int);
                self.lemma_string_range(0);
                if i > 0 {
                    self.lemma_string_range(i - 1);
                }
            }
            if ind <= index && ind > best.1 {
                best = (id, ind);
            }
            i += 1;
        }
        best
    }

    /// The name of the read that the string `id` was taken from.
    pub fn get_name_for(&self, id: usize) -> (name: &str)
        requires
            id < self.id2name_vec@.len(),
        ensures
            name@ == self.id2name_vec@[id as int]@,
    {
        self.id2name_vec[id].as_str()
    }

    /// The whole corpus text, for a debugging printout.
    pub fn text_debug(&self) -> (text: String)
        ensures
            text@ == utf8_lossy(self.text@),
    {
        string_from_utf8_lossy(self.text.as_slice())
    }

    /// The stored string of `id` as text.
    pub fn formatted(&self, id: usize) -> (text: String)
        requires
            self.wf(),
            id < self.num_ids,
        ensures
            text@ == utf8_lossy(self.string(id as int)),
    {
        string_from_utf8_lossy(self.get_string(id))
    }

    /// The text `print` behind `pushes` copies of `push_str`.
    pub fn push_string(&self, print: &str, push_str: &str, pushes: usize) -> (text: String)
        ensures
            text@ == repeated(push_str@, pushes as nat) + print@,
    {
        let mut s = String::new();
        let mut i: usize = 0;
        while i < pushes
            invariant
                0 <= i <= pushes,
                s@ == repeated(push_str@, i as nat),
            decreases pushes - i,
        {
            s.append(push_str);
            i += 1;
        }
        s.append(print);
        s
    }

    /// The id of the stored string that begins at `index`.
    #[inline]
    pub fn id_for(&self, index: usize) -> (id: usize)
        requires
            self.wf(),
            exists|i: int| 0 <= i < self.num_ids && self.offset(i) == index,
        ensures
            id < self.num_ids,
            self.offset(id as int) == index,
    {
        let found = bdmap_get_by_second(&self.id2index_bdmap, index);
        proof {
            let i = choose|i: int| 0 <= i < self.num_ids && self.offset(i) == index;
        }
        found.unwrap()
    }

    /// Where the stored string of `id` begins in the text.
    #[inline]
    pub fn index_for(&self, id: usize) -> (index: usize)
        requires
            self.wf(),
            id < self.num_ids,
        ensures
            index == self.offset(id as int),
    {
        let found = bdmap_get_by_first(&self.id2index_bdmap, id);
        assert(self.offsets()[id as int].0 == id);
        found.unwrap()
    }
}

/// The symbols of reads that may hold unread positions.
pub const N_ALPH: [u8; 5] = [65, 67, 71, 78, 84];

/// The symbols of reads.
pub const ALPH: [u8; 4] = [65, 67, 71, 84];

/// The parameters of a run.
#[derive(Debug)]
pub struct Config {
    pub input: String,
    pub output: String,
    pub err_rate: ErrorRate,
    pub thresh: i32,
    pub worker_threads: usize,
    pub sorted: bool,
    pub reversals: bool,
    pub inclusions: bool,
    pub edit_distance: bool,
    pub verbose: bool,
    pub time: bool,
    pub print: bool,
    pub n_alphabet: bool,
    pub greedy_output: bool,
    pub format_line: bool,
    pub track_progress: bool,
    pub verbosity: u8,
}

impl Config {
    /// The parameters are in range: an error rate in `[0, 1)`, a threshold of
    /// at least 1 and at least one worker.
    pub open spec fn wf(&self) -> bool {
        &&& self.err_rate.wf()
        &&& self.thresh >= 1
        &&& self.worker_threads >= 1
    }

    /// The symbols that the reads are made of.
    pub open spec fn symbols(&self) -> Seq<u8> {
        if self.n_alphabet {
            N_ALPH@
        } else {
            ALPH@
        }
    }

    /// The symbols are upper-case letters: there is one at least, they
    /// come after the separator, and the largest of them is `T`.
    pub proof fn lemma_symbols(&self)
        ensures
            self.symbols().len() >= 4,
            crate::index::max_symbol(self.symbols()) == 84,
            forall|k: int| 0 <= k < self.symbols().len() ==> 65 <= #[trigger] self.symbols()[k] <= 84,
    {
        reveal_with_fuel(crate::index::max_symbol, 6);
        let symbols = self.symbols();
    }

    /// Whether the parameters are in range.
    pub fn is_valid(&self) -> (valid: bool)
        ensures
            valid == self.wf(),
    {
        self.err_rate.numerator < self.err_rate.denominator && self.thresh >= 1
            && self.worker_threads >= 1
    }

    /// The symbols that the reads are made of.
    pub fn alphabet(&self) -> (symbols: &[u8])
        ensures
            symbols@ == self.symbols(),
    {
        if self.n_alphabet {
            &N_ALPH
        } else {
            &ALPH
        }
    }
}

} // verus!
