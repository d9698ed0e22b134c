//! Candidate generation: a backward search through the index that walks
//! the blocks of the query and lets more errors in as more blocks are done.
//!
//! The stored strings run from right to left, and the backward search reads
//! the query from its end, so the search follows the read of the query from
//! its first symbol on. Wherever what was read so far begins a stored
//! string, the end of that string's read lies over the beginning of the
//! read of the query.

use crate::index::{max_symbol, occ_bwt, occ_symbols, smaller, TextIndex};
use crate::modes::kucherov::{
    as_ints, block_lengths, lemma_block_lengths, lemma_block_lengths_fit,
    lemma_blocks_cover_budget, sum,
};
use crate::modes::Mode;
use crate::ranks::{
    begins, is_match_range, lemma_rank_of, lemma_step, matches_at, rank_of, stepped,
};
use crate::structs::run_config::{Config, Maps, SEPARATOR};
use crate::structs::solutions::Candidate;
use crate::verification::{fits, hamming, is_inclusion, lemma_hamming_front};
use vstd::prelude::*;

verus! {

/// Whether a candidate of the query `id_a` is worth checking: its target is
/// another string, its two regions are as long as each other and as the
/// threshold at least, they fit the two strings, and no string lies in the
/// overlap as a whole unless inclusions are asked for.
pub open spec fn candidate_ok(c: &Candidate, id_a: usize, config: &Config, maps: &Maps) -> bool {
    let a_len = maps.string(id_a as int).len() as int;
    let b_len = maps.string(c.id_b as int).len() as int;
    &&& c.id_b < maps.num_ids
    &&& c.id_b != id_a
    &&& c.overlap_a == c.overlap_b
    &&& c.overlap_a >= config.thresh
    &&& fits(c, a_len, b_len)
    &&& (config.inclusions || !is_inclusion(c, a_len, b_len))
}

/// Whether all candidates of the list are worth checking.
pub open spec fn all_ok(list: Seq<Candidate>, id_a: usize, config: &Config, maps: &Maps) -> bool {
    forall|i: int| 0 <= i < list.len() ==> candidate_ok(#[trigger] &list[i], id_a, config, maps)
}

/// Whether the index can take a step of the backward search with the
/// symbol.
pub open spec fn steps_with(index: &TextIndex, a: u8) -> bool {
    &&& occ_symbols(index.occ).contains(a)
    &&& a < index.less@.len()
    &&& index.less@[a as int] == smaller(index.bwt@, a as int)
}

/// How many symbols lie over each other where the end of a string of
/// `a_len` symbols lies at the place `j` of another string: `j` of them, or
/// the whole string where it is shorter than that.
pub open spec fn reach(j: int, a_len: int) -> int {
    if j <= a_len {
        j
    } else {
        a_len
    }
}

/// Whether the search for the query `id_a` has to find the way of laying
/// the query over the string `id_b` in which the end of the query lies at
/// the place `j` of the string, should the two be close enough there.
///
/// Up to the length of the query the first `j` symbols of the string lie
/// over the last `j` symbols of the query; beyond it the query lies within
/// the string as a whole. The string is another string and is made of the
/// symbols of the reads, the symbols that lie over each other are as many
/// as the threshold at least, and neither string lies in the overlap as a
/// whole unless inclusions are asked for.
pub open spec fn sought(config: &Config, maps: &Maps, id_a: int, id_b: int, j: int) -> bool {
    let a_len = maps.string(id_a).len() as int;
    let b_len = maps.string(id_b).len() as int;
    &&& 0 <= id_b < maps.num_ids
    &&& id_b != id_a
    &&& config.thresh <= reach(j, a_len)
    &&& j <= b_len <= i32::MAX
    &&& (config.inclusions || (j < a_len && j < b_len))
    &&& forall|i: int| 0 <= i < b_len ==> config.symbols().contains(#[trigger] maps.string(id_b)[i])
}

/// At how many places the query `id_a` and the string `id_b` differ where
/// the end of the query lies at the place `j` of the string.
pub open spec fn overlap_errors(maps: &Maps, id_a: int, id_b: int, j: int) -> nat {
    let a = maps.string(id_a);
    let over = reach(j, a.len() as int);
    hamming(a.subrange(a.len() - over, a.len() as int), maps.string(id_b).subrange(j - over, j))
}

/// Whether the candidate says that the end of a pattern of `a_len` symbols
/// lies at the place `j` of the string `id_b`.
pub open spec fn is_candidate_of(c: &Candidate, id_b: int, j: int, a_len: int) -> bool {
    &&& c.id_b == id_b
    &&& c.overlap_a == reach(j, a_len)
    &&& c.overlap_b == reach(j, a_len)
    &&& c.overhang_left_a == a_len - j
}

/// Whether one of the candidates says that the end of the pattern lies at
/// the place `j` of the string `id_b`.
pub open spec fn has_candidate(list: Seq<Candidate>, id_b: int, j: int, a_len: int) -> bool {
    exists|i: int| 0 <= i < list.len() && is_candidate_of(#[trigger] &list[i], id_b, j, a_len)
}

/// Whether the longer list begins with the shorter one.
pub open spec fn extends(longer: Seq<Candidate>, shorter: Seq<Candidate>) -> bool {
    &&& shorter.len() <= longer.len()
    &&& forall|i: int| 0 <= i < shorter.len() ==> #[trigger] longer[i] == shorter[i]
}

/// A candidate of a list is a candidate of every list that begins with it.
pub proof fn lemma_has_candidate_extends(
    longer: Seq<Candidate>,
    shorter: Seq<Candidate>,
    id_b: int,
    j: int,
    a_len: int,
)
    requires
        extends(longer, shorter),
        has_candidate(shorter, id_b, j, a_len),
    ensures
        has_candidate(longer, id_b, j, a_len),
{
    let i = choose|i: int|
        0 <= i < shorter.len() && is_candidate_of(#[trigger] &shorter[i], id_b, j, a_len);
    assert(longer[i] == shorter[i]);
}

/// What a search of one query rests on.
pub struct Query<'a> {
    /// The stored string of the query.
    pub pattern: &'a [u8],
    /// The symbols that a step of the search may take.
    pub symbols: &'a [u8],
    pub config: &'a Config,
    pub maps: &'a Maps,
    pub id_a: usize,
    /// Where the blocks end, counted from the end of the pattern, with 0
    /// before the first.
    pub ends: Vec<usize>,
    /// The most errors that an overlap of the whole pattern may hold.
    pub max_errors: usize,
}

impl<'a> Query<'a> {
    /// The query is one of the corpus, and the index is the index of its
    /// text and can take steps with every symbol and with the separator.
    pub open spec fn ready(&self, index: &TextIndex) -> bool {
        &&& self.maps.wf()
        &&& self.config.wf()
        &&& self.id_a < self.maps.num_ids
        &&& self.pattern@ == self.maps.string(self.id_a as int)
        &&& self.pattern@.len() <= i32::MAX
        &&& self.symbols@ == self.config.symbols()
        &&& index.wf(self.maps.text@, self.symbols@)
        &&& index.sa@.len() == self.maps.text@.len()
        &&& index.bwt@.len() == self.maps.text@.len()
        &&& forall|i: int| 0 <= i < index.sa@.len() ==> #[trigger] index.sa@[i] < index.sa@.len()
        &&& occ_bwt(index.occ) == index.bwt@
        &&& steps_with(index, SEPARATOR)
        &&& forall|k: int| 0 <= k < self.symbols@.len() ==> steps_with(index, #[trigger] self.symbols@[k])
        &&& self.ends@.len() >= 2
        &&& self.ends@[0] == 0
        &&& self.ends@.last() == self.pattern@.len()
        &&& forall|b: int, d: int| 0 <= b <= d < self.ends@.len() ==> self.ends@[b] <= self.ends@[d]
    }

    /// The number of blocks.
    pub open spec fn blocks(&self) -> int {
        self.ends@.len() - 1
    }

    /// How many symbols lie over each other where the end of the pattern
    /// lies at the place `j` of a string.
    pub open spec fn over(&self, j: int) -> int {
        reach(j, self.pattern@.len() as int)
    }

    /// Whether the search has to find the way of laying the pattern over
    /// the string `id_b` in which the end of the pattern lies at the place
    /// `j` of the string, should the two be close enough there: the string
    /// is another string, the symbols that lie over each other are as many
    /// as the threshold at least, and neither string lies in the overlap as
    /// a whole unless inclusions are asked for.
    pub open spec fn wanted(&self, id_b: int, j: int) -> bool {
        let b_len = self.maps.string(id_b).len();
        &&& 0 <= id_b < self.maps.num_ids
        &&& id_b != self.id_a
        &&& self.config.thresh <= self.over(j)
        &&& j <= b_len <= i32::MAX
        &&& (self.config.inclusions || (j < self.pattern@.len() && j < b_len))
    }

    /// The block that holds the place `pos`, or the last block that ends
    /// there where the pattern ends: the search goes on from `block` past
    /// the blocks that are done.
    fn block_at(&self, block: usize, pos: usize) -> (at: usize)
        requires
            self.ends@.len() >= 2,
            block < self.blocks(),
        ensures
            block <= at < self.blocks(),
            at == self.block_from(block as int, pos as int),
    {
        let mut at = block;
        let last = self.ends.len() - 2;
        while at < last && self.ends[at + 1] <= pos
            invariant
                block <= at <= last,
                last == self.ends@.len() - 2,
                self.block_from(at as int, pos as int) == self.block_from(
                    block as int,
                    pos as int,
                ),
            decreases last - at,
        {
            at += 1;
        }
        at
    }
}

impl<'a> Query<'a> {
    /// The symbol of the pattern at the place `p`, counted from its end.
    pub open spec fn pattern_at(&self, p: int) -> u8 {
        self.pattern@[self.pattern@.len() - 1 - p]
    }

    /// The symbol of the string `id_b` that lies over the place `p` of the
    /// pattern when the end of the pattern lies at the place `j` of the
    /// string.
    pub open spec fn target_at(&self, id_b: int, j: int, p: int) -> u8 {
        self.maps.string(id_b)[j - 1 - p]
    }

    /// Whether the string and the pattern differ at the place `p`.
    pub open spec fn differs(&self, id_b: int, j: int, p: int) -> bool {
        self.pattern_at(p) != self.target_at(id_b, j, p)
    }

    /// At how many of the places from `from` up to `to` the string and the
    /// pattern differ.
    pub open spec fn mismatches(&self, id_b: int, j: int, from: int, to: int) -> int
        decreases to - from,
    {
        if to <= from {
            0
        } else {
            self.mismatches(id_b, j, from, to - 1) + (if self.differs(id_b, j, to - 1) {
                1int
            } else {
                0int
            })
        }
    }

    /// The first block from `b` on that ends behind the place `pos`, or the
    /// last block.
    pub open spec fn block_from(&self, b: int, pos: int) -> int
        decreases self.blocks() - b,
    {
        if b >= self.blocks() - 1 || self.ends@[b + 1] > pos {
            b
        } else {
            self.block_from(b + 1, pos)
        }
    }

    /// The block that holds the place `pos`.
    pub open spec fn block_of(&self, pos: int) -> int {
        self.block_from(0, pos)
    }

    /// Whether the string `id_b` is made of symbols that the search takes
    /// steps with.
    pub open spec fn spelled(&self, id_b: int) -> bool {
        forall|i: int|
            0 <= i < self.maps.string(id_b).len() ==> self.symbols@.contains(
                #[trigger] self.maps.string(id_b)[i],
            )
    }

    /// Whether the search that begins at the block `first_block` stays on
    /// the way to the place `j` of the string `id_b`: wherever the two
    /// differ, the places read before differ less often than blocks are
    /// done since the beginning of the search, and less often than the
    /// error rate allows for the whole pattern.
    pub open spec fn admissible(&self, first_block: int, id_b: int, j: int) -> bool {
        let s = self.ends@[first_block] as int;
        &&& s < self.over(j)
        &&& forall|p: int|
            s <= p < self.over(j) && #[trigger] self.differs(id_b, j, p) ==> self.mismatches(
                id_b,
                j,
                s,
                p,
            ) < self.block_of(p) - first_block && self.mismatches(id_b, j, s, p)
                < self.max_errors
    }

    /// Whether a search that began at the block `first_block`, has come to
    /// the place `pos` and has read `w` with `errors` errors is on the way
    /// to the place `j` of the string `id_b`.
    pub open spec fn leads_to(
        &self,
        first_block: int,
        pos: int,
        errors: int,
        w: Seq<u8>,
        id_b: int,
        j: int,
    ) -> bool {
        let s = self.ends@[first_block] as int;
        &&& self.wanted(id_b, j)
        &&& self.spelled(id_b)
        &&& self.admissible(first_block, id_b, j)
        &&& pos <= self.over(j)
        &&& self.maps.string(id_b).subrange(j - pos, j - s) == w
        &&& self.mismatches(id_b, j, s, pos) == errors
    }

    /// The blocks before the block that holds a place end at or before the
    /// place, and a search for the block can begin at any of them.
    pub proof fn lemma_block_from(&self, b: int, pos: int)
        requires
            self.ends@.len() >= 2,
            0 <= b < self.blocks(),
            forall|d: int| 0 < d <= b ==> #[trigger] self.ends@[d] <= pos,
        ensures
            b <= self.block_from(b, pos) < self.blocks(),
            self.block_from(b, pos) == self.block_of(pos),
            forall|d: int| 0 < d <= self.block_of(pos) ==> #[trigger] self.ends@[d] <= pos,
            self.block_of(pos) == self.blocks() - 1 || self.ends@[self.block_of(pos) + 1] > pos,
        decreases b,
    {
        self.lemma_block_from_on(b, pos);
        if b > 0 {
            self.lemma_block_from(b - 1, pos);
        }
    }

    /// The block found from `b` on is a block, and the blocks from `b` up
    /// to it end at or before the place.
    pub proof fn lemma_block_from_on(&self, b: int, pos: int)
        requires
            self.ends@.len() >= 2,
            0 <= b < self.blocks(),
        ensures
            b <= self.block_from(b, pos) < self.blocks(),
            forall|d: int| b < d <= self.block_from(b, pos) ==> #[trigger] self.ends@[d] <= pos,
            self.block_from(b, pos) == self.blocks() - 1 || self.ends@[self.block_from(b, pos)
                + 1] > pos,
        decreases self.blocks() - b,
    {
        if !(b >= self.blocks() - 1 || self.ends@[b + 1] > pos) {
            self.lemma_block_from_on(b + 1, pos);
        }
    }

    /// Whether one of the first `k` symbols is the symbol of the string
    /// `id_b` that lies over the place `pos` of the pattern.
    pub open spec fn tried(&self, k: int, id_b: int, j: int, pos: int) -> bool {
        exists|i: int| 0 <= i < k && #[trigger] self.symbols@[i] == self.target_at(id_b, j, pos)
    }

    /// A search that has come to the end of an overlap it is on the way to
    /// has read the beginning of the string of the overlap.
    pub proof fn lemma_arrived(
        &self,
        first_block: int,
        pos: int,
        errors: int,
        w: Seq<u8>,
        id_b: int,
    )
        requires
            self.leads_to(first_block, pos, errors, w, id_b, pos),
        ensures
            self.wanted(id_b, pos),
            begins(self.maps.string(id_b), w),
            self.ends@[first_block] < pos,
            self.config.thresh <= pos,
    {
        let string = self.maps.string(id_b);
    }

    /// A search that is on the way to an overlap and has not come to its
    /// end stays on the way with the next symbol of the string: the suffix
    /// that begins with that symbol and goes on with what was read has a
    /// rank, the symbol is one that the search takes steps with, and with
    /// it the search has one error more where the string and the pattern
    /// differ there.
    pub proof fn lemma_on_the_way(
        &self,
        index: &TextIndex,
        first_block: int,
        pos: int,
        errors: int,
        w: Seq<u8>,
        id_b: int,
        j: int,
    )
        requires
            self.ready(index),
            0 <= first_block < self.blocks(),
            self.ends@[first_block] <= pos,
            self.leads_to(first_block, pos, errors, w, id_b, j),
            pos < self.over(j),
        ensures
            ({
                let c = self.target_at(id_b, j, pos);
                let place = self.maps.offset(id_b) + j - pos - 1;
                let rank = rank_of(index.sa@, place);
                let more = if self.differs(id_b, j, pos) {
                    errors + 1
                } else {
                    errors
                };
                &&& self.symbols@.contains(c)
                &&& 0 <= rank < index.sa@.len()
                &&& matches_at(self.maps.text@, index.sa@, rank, seq![c] + w)
                &&& self.leads_to(first_block, pos + 1, more, seq![c] + w, id_b, j)
                &&& self.differs(id_b, j, pos) ==> errors < self.block_of(pos) - first_block
                    && errors < self.max_errors
            }),
    {
        let string = self.maps.string(id_b);
        let s = self.ends@[first_block] as int;
        let c = self.target_at(id_b, j, pos);
        let place = self.maps.offset(id_b) + j - pos - 1;
        let text = self.maps.text@;
        self.maps.lemma_string_range(id_b);
        lemma_rank_of(text, index.sa@, place);
        assert(string.subrange(j - pos - 1, j - s) =~= seq![c] + w);
        assert(text.skip(place).take((seq![c] + w).len() as int) =~= seq![c] + w);
    }

    /// Whether the ends of the blocks begin with 0 and never fall.
    pub open spec fn ends_rise(&self) -> bool {
        &&& self.ends@.len() >= 2
        &&& self.ends@[0] == 0
        &&& forall|b: int, d: int| 0 <= b <= d < self.ends@.len() ==> self.ends@[b] <= self.ends@[d]
    }

    /// The places from `from` up to `to` differ as often as those up to a
    /// place between and those from there on together, never less than 0
    /// times and never more often than they are.
    pub proof fn lemma_mismatches_split(&self, id_b: int, j: int, from: int, mid: int, to: int)
        requires
            from <= mid <= to,
        ensures
            self.mismatches(id_b, j, from, to) == self.mismatches(id_b, j, from, mid)
                + self.mismatches(id_b, j, mid, to),
            0 <= self.mismatches(id_b, j, mid, to) <= to - mid,
        decreases to - mid,
    {
        if mid < to {
            self.lemma_mismatches_split(id_b, j, from, mid, to - 1);
        }
    }

    /// The block that holds a place is a block that begins at or before the
    /// place, and no block that begins at or before the place comes after
    /// it.
    pub proof fn lemma_block_of(&self, pos: int, b: int)
        requires
            self.ends_rise(),
            0 <= pos,
            0 <= b < self.blocks(),
        ensures
            0 <= self.block_of(pos) < self.blocks(),
            self.ends@[self.block_of(pos)] <= pos,
            self.block_of(pos) == self.blocks() - 1 || self.ends@[self.block_of(pos) + 1] > pos,
            self.ends@[b] <= pos ==> b <= self.block_of(pos),
    {
        self.lemma_block_from(0, pos);
        let at = self.block_of(pos);
    }

    /// The place at which the block `b` begins, with the place `limit` for a
    /// block beyond the block `last`.
    pub open spec fn cut(&self, limit: int, last: int, b: int) -> int {
        if b <= last {
            self.ends@[b] as int
        } else {
            limit
        }
    }

    /// By how much the places before the block `b` differ more often than
    /// blocks come before it.
    pub open spec fn height(&self, id_b: int, j: int, limit: int, last: int, b: int) -> int {
        self.mismatches(id_b, j, 0, self.cut(limit, last, b)) - b
    }

    /// The last of the blocks up to `top` before which the places differ
    /// most often, held against the blocks that come before.
    proof fn lemma_last_peak(&self, id_b: int, j: int, limit: int, last: int, top: int) -> (i:
        int)
        requires
            0 <= top,
        ensures
            0 <= i <= top,
            forall|b: int|
                i < b <= top ==> #[trigger] self.height(id_b, j, limit, last, b) < self.height(
                    id_b,
                    j,
                    limit,
                    last,
                    i,
                ),
            forall|b: int|
                0 <= b <= top ==> #[trigger] self.height(id_b, j, limit, last, b) <= self.height(
                    id_b,
                    j,
                    limit,
                    last,
                    i,
                ),
        decreases top,
    {
        if top == 0 {
            0
        } else {
            let before = self.lemma_last_peak(id_b, j, limit, last, top - 1);
            if self.height(id_b, j, limit, last, top) >= self.height(
                id_b,
                j,
                limit,
                last,
                before,
            ) {
                top
            } else {
                before
            }
        }
    }

    /// Where the symbols that lie over each other differ no more often than
    /// blocks come before the block of the last of them, a search that
    /// begins at one of the blocks stays on the way.
    pub proof fn lemma_filter(&self, id_b: int, j: int) -> (first_block: int)
        requires
            self.ends_rise(),
            1 <= self.over(j),
            self.mismatches(id_b, j, 0, self.over(j)) <= self.block_of(self.over(j) - 1),
            self.mismatches(id_b, j, 0, self.over(j)) <= self.max_errors,
        ensures
            0 <= first_block < self.blocks(),
            self.admissible(first_block, id_b, j),
    {
        let limit = self.over(j);
        let last = self.block_of(limit - 1);
        self.lemma_block_of(limit - 1, 0);
        let i = self.lemma_last_peak(id_b, j, limit, last, last + 1);
        assert(self.height(id_b, j, limit, last, 0) == 0);
        let s = self.ends@[i] as int;
        assert forall|p: int|
            s <= p < limit && #[trigger] self.differs(id_b, j, p) implies self.mismatches(
            id_b,
            j,
            s,
            p,
        ) < self.block_of(p) - i && self.mismatches(id_b, j, s, p) < self.max_errors by {
            let at = self.block_of(p);
            self.lemma_block_of(p, i);
            self.lemma_block_of(limit - 1, at);
            let behind = self.cut(limit, last, at + 1);
            assert(self.height(id_b, j, limit, last, at + 1) < self.height(
                id_b,
                j,
                limit,
                last,
                i,
            ));
            self.lemma_mismatches_split(id_b, j, 0, s, behind);
            self.lemma_mismatches_split(id_b, j, s, p + 1, behind);
            self.lemma_mismatches_split(id_b, j, 0, s, limit);
            self.lemma_mismatches_split(id_b, j, s, p + 1, limit);
        }
        i
    }

    /// The places of an overlap that the search reads first differ as often
    /// as the two strings do at their ends.
    pub proof fn lemma_mismatches_hamming(&self, id_b: int, j: int, to: int)
        requires
            0 <= to <= self.over(j),
            j <= self.maps.string(id_b).len(),
        ensures
            self.mismatches(id_b, j, 0, to) == hamming(
                self.pattern@.subrange(self.pattern@.len() - to, self.pattern@.len() as int),
                self.maps.string(id_b).subrange(j - to, j),
            ),
        decreases to,
    {
        let m = self.pattern@.len() as int;
        let x = self.pattern@.subrange(m - to, m);
        let y = self.maps.string(id_b).subrange(j - to, j);
        if to > 0 {
            self.lemma_mismatches_hamming(id_b, j, to - 1);
            lemma_hamming_front(x, y);
            assert(x.skip(1) =~= self.pattern@.subrange(m - (to - 1), m));
            assert(y.skip(1) =~= self.maps.string(id_b).subrange(j - (to - 1), j));
        }
    }

    /// Whether a search that began at one of the first `count` blocks stays
    /// on the way to the overlap of `j` symbols with the string `id_b`.
    pub open spec fn begun(&self, count: int, id_b: int, j: int) -> bool {
        exists|first_block: int|
            0 <= first_block < count && #[trigger] self.admissible(first_block, id_b, j)
    }

    /// Whether the string `id_b` holds `w` where the pattern lies when its
    /// end lies at the place `j` of the string.
    pub open spec fn lies_at(&self, id_b: int, j: int, w: Seq<u8>) -> bool {
        let from = j - self.pattern@.len();
        self.maps.string(id_b).subrange(from, from + w.len()) == w
    }

    /// Whether the place of the string `id_b` at which the pattern begins
    /// when its end lies at the place `j` has a rank from `first` to `last`.
    pub open spec fn held_at(
        &self,
        index: &TextIndex,
        id_b: int,
        j: int,
        first: int,
        last: int,
    ) -> bool {
        let place = self.maps.offset(id_b) + j - self.pattern@.len();
        let rank = rank_of(index.sa@, place);
        &&& first <= rank <= last
        &&& 0 <= rank < index.sa@.len()
        &&& index.sa@[rank] == place
    }

    /// A string that holds what the search has read, where the pattern lies
    /// within it, has the place at which the pattern begins among the ranks
    /// of the search.
    pub proof fn lemma_held_at(&self, index: &TextIndex, id_b: int, j: int, w: Seq<u8>)
        requires
            self.ready(index),
            self.wanted(id_b, j),
            j >= self.pattern@.len(),
            self.lies_at(id_b, j, w),
            w.len() <= self.pattern@.len(),
        ensures
            forall|lower: int, upper: int|
                #[trigger] is_match_range(self.maps.text@, index.sa@, lower, upper, w)
                    ==> self.held_at(index, id_b, j, lower, upper),
    {
        let text = self.maps.text@;
        let from = j - self.pattern@.len();
        let place = self.maps.offset(id_b) + from;
        let string = self.maps.string(id_b);
        self.maps.lemma_string_range(id_b);
        lemma_rank_of(text, index.sa@, place);
        assert(text.skip(place).take(w.len() as int) =~= string.subrange(from, from + w.len()));
        assert(matches_at(text, index.sa@, rank_of(index.sa@, place), w));
    }

    /// Whether the separator before the string `id_b` has a rank from
    /// `first` to `last`.
    pub open spec fn found_at(&self, index: &TextIndex, id_b: int, first: int, last: int) -> bool {
        let rank = rank_of(index.sa@, self.maps.offset(id_b) - 1);
        &&& first <= rank <= last
        &&& 0 <= rank < index.sa@.len()
        &&& index.sa@[rank] == self.maps.offset(id_b) - 1
    }

    /// The symbols of the reads are no terminator, and a step of the
    /// backward search with one of them or with the separator can be
    /// reasoned about.
    pub proof fn lemma_symbol_steps(&self, index: &TextIndex, k: int)
        requires
            self.ready(index),
            0 <= k < self.symbols@.len(),
        ensures
            crate::ranks::steppable(self.maps.text@, index.sa@, index.bwt@, self.symbols@[k]),
            crate::ranks::steppable(self.maps.text@, index.sa@, index.bwt@, SEPARATOR),
    {
        self.config.lemma_symbols();
    }
}

impl TextIndex {
    /// Adds a candidate for each stored string that begins with what the
    /// search has read: the ranks from `lower` to `upper` are those of the
    /// suffixes that begin with it, and `pos` symbols of the pattern lie
    /// before the end of what was read.
    ///
    /// Every string that is wanted with `pos` symbols and begins with what
    /// was read has its candidate then.
    fn emit_at_separator(
        &self,
        q: &Query,
        lower: usize,
        upper: usize,
        pos: usize,
        Ghost(w): Ghost<Seq<u8>>,
        out: &mut Vec<Candidate>,
    )
        requires
            q.ready(self),
            lower <= upper < self.bwt@.len(),
            q.config.thresh <= pos <= q.pattern@.len(),
            is_match_range(q.maps.text@, self.sa@, lower as int, upper as int, w),
            all_ok(old(out)@, q.id_a, q.config, q.maps),
        ensures
            all_ok(final(out)@, q.id_a, q.config, q.maps),
            extends(final(out)@, old(out)@),
            forall|id_b: int|
                #[trigger] q.wanted(id_b, pos as int) && begins(q.maps.string(id_b), w)
                    ==> has_candidate(final(out)@, id_b, pos as int, q.pattern@.len() as int),
    {
        let ghost text = q.maps.text@;
        let ghost longer = seq![SEPARATOR] + w;
        let ghost m = q.pattern@.len() as int;
        proof {
            lemma_step(text, self.sa@, self.bwt@, SEPARATOR, lower as int, upper as int, w);
            assert forall|id_b: int|
                #[trigger] q.wanted(id_b, pos as int) && begins(
                    q.maps.string(id_b),
                    w,
                ) implies q.found_at(self, id_b, stepped(self.bwt@, SEPARATOR, lower as int), stepped(
                self.bwt@,
                SEPARATOR,
                upper + 1,
            ) - 1) by {
                q.maps.lemma_string_range(id_b);
                lemma_rank_of(text, self.sa@, q.maps.offset(id_b) - 1);
                let place = q.maps.offset(id_b) - 1;
                let string = q.maps.string(id_b);
                assert(text.skip(place).take(longer.len() as int) =~= seq![SEPARATOR]
                    + string.take(w.len() as int));
                assert(matches_at(text, self.sa@, rank_of(self.sa@, place), longer));
            }
        }
        let (first, last) = match self.extend(lower, upper, SEPARATOR) {
            Some(ranks) => ranks,
            None => {
                return ;
            },
        };
        let a_len = q.pattern.len();
        let n = self.sa.len();
        let mut rank = first;
        while rank <= last
            invariant
                q.ready(self),
                first <= rank <= last + 1,
                last < n,
                n == self.sa@.len(),
                a_len == q.pattern@.len(),
                m == a_len,
                text == q.maps.text@,
                q.config.thresh <= pos <= a_len,
                all_ok(out@, q.id_a, q.config, q.maps),
                extends(out@, old(out)@),
                forall|id_b: int|
                    #[trigger] q.wanted(id_b, pos as int) && begins(q.maps.string(id_b), w)
                        ==> q.found_at(self, id_b, first as int, last as int),
                forall|id_b: int|
                    #[trigger] q.wanted(id_b, pos as int) && begins(q.maps.string(id_b), w)
                        && rank_of(self.sa@, q.maps.offset(id_b) - 1) < rank ==> has_candidate(
                        out@,
                        id_b,
                        pos as int,
                        m,
                    ),
            decreases last + 1 - rank,
        {
            let ghost before = out@;
            let begin = self.sa[rank] + 1;
            let (id_b, offset) = q.maps.find_occurrence_containing(begin);
            if q.maps.num_ids > 0 && offset == begin && id_b != q.id_a {
                let b_len = q.maps.get_length(id_b);
                let overlap = if pos <= b_len {
                    pos
                } else {
                    b_len
                };
                let inclusion = overlap == a_len || overlap == b_len;
                if b_len <= i32::MAX as usize && overlap >= q.config.thresh as usize && (
                q.config.inclusions || !inclusion) {
                    let c = Candidate {
                        id_b,
                        overlap_a: overlap,
                        overlap_b: overlap,
                        overhang_left_a: (a_len - pos) as i32,
                        debug_str: String::new(),
                    };
                    out.push(c);
                }
            }
            proof {
                assert forall|wanted_b: int|
                    #[trigger] q.wanted(wanted_b, pos as int) && begins(
                        q.maps.string(wanted_b),
                        w,
                    ) && rank_of(self.sa@, q.maps.offset(wanted_b) - 1) < rank
                        + 1 implies has_candidate(out@, wanted_b, pos as int, m) by {
                    q.maps.lemma_string_range(wanted_b);
                    if rank_of(self.sa@, q.maps.offset(wanted_b) - 1) < rank {
                        lemma_has_candidate_extends(out@, before, wanted_b, pos as int, m);
                    } else {
                        q.maps.lemma_offsets_rise(wanted_b, id_b as int);
                        assert(id_b == wanted_b);
                        let at = before.len() as int;
                        assert(is_candidate_of(&out@[at], wanted_b, pos as int, m));
                    }
                }
            }
            rank += 1;
        }
        proof {
            assert forall|id_b: int|
                #[trigger] q.wanted(id_b, pos as int) && begins(
                    q.maps.string(id_b),
                    w,
                ) implies has_candidate(out@, id_b, pos as int, m) by {
            }
        }
    }

    /// Adds a candidate for each place at which the pattern lies within
    /// another stored string as a whole: the ranks from `lower` to `upper`
    /// are those of the suffixes that begin with `w`, which is the pattern
    /// less the symbols at its end that the search left out.
    ///
    /// Every string that is wanted with the end of the pattern at one of
    /// its places, and that holds `w` where the pattern then lies, has its
    /// candidate then.
    fn emit_inclusions(
        &self,
        q: &Query,
        lower: usize,
        upper: usize,
        Ghost(w): Ghost<Seq<u8>>,
        out: &mut Vec<Candidate>,
    )
        requires
            q.ready(self),
            lower <= upper < self.bwt@.len(),
            q.config.inclusions,
            q.config.thresh <= q.pattern@.len(),
            0 < w.len() <= q.pattern@.len(),
            is_match_range(q.maps.text@, self.sa@, lower as int, upper as int, w),
            all_ok(old(out)@, q.id_a, q.config, q.maps),
        ensures
            all_ok(final(out)@, q.id_a, q.config, q.maps),
            extends(final(out)@, old(out)@),
            forall|id_b: int, j: int|
                #[trigger] q.wanted(id_b, j) && j >= q.pattern@.len() && q.lies_at(id_b, j, w)
                    ==> has_candidate(final(out)@, id_b, j, q.pattern@.len() as int),
    {
        let a_len = q.pattern.len();
        let n = self.sa.len();
        let ghost text = q.maps.text@;
        let ghost m = a_len as int;
        proof {
            assert forall|id_b: int, j: int|
                #[trigger] q.wanted(id_b, j) && j >= m && q.lies_at(id_b, j, w) implies q.held_at(
                self,
                id_b,
                j,
                lower as int,
                upper as int,
            ) by {
                q.lemma_held_at(self, id_b, j, w);
            }
        }
        let mut rank = lower;
        while rank <= upper
            invariant
                q.ready(self),
                lower <= rank <= upper + 1,
                upper < n,
                n == self.sa@.len(),
                a_len == q.pattern@.len(),
                m == a_len,
                text == q.maps.text@,
                q.config.inclusions,
                q.config.thresh <= a_len,
                all_ok(out@, q.id_a, q.config, q.maps),
                extends(out@, old(out)@),
                forall|id_b: int, j: int|
                    #[trigger] q.wanted(id_b, j) && j >= m && q.lies_at(id_b, j, w) ==> q.held_at(
                        self,
                        id_b,
                        j,
                        lower as int,
                        upper as int,
                    ),
                forall|id_b: int, j: int|
                    #[trigger] q.wanted(id_b, j) && j >= m && q.lies_at(id_b, j, w) && rank_of(
                        self.sa@,
                        q.maps.offset(id_b) + j - m,
                    ) < rank ==> has_candidate(out@, id_b, j, m),
            decreases upper + 1 - rank,
        {
            let ghost before_out = out@;
            let place = self.sa[rank];
            let (id_b, offset) = q.maps.find_occurrence_containing(place);
            if q.maps.num_ids > 0 && place >= 1 && id_b != q.id_a {
                let b_len = q.maps.get_length(id_b);
                let before = place - offset;
                if b_len <= i32::MAX as usize && before <= b_len && a_len <= b_len - before {
                    let c = Candidate {
                        id_b,
                        overlap_a: a_len,
                        overlap_b: a_len,
                        overhang_left_a: -(before as i32),
                        debug_str: String::new(),
                    };
                    out.push(c);
                }
            }
            proof {
                assert forall|wanted_b: int, j: int|
                    #[trigger] q.wanted(wanted_b, j) && j >= m && q.lies_at(wanted_b, j, w)
                        && rank_of(self.sa@, q.maps.offset(wanted_b) + j - m) < rank
                        + 1 implies has_candidate(out@, wanted_b, j, m) by {
                    if rank_of(self.sa@, q.maps.offset(wanted_b) + j - m) < rank {
                        lemma_has_candidate_extends(out@, before_out, wanted_b, j, m);
                    } else {
                        q.maps.lemma_string_range(wanted_b);
                        q.maps.lemma_holder(wanted_b, place as int, id_b as int);
                        let at = before_out.len() as int;
                        assert(is_candidate_of(&out@[at], wanted_b, j, m));
                    }
                }
            }
            rank += 1;
        }
        proof {
            assert forall|id_b: int, j: int|
                #[trigger] q.wanted(id_b, j) && j >= m && q.lies_at(
                    id_b,
                    j,
                    w,
                ) implies has_candidate(out@, id_b, j, m) by {
            }
        }
    }

    /// Goes on with the search from a place of the pattern.
    ///
    /// `pos` symbols of the pattern, counted from its end, lie before the
    /// place; those from the block `first_block` on were read as `w`, with
    /// `errors` of them taken for other symbols. Within the block `block`
    /// of the pattern the errors may be as many as the blocks that were
    /// done since `first_block`.
    ///
    /// Every overlap that the search is on the way to has its candidate
    /// then.
    fn search_from(
        &self,
        q: &Query,
        first_block: usize,
        block: usize,
        lower: usize,
        upper: usize,
        pos: usize,
        errors: usize,
        Ghost(w): Ghost<Seq<u8>>,
        out: &mut Vec<Candidate>,
    )
        requires
            q.ready(self),
            lower <= upper < self.bwt@.len(),
            first_block <= block < q.blocks(),
            q.ends@[first_block as int] <= pos <= q.pattern@.len(),
            q.config.thresh <= q.pattern@.len(),
            errors <= pos,
            pos < q.pattern@.len() ==> block == q.block_of(pos as int),
            w.len() == pos - q.ends@[first_block as int],
            is_match_range(q.maps.text@, self.sa@, lower as int, upper as int, w),
            all_ok(old(out)@, q.id_a, q.config, q.maps),
        ensures
            all_ok(final(out)@, q.id_a, q.config, q.maps),
            extends(final(out)@, old(out)@),
            forall|id_b: int, j: int|
                #[trigger] q.leads_to(first_block as int, pos as int, errors as int, w, id_b, j)
                    ==> has_candidate(final(out)@, id_b, j, q.pattern@.len() as int),
        decreases q.pattern@.len() - pos,
    {
        let m = q.pattern.len();
        let ghost first = first_block as int;
        if pos > q.ends[first_block] && pos >= q.config.thresh as usize {
            self.emit_at_separator(q, lower, upper, pos, Ghost(w), out);
        }
        proof {
            assert forall|id_b: int|
                #[trigger] q.leads_to(
                    first,
                    pos as int,
                    errors as int,
                    w,
                    id_b,
                    pos as int,
                ) implies has_candidate(out@, id_b, pos as int, m as int) by {
                q.lemma_arrived(first, pos as int, errors as int, w, id_b);
            }
        }
        if pos == m {
            let ghost emitted = out@;
            if q.config.inclusions && pos > q.ends[first_block] {
                self.emit_inclusions(q, lower, upper, Ghost(w), out);
            }
            proof {
                assert forall|id_b: int, j: int|
                    #[trigger] q.leads_to(
                        first,
                        pos as int,
                        errors as int,
                        w,
                        id_b,
                        j,
                    ) implies has_candidate(out@, id_b, j, m as int) by {
                    if j == m {
                        lemma_has_candidate_extends(out@, emitted, id_b, j, m as int);
                    }
                }
            }
            return ;
        }
        let target = q.pattern[m - 1 - pos];
        let next_block = q.block_at(block, pos + 1);
        let allowed = block - first_block;
        proof {
            q.lemma_block_from(0, pos as int);
            q.lemma_block_from(block as int, pos + 1);
        }
        let mut k: usize = 0;
        while k < q.symbols.len()
            invariant
                q.ready(self),
                0 <= k <= q.symbols@.len(),
                m == q.pattern@.len(),
                first == first_block,
                lower <= upper < self.bwt@.len(),
                first_block <= block <= next_block < q.blocks(),
                block == q.block_of(pos as int),
                next_block == q.block_of(pos + 1),
                target == q.pattern_at(pos as int),
                q.ends@[first_block as int] <= pos < m,
                q.config.thresh <= q.pattern@.len(),
                errors <= pos,
                allowed == block - first_block,
                w.len() == pos - q.ends@[first_block as int],
                is_match_range(q.maps.text@, self.sa@, lower as int, upper as int, w),
                all_ok(out@, q.id_a, q.config, q.maps),
                extends(out@, old(out)@),
                forall|id_b: int, j: int|
                    #[trigger] q.leads_to(first, pos as int, errors as int, w, id_b, j) && (j
                        == pos || q.tried(k as int, id_b, j, pos as int)) ==> has_candidate(
                        out@,
                        id_b,
                        j,
                        m as int,
                    ),
            decreases q.symbols@.len() - k,
        {
            let symbol = q.symbols[k];
            let mismatch = symbol != target;
            let ghost before = out@;
            let ghost longer = seq![symbol] + w;
            let ghost mut went = false;
            proof {
                q.lemma_symbol_steps(self, k as int);
                lemma_step(
                    q.maps.text@,
                    self.sa@,
                    self.bwt@,
                    symbol,
                    lower as int,
                    upper as int,
                    w,
                );
            }
            if !mismatch || (errors < allowed && errors < q.max_errors) {
                match self.extend(lower, upper, symbol) {
                    Some((l, u)) => {
                        let e = if mismatch {
                            errors + 1
                        } else {
                            errors
                        };
                        self.search_from(
                            q,
                            first_block,
                            next_block,
                            l,
                            u,
                            pos + 1,
                            e,
                            Ghost(longer),
                            out,
                        );
                        proof {
                            went = true;
                        }
                    },
                    None => {},
                }
            }
            proof {
                assert forall|id_b: int, j: int|
                    #[trigger] q.leads_to(first, pos as int, errors as int, w, id_b, j) && (j
                        == pos || q.tried(k + 1, id_b, j, pos as int)) implies has_candidate(
                    out@,
                    id_b,
                    j,
                    m as int,
                ) by {
                    if j == pos || q.tried(k as int, id_b, j, pos as int) {
                        lemma_has_candidate_extends(out@, before, id_b, j, m as int);
                    } else {
                        q.lemma_on_the_way(self, first, pos as int, errors as int, w, id_b, j);
                    }
                }
            }
            k += 1;
        }
        proof {
            assert forall|id_b: int, j: int|
                #[trigger] q.leads_to(
                    first,
                    pos as int,
                    errors as int,
                    w,
                    id_b,
                    j,
                ) implies has_candidate(out@, id_b, j, m as int) by {
                if j != pos {
                    q.lemma_on_the_way(self, first, pos as int, errors as int, w, id_b, j);
                    let c = q.target_at(id_b, j, pos as int);
                    let i = choose|i: int| 0 <= i < q.symbols@.len() && q.symbols@[i] == c;
                }
            }
        }
    }
}

/// No symbol is larger than the largest.
pub proof fn lemma_max_symbol(symbols: Seq<u8>, k: int)
    requires
        0 <= k < symbols.len(),
    ensures
        symbols[k] <= max_symbol(symbols),
    decreases symbols.len(),
{
    if k < symbols.len() - 1 {
        lemma_max_symbol(symbols.drop_last(), k);
    }
}

/// Where the blocks of the given lengths end, with 0 before the first.
fn block_ends(lengths: &Vec<i32>, total: usize) -> (ends: Vec<usize>)
    requires
        forall|i: int| 0 <= i < lengths@.len() ==> #[trigger] as_ints(lengths@)[i] >= 0,
        sum(as_ints(lengths@)) == total,
    ensures
        ends@.len() == lengths@.len() + 1,
        ends@[0] == 0,
        ends@.last() == total,
        forall|b: int, d: int| 0 <= b <= d < ends@.len() ==> ends@[b] <= ends@[d],
        forall|b: int| 0 <= b < ends@.len() ==> #[trigger] ends@[b] == sum(
            as_ints(lengths@).take(b),
        ),
{
    let ghost numbers = as_ints(lengths@);
    let mut ends: Vec<usize> = Vec::new();
    ends.push(0);
    let mut end: usize = 0;
    let mut b: usize = 0;
    proof {
        lemma_sum_front(numbers, numbers.len() as int);
    }
    while b < lengths.len()
        invariant
            0 <= b <= lengths@.len(),
            numbers == as_ints(lengths@),
            forall|i: int| 0 <= i < numbers.len() ==> #[trigger] numbers[i] >= 0,
            sum(numbers) == total,
            ends@.len() == b + 1,
            ends@[0] == 0,
            end == ends@.last(),
            end == sum(numbers.take(b as int)),
            forall|x: int, y: int| 0 <= x <= y < ends@.len() ==> ends@[x] <= ends@[y],
            forall|x: int| 0 <= x < ends@.len() ==> #[trigger] ends@[x] == sum(numbers.take(x)),
        decreases lengths@.len() - b,
    {
        proof {
            assert(numbers.take(b + 1).drop_last() =~= numbers.take(b as int));
            lemma_sum_front(numbers, b + 1);
        }
        end = end + lengths[b] as usize;
        ends.push(end);
        b += 1;
    }
    proof {
        assert(numbers.take(numbers.len() as int) =~= numbers);
    }
    ends
}

/// The front of a list of numbers that are not negative sums to no more
/// than the list.
proof fn lemma_sum_front(numbers: Seq<int>, front: int)
    requires
        0 <= front <= numbers.len(),
        forall|i: int| 0 <= i < numbers.len() ==> #[trigger] numbers[i] >= 0,
    ensures
        0 <= sum(numbers.take(front)) <= sum(numbers),
    decreases numbers.len() - front,
{
    if front < numbers.len() {
        lemma_sum_front(numbers, front + 1);
        assert(numbers.take(front + 1).drop_last() =~= numbers.take(front));
        lemma_sum_nonnegative(numbers.take(front));
    } else {
        assert(numbers.take(front) =~= numbers);
        lemma_sum_nonnegative(numbers);
    }
}

/// Numbers that are not negative sum to a number that is not negative.
proof fn lemma_sum_nonnegative(numbers: Seq<int>)
    requires
        forall|i: int| 0 <= i < numbers.len() ==> #[trigger] numbers[i] >= 0,
    ensures
        sum(numbers) >= 0,
    decreases numbers.len(),
{
    if numbers.len() > 0 {
        lemma_sum_nonnegative(numbers.drop_last());
    }
}

impl TextIndex {
    /// The candidates of a query: the stored strings whose beginning may
    /// lie over the end of the pattern, and, where inclusions are asked
    /// for, those that may hold the pattern as a whole.
    ///
    /// The pattern is cut into the blocks of the mode. A search begins at
    /// each block and reads the pattern from there, taking symbols for
    /// others as often as blocks are done since its beginning, and never
    /// more often than the error rate allows for the whole pattern.
    /// Wherever what was read begins a stored string, and the pattern
    /// reaches from there at least as far as the threshold asks, that
    /// string is a candidate. A pattern shorter than the threshold has no
    /// candidates, and the query itself is never one.
    ///
    /// No way of laying the query over another string is missed: each one
    /// that is sought, and in which the two differ no more often than the
    /// error rate allows, has its candidate.
    pub fn generate_candidates(
        &self,
        pattern: &[u8],
        config: &Config,
        maps: &Maps,
        id_a: usize,
        mode: &Mode,
    ) -> (candidates: Vec<Candidate>)
        requires
            maps.wf(),
            config.wf(),
            id_a < maps.num_ids,
            pattern@ == maps.string(id_a as int),
            self.wf(maps.text@, config.symbols()),
            pattern@.len() + mode.s() <= i32::MAX,
        ensures
            all_ok(candidates@, id_a, config, maps),
            pattern@.len() < config.thresh ==> candidates@.len() == 0,
            forall|id_b: int, j: int|
                #[trigger] sought(config, maps, id_a as int, id_b, j) && overlap_errors(
                    maps,
                    id_a as int,
                    id_b,
                    j,
                ) <= config.err_rate.allowance(reach(j, pattern@.len() as int))
                    ==> has_candidate(candidates@, id_b, j, pattern@.len() as int),
    {
        let mut out: Vec<Candidate> = Vec::new();
        let m = pattern.len();
        if m < config.thresh as usize {
            return out;
        }
        let s = mode.get_guaranteed_extra_blocks();
        let symbols = config.alphabet();
        proof {
            config.lemma_symbols();
            lemma_block_lengths_fit(mode.s(), m as int, config.err_rate, config.thresh as int);
            lemma_block_lengths(mode.s(), m as int, config.err_rate, config.thresh as int);
            assert forall|k: int| 0 <= k < symbols@.len() implies steps_with(
                self,
                #[trigger] symbols@[k],
            ) by {
                lemma_max_symbol(symbols@, k);
            }
            assert(m * config.err_rate.numerator <= 0x7fff_ffff * 0xffff_ffff)
                by (nonlinear_arith)
                requires
                    0 <= m <= 0x7fff_ffff,
                    0 <= config.err_rate.numerator <= 0xffff_ffff,
            ;
            assert(m * config.err_rate.numerator == config.err_rate.numerator * m)
                by (nonlinear_arith);
            assert(0 <= (config.err_rate.numerator * m) / (config.err_rate.denominator as int)
                <= m) by (nonlinear_arith)
                requires
                    0 <= config.err_rate.numerator < config.err_rate.denominator,
                    0 <= m,
            ;
        }
        let lengths = mode.get_block_lengths(m as i32, config.err_rate, config.thresh);
        let ends = block_ends(&lengths, m);
        let max_errors = ((m as u64) * (config.err_rate.numerator as u64) / (
        config.err_rate.denominator as u64)) as usize;
        let q = Query { pattern, symbols, config, maps, id_a, ends, max_errors };
        let blocks = q.ends.len() - 1;
        let top = self.bwt.len() - 1;
        let mut first_block: usize = 0;
        while first_block < blocks
            invariant
                q.ready(self),
                0 <= first_block <= blocks,
                blocks == q.blocks(),
                top == self.bwt@.len() - 1,
                m == q.pattern@.len(),
                q.config.thresh <= m,
                q.id_a == id_a,
                q.config == config,
                q.maps == maps,
                q.max_errors == config.err_rate.allowance(m as int),
                all_ok(out@, id_a, config, maps),
                forall|id_b: int, j: int|
                    #[trigger] q.wanted(id_b, j) && q.spelled(id_b) && q.begun(
                        first_block as int,
                        id_b,
                        j,
                    ) ==> has_candidate(out@, id_b, j, m as int),
            decreases blocks - first_block,
        {
            let pos = q.ends[first_block];
            let ghost before = out@;
            if pos < m {
                let block = q.block_at(first_block, pos);
                proof {
                    crate::ranks::lemma_all_ranks_match(maps.text@, self.sa@);
                    q.lemma_block_from(first_block as int, pos as int);
                }
                self.search_from(
                    &q,
                    first_block,
                    block,
                    0,
                    top,
                    pos,
                    0,
                    Ghost(Seq::<u8>::empty()),
                    &mut out,
                );
            }
            proof {
                assert forall|id_b: int, j: int|
                    #[trigger] q.wanted(id_b, j) && q.spelled(id_b) && q.begun(
                        first_block + 1,
                        id_b,
                        j,
                    ) implies has_candidate(out@, id_b, j, m as int) by {
                    if q.begun(first_block as int, id_b, j) {
                        lemma_has_candidate_extends(out@, before, id_b, j, m as int);
                    } else {
                        let at = choose|at: int|
                            0 <= at < first_block + 1 && #[trigger] q.admissible(at, id_b, j);
                        assert(maps.string(id_b).subrange(j - pos, j - pos) =~= Seq::<u8>::empty());
                        assert(q.leads_to(
                            first_block as int,
                            pos as int,
                            0,
                            Seq::<u8>::empty(),
                            id_b,
                            j,
                        ));
                    }
                }
            }
            first_block += 1;
        }
        proof {
            assert forall|id_b: int, j: int|
                #[trigger] sought(config, maps, id_a as int, id_b, j) && overlap_errors(
                    maps,
                    id_a as int,
                    id_b,
                    j,
                ) <= config.err_rate.allowance(reach(j, m as int)) implies has_candidate(
                out@,
                id_b,
                j,
                m as int,
            ) by {
                let rate = config.err_rate;
                let over = q.over(j);
                let b = lemma_blocks_cover_budget(
                    mode.s(),
                    m as int,
                    rate,
                    config.thresh as int,
                    over,
                );
                q.lemma_block_of(over - 1, b);
                q.lemma_mismatches_hamming(id_b, j, over);
                assert(rate.allowance(over) <= rate.allowance(m as int)) by (nonlinear_arith)
                    requires
                        0 <= over <= m,
                        rate.numerator >= 0,
                        rate.denominator > 0,
                        rate.allowance(over) == (rate.numerator * over) / (
                        rate.denominator as int),
                        rate.allowance(m as int) == (rate.numerator * m) / (
                        rate.denominator as int),
                ;
                q.lemma_filter(id_b, j);
                assert(q.wanted(id_b, j));
            }
        }
        out
    }
}

} // verus!
