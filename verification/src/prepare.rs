//! Building the corpus from the reads of the input.

use crate::structs::run_config::{
    bdmap_insert, bdmap_new, bdmap_pairs, laid_out, Config, Maps, SEPARATOR, TERMINATOR,
};
use bidir_map::BidirMap;
use vstd::prelude::*;

verus! {

/// The symbol of a position that could not be read.
pub const READ_ERR: u8 = 78;

/// Why no corpus could be built.
#[derive(Debug, PartialEq, Eq, Clone, Copy, Structural)]
pub enum PrepareError {
    /// The sequence of the record with this index holds a separator or a
    /// terminator.
    ReservedSymbol { record: usize },
}

/// Whether a sequence holds a separator or a terminator.
pub open spec fn has_reserved(seq: Seq<u8>) -> bool {
    exists|i: int| 0 <= i < seq.len() && (#[trigger] seq[i] == SEPARATOR || seq[i] == TERMINATOR)
}

/// The symbols of a read that are kept: all of them where unread positions
/// count as symbols, else all but the unread positions.
pub open spec fn kept(seq: Seq<u8>, n_alphabet: bool) -> Seq<u8> {
    if n_alphabet {
        seq
    } else {
        seq.filter(|c: u8| c != READ_ERR)
    }
}

/// How many stored strings a record gives.
pub open spec fn ids_per_record(reversals: bool) -> int {
    if reversals {
        2
    } else {
        1
    }
}

/// The record that the stored string `id` is taken from.
pub open spec fn record_of(reversals: bool, id: int) -> int {
    if reversals {
        id / 2
    } else {
        id
    }
}

/// The stored string `id`. Each record gives the kept symbols of its read
/// from right to left; with reversals it gives a second string right after,
/// the kept symbols from left to right.
pub open spec fn stored(
    records: Seq<(String, Vec<u8>)>,
    n_alphabet: bool,
    reversals: bool,
    id: int,
) -> Seq<u8> {
    let symbols = kept(records[record_of(reversals, id)].1@, n_alphabet);
    if reversals && id % 2 == 1 {
        symbols
    } else {
        symbols.reverse()
    }
}

/// The strings laid end to end, a separator before each.
pub open spec fn corpus_body(strings: Seq<Seq<u8>>) -> Seq<u8>
    decreases strings.len(),
{
    if strings.len() == 0 {
        Seq::empty()
    } else {
        corpus_body(strings.drop_last()).push(SEPARATOR) + strings.last()
    }
}

/// The corpus text of the strings: a separator before each, and the
/// terminator behind the last.
pub open spec fn corpus_text(strings: Seq<Seq<u8>>) -> Seq<u8> {
    corpus_body(strings).push(TERMINATOR)
}

/// Where the string `id` ends in a text without its closing byte.
pub open spec fn body_end(body_len: int, pairs: Seq<(usize, usize)>, id: int) -> int {
    if id == pairs.len() - 1 {
        body_len
    } else {
        pairs[id + 1].1 - 1
    }
}

/// The string `id` of a text without its closing byte.
pub open spec fn body_string(body: Seq<u8>, pairs: Seq<(usize, usize)>, id: int) -> Seq<u8> {
    body.subrange(pairs[id].1 as int, body_end(body.len() as int, pairs, id))
}

/// A laid-out text stays laid out when a separator and a string without
/// reserved symbols are added; the strings before stay what they were, and
/// the new one is the last.
proof fn lemma_lay_out_string(body: Seq<u8>, pairs: Seq<(usize, usize)>, string: Seq<u8>)
    requires
        laid_out(body, pairs),
        !has_reserved(string),
        body.len() + 1 + string.len() <= usize::MAX,
    ensures
        pairs.len() <= body.len(),
        ({
            let grown = body.push(SEPARATOR) + string;
            let more = pairs.push((pairs.len() as usize, (body.len() + 1) as usize));
            &&& laid_out(grown, more)
            &&& body_string(grown, more, pairs.len() as int) == string
            &&& forall|id: int|
                0 <= id < pairs.len() ==> #[trigger] body_string(grown, more, id) == body_string(
                    body,
                    pairs,
                    id,
                )
        }),
{
    lemma_offsets_spread(body, pairs, pairs.len() as int);
    let grown = body.push(SEPARATOR) + string;
    let more = pairs.push((pairs.len() as usize, (body.len() + 1) as usize));
    assert forall|p: int| 0 <= p < grown.len() && #[trigger] grown[p] == SEPARATOR implies exists|
        i: int,
    |
        0 <= i < more.len() && (#[trigger] more[i]).1 == p + 1 by {
        if p < body.len() {
            let i = choose|i: int| 0 <= i < pairs.len() && (#[trigger] pairs[i]).1 == p + 1;
            assert(more[i].1 == p + 1);
        } else if p == body.len() {
            assert(more[pairs.len() as int].1 == p + 1);
        }
    }
    assert forall|p: int| 0 <= p < grown.len() implies #[trigger] grown[p] != TERMINATOR by {
    }
    assert forall|id: int| 0 <= id < pairs.len() implies #[trigger] body_string(grown, more, id)
        == body_string(body, pairs, id) by {
    }
}

/// The first `count` offsets of a laid-out text are at least `count` apart
/// from its start.
proof fn lemma_offsets_spread(body: Seq<u8>, pairs: Seq<(usize, usize)>, count: int)
    requires
        laid_out(body, pairs),
        0 <= count <= pairs.len(),
    ensures
        count > 0 ==> pairs[count - 1].1 >= count,
        count <= body.len(),
    decreases count,
{
    if count > 1 {
        lemma_offsets_spread(body, pairs, count - 1);
    }
    if count > 0 {
        assert(1 <= pairs[count - 1].1 <= body.len());
    }
}

/// The kept symbols of a read, or `None` where the read holds a separator or
/// a terminator.
fn kept_symbols(seq: &Vec<u8>, n_alphabet: bool) -> (symbols: Option<Vec<u8>>)
    ensures
        symbols is None <==> has_reserved(seq@),
        symbols matches Some(v) ==> v@ == kept(seq@, n_alphabet),
{
    let mut symbols: Vec<u8> = Vec::new();
    let mut i: usize = 0;
    while i < seq.len()
        invariant
            0 <= i <= seq.len(),
            symbols@ == kept(seq@.take(i as int), n_alphabet),
            forall|j: int| 0 <= j < i ==> seq@[j] != SEPARATOR && seq@[j] != TERMINATOR,
        decreases seq.len() - i,
    {
        let c = seq[i];
        if c == SEPARATOR || c == TERMINATOR {
            return None;
        }
        proof {
            reveal(Seq::filter);
            assert(seq@.take(i + 1).drop_last() =~= seq@.take(i as int));
        }
        if n_alphabet || c != READ_ERR {
            symbols.push(c);
        }
        i += 1;
    }
    assert(seq@.take(seq.len() as int) =~= seq@);
    Some(symbols)
}

/// The symbols from right to left.
fn reversed(symbols: &Vec<u8>) -> (turned: Vec<u8>)
    ensures
        turned@ == symbols@.reverse(),
{
    let mut turned: Vec<u8> = Vec::new();
    let mut i: usize = symbols.len();
    while i > 0
        invariant
            0 <= i <= symbols.len(),
            turned@.len() == symbols.len() - i,
            forall|j: int| 0 <= j < turned@.len() ==> turned@[j] == symbols@[symbols.len() - 1 - j],
        decreases i,
    {
        i -= 1;
        turned.push(symbols[i]);
    }
    turned
}

/// Adds a separator and the string to the text, and the id with the place
/// where the string begins to the offsets.
fn store_string(
    text: &mut Vec<u8>,
    id2index_bdmap: &mut BidirMap<usize, usize>,
    id: usize,
    string: &Vec<u8>,
)
    requires
        laid_out(old(text)@, bdmap_pairs(*old(id2index_bdmap))),
        id == bdmap_pairs(*old(id2index_bdmap)).len(),
        !has_reserved(string@),
        old(text)@.len() + 1 + string@.len() <= usize::MAX,
    ensures
        final(text)@ == old(text)@.push(SEPARATOR) + string@,
        bdmap_pairs(*final(id2index_bdmap)) == bdmap_pairs(*old(id2index_bdmap)).push(
            (id, (old(text)@.len() + 1) as usize),
        ),
{
    text.push(SEPARATOR);
    let index = text.len();
    proof {
        let pairs = bdmap_pairs(*id2index_bdmap);
        assert forall|i: int| 0 <= i < pairs.len() implies (#[trigger] pairs[i]).0 != id
            && pairs[i].1 != index by {
        }
    }
    bdmap_insert(id2index_bdmap, id, index);
    let mut i: usize = 0;
    while i < string.len()
        invariant
            0 <= i <= string.len(),
            text@ == old(text)@.push(SEPARATOR) + string@.take(i as int),
        decreases string.len() - i,
    {
        text.push(string[i]);
        i += 1;
    }
}

/// The stored strings of the records, in the order of their ids.
pub open spec fn stored_strings(
    records: Seq<(String, Vec<u8>)>,
    n_alphabet: bool,
    reversals: bool,
) -> Seq<Seq<u8>> {
    Seq::new(
        (records.len() * ids_per_record(reversals)) as nat,
        |id: int| stored(records, n_alphabet, reversals, id),
    )
}

/// The body of the first strings is the front of the body of all, and one
/// string more adds a separator and that string.
proof fn lemma_corpus_body_grows(strings: Seq<Seq<u8>>, count: int)
    requires
        0 <= count <= strings.len(),
    ensures
        corpus_body(strings.take(count)).len() <= corpus_body(strings).len(),
        count < strings.len() ==> corpus_body(strings.take(count + 1)) == corpus_body(
            strings.take(count),
        ).push(SEPARATOR) + strings[count],
    decreases strings.len() - count,
{
    if count < strings.len() {
        assert(strings.take(count + 1).drop_last() =~= strings.take(count));
        lemma_corpus_body_grows(strings, count + 1);
    } else {
        assert(strings.take(count) =~= strings);
    }
}

/// The corpus of the records, in their order: the text, the offsets and the
/// names of their stored strings.
///
/// A record whose read holds a separator or a terminator is refused; the
/// error names the first such record.
pub fn prepare_maps(records: &Vec<(String, Vec<u8>)>, config: &Config) -> (result: Result<
    Maps,
    PrepareError,
>)
    requires
        corpus_text(stored_strings(records@, config.n_alphabet, config.reversals)).len()
            <= usize::MAX,
    ensures
        match result {
            Ok(maps) => {
                &&& forall|r: int| 0 <= r < records@.len() ==> !has_reserved(#[trigger] records@[r].1@)
                &&& maps.wf()
                &&& maps.num_ids == records@.len() * ids_per_record(config.reversals)
                &&& maps.text@ == corpus_text(
                    stored_strings(records@, config.n_alphabet, config.reversals),
                )
                &&& forall|id: int|
                    0 <= id < maps.num_ids ==> #[trigger] maps.string(id) == stored(
                        records@,
                        config.n_alphabet,
                        config.reversals,
                        id,
                    )
                &&& forall|id: int|
                    0 <= id < maps.num_ids ==> (#[trigger] maps.id2name_vec@[id])@
                        == records@[record_of(config.reversals, id)].0@
            },
            Err(PrepareError::ReservedSymbol { record }) => {
                &&& record < records@.len()
                &&& has_reserved(records@[record as int].1@)
                &&& forall|r: int| 0 <= r < record ==> !has_reserved(#[trigger] records@[r].1@)
            },
        },
{
    let mut text: Vec<u8> = Vec::new();
    let mut id2name_vec: Vec<String> = Vec::new();
    let mut id2index_bdmap: BidirMap<usize, usize> = bdmap_new();
    let n_alphabet = config.n_alphabet;
    let reversals = config.reversals;
    let ghost strings = stored_strings(records@, n_alphabet, reversals);
    let ghost per = ids_per_record(reversals);
    let mut r: usize = 0;
    while r < records.len()
        invariant
            0 <= r <= records.len(),
            n_alphabet == config.n_alphabet,
            reversals == config.reversals,
            strings == stored_strings(records@, n_alphabet, reversals),
            per == ids_per_record(reversals),
            corpus_text(strings).len() <= usize::MAX,
            forall|q: int| 0 <= q < r ==> !has_reserved(#[trigger] records@[q].1@),
            laid_out(text@, bdmap_pairs(id2index_bdmap)),
            bdmap_pairs(id2index_bdmap).len() == r * per,
            id2name_vec@.len() == r * per,
            text@ == corpus_body(strings.take(r * per)),
            forall|id: int|
                0 <= id < r * per ==> #[trigger] body_string(
                    text@,
                    bdmap_pairs(id2index_bdmap),
                    id,
                ) == strings[id],
            forall|id: int|
                0 <= id < r * per ==> (#[trigger] id2name_vec@[id])@ == records@[record_of(
                    reversals,
                    id,
                )].0@,
        decreases records.len() - r,
    {
        let name = records[r].0.clone();
        let symbols = match kept_symbols(&records[r].1, n_alphabet) {
            Some(symbols) => symbols,
            None => {
                return Err(PrepareError::ReservedSymbol { record: r });
            },
        };
        let turned = reversed(&symbols);
        let id = id2name_vec.len();
        proof {
            assert((r + 1) * per <= records@.len() * per) by (nonlinear_arith)
                requires
                    r + 1 <= records@.len(),
                    per >= 1,
            ;
            lemma_corpus_body_grows(strings, id as int);
            lemma_corpus_body_grows(strings, id + 1);
            lemma_not_reserved_kept(records@[r as int].1@, n_alphabet);
            lemma_lay_out_string(text@, bdmap_pairs(id2index_bdmap), turned@);
        }
        store_string(&mut text, &mut id2index_bdmap, id, &turned);
        id2name_vec.push(name.clone());
        if reversals {
            let id = id2name_vec.len();
            proof {
                lemma_corpus_body_grows(strings, id + 1);
                lemma_lay_out_string(text@, bdmap_pairs(id2index_bdmap), symbols@);
            }
            store_string(&mut text, &mut id2index_bdmap, id, &symbols);
            id2name_vec.push(name);
        }
        r += 1;
    }
    proof {
        assert(strings.take(r * per) =~= strings);
    }
    let ghost body = text@;
    text.push(TERMINATOR);
    let num_ids = id2name_vec.len();
    let maps = Maps { text, id2name_vec, id2index_bdmap, num_ids };
    proof {
        assert forall|id: int| 0 <= id < maps.num_ids implies #[trigger] maps.string(id)
            == stored(records@, n_alphabet, reversals, id) by {
            maps.lemma_string_range(id);
            assert(maps.string(id) =~= body_string(body, maps.offsets(), id));
        }
    }
    Ok(maps)
}

/// The kept symbols of a read without reserved symbols hold none, whichever
/// way they are read.
proof fn lemma_not_reserved_kept(seq: Seq<u8>, n_alphabet: bool)
    requires
        !has_reserved(seq),
    ensures
        !has_reserved(kept(seq, n_alphabet)),
        !has_reserved(kept(seq, n_alphabet).reverse()),
{
    let symbols = kept(seq, n_alphabet);
    assert forall|i: int| 0 <= i < symbols.len() implies symbols[i] != SEPARATOR && symbols[i]
        != TERMINATOR by {
        if !n_alphabet {
            let pred = |c: u8| c != READ_ERR;
            seq.lemma_filter_contains_rev(pred, symbols[i]);
            let j = choose|j: int| 0 <= j < seq.len() && seq[j] == symbols[i];
        }
    }
    let turned = symbols.reverse();
    assert forall|i: int| 0 <= i < turned.len() implies turned[i] != SEPARATOR && turned[i]
        != TERMINATOR by {
    }
}

} // verus!
