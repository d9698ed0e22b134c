//! The work of a run: one task for each stored string, and the list of the
//! solutions of all tasks in the order of the output.

use crate::index::TextIndex;
use crate::modes::Mode;
use crate::output::{all_named, name_sign, represented, rising, sort_and_dedup};
use crate::search::{has_candidate, is_candidate_of, overlap_errors, reach, sought};
use crate::structs::run_config::{Config, Maps};
use crate::structs::solutions::{Candidate, Solution};
use crate::verification::{
    acceptable, accepted, all_distinct, fits, kept_among, lemma_mirrored, mirrored, paired,
    same_overlap, solution_of, stands_for, verify_all, viewable, within_limits,
};
use vstd::prelude::*;

verus! {

/// Whether the solution is an overlap of the query `id_a`: there is a
/// candidate of the query that is accepted and that the solution stands
/// for, so that its errors are the distance of the two regions that it
/// speaks of.
pub open spec fn is_overlap(s: &Solution, id_a: usize, config: &Config, maps: &Maps) -> bool {
    exists|c: Candidate|
        accepted(&c, id_a as int, config, maps) && #[trigger] stands_for(
            s,
            &c,
            id_a,
            config,
            maps,
        )
}

/// Whether the solution is an overlap of one of the stored strings.
pub open spec fn is_found(s: &Solution, config: &Config, maps: &Maps) -> bool {
    exists|id_a: usize| id_a < maps.num_ids && #[trigger] is_overlap(s, id_a, config, maps)
}

/// Whether the candidate of the query `id_a` is one that the task of the
/// query has to turn into a solution: the distance is counted by places,
/// the candidate is accepted, its region of the query reaches the end of
/// the query, and its target is another string, made of the symbols of the
/// reads.
pub open spec fn findable(c: &Candidate, id_a: usize, config: &Config, maps: &Maps) -> bool {
    let b = maps.string(c.id_b as int);
    &&& !config.edit_distance
    &&& accepted(c, id_a as int, config, maps)
    &&& c.id_b != id_a
    &&& c.spec_a1() + c.overlap_a == maps.string(id_a as int).len()
    &&& forall|i: int| 0 <= i < b.len() ==> config.symbols().contains(#[trigger] b[i])
}

/// Whether all stored strings are made of the symbols of the reads.
pub open spec fn over_alphabet(config: &Config, maps: &Maps) -> bool {
    forall|id: int, i: int|
        0 <= id < maps.num_ids && 0 <= i < maps.string(id).len() ==> config.symbols().contains(
            #[trigger] maps.string(id)[i],
        )
}

/// Whether the candidate of the query `id_a` is one that a run has to show:
/// the distance is counted by places, the query is a stored string, the
/// candidate is accepted, and its target is another string.
pub open spec fn is_due(c: &Candidate, id_a: usize, config: &Config, maps: &Maps) -> bool {
    &&& !config.edit_distance
    &&& id_a < maps.num_ids
    &&& accepted(c, id_a as int, config, maps)
    &&& c.id_b != id_a
}

/// Whether one of the solutions compares equal for the output to a solution
/// that speaks of the overlap of the candidate.
pub open spec fn is_shown(
    c: &Candidate,
    id_a: usize,
    solutions: Seq<Solution>,
    config: &Config,
    maps: &Maps,
) -> bool {
    exists|k: int, t: Solution|
        0 <= k < solutions.len() && same_overlap(&t, c, id_a, config, maps) && #[trigger] name_sign(
            &t,
            &solutions[k],
            maps.id2name_vec@,
        ) == 0
}

/// A candidate that a run has to turn into a solution is among the
/// candidates of a list that holds a candidate for every overlap that is
/// sought and close enough, and the one it finds there is accepted and
/// speaks of the same overlap.
proof fn lemma_findable_is_among(
    c: &Candidate,
    list: Seq<Candidate>,
    id_a: usize,
    config: &Config,
    maps: &Maps,
) -> (i: int)
    requires
        findable(c, id_a, config, maps),
        forall|id_b: int, j: int|
            #[trigger] sought(config, maps, id_a as int, id_b, j) && overlap_errors(
                maps,
                id_a as int,
                id_b,
                j,
            ) <= config.err_rate.allowance(reach(j, maps.string(id_a as int).len() as int))
                ==> has_candidate(list, id_b, j, maps.string(id_a as int).len() as int),
    ensures
        0 <= i < list.len(),
        accepted(&list[i], id_a as int, config, maps),
        forall|s: Solution|
            #[trigger] same_overlap(&s, &list[i], id_a, config, maps) ==> same_overlap(
                &s,
                c,
                id_a,
                config,
                maps,
            ),
{
    reveal(acceptable);
    reveal(solution_of);
    let a = maps.string(id_a as int);
    let j = c.spec_b1() + c.overlap_b;
    let over = reach(j, a.len() as int);
    let id_b = c.id_b as int;
    assert(a.subrange(c.spec_a1(), c.spec_a1() + c.overlap_a) == a.subrange(
        a.len() - over,
        a.len() as int,
    ));
    assert(maps.string(id_b).subrange(c.spec_b1(), c.spec_b1() + c.overlap_b) == maps.string(
        id_b,
    ).subrange(j - over, j));
    assert(sought(config, maps, id_a as int, id_b, j));
    let i = choose|i: int|
        0 <= i < list.len() && is_candidate_of(#[trigger] &list[i], id_b, j, a.len() as int);
    i
}

/// A candidate that a run has to show is spoken of by one of the solutions
/// of a list that holds, for each query, a solution for every candidate
/// that the task of the query has to turn into one: by a solution of its
/// own query where its region reaches the end of the query, and else by a
/// solution of its target.
proof fn lemma_due_is_kept(
    c: &Candidate,
    id_a: usize,
    list: Seq<Solution>,
    config: &Config,
    maps: &Maps,
) -> (k: int)
    requires
        is_due(c, id_a, config, maps),
        over_alphabet(config, maps),
        forall|x: Candidate, id: usize|
            id < maps.num_ids && #[trigger] findable(&x, id, config, maps) ==> kept_among(
                &x,
                list,
                id,
                config,
                maps,
            ),
    ensures
        0 <= k < list.len(),
        same_overlap(&list[k], c, id_a, config, maps),
{
    assert(c.id_b < maps.num_ids && fits(
        c,
        maps.string(id_a as int).len() as int,
        maps.string(c.id_b as int).len() as int,
    )) by {
        reveal(acceptable);
    }
    if c.spec_a1() + c.overlap_a == maps.string(id_a as int).len() {
        assert(findable(c, id_a, config, maps));
        choose|k: int|
            0 <= k < list.len() && same_overlap(#[trigger] &list[k], c, id_a, config, maps)
    } else {
        let other = mirrored(c, id_a);
        lemma_mirrored(c, id_a, config, maps);
        assert(findable(&other, c.id_b, config, maps));
        choose|k: int|
            0 <= k < list.len() && same_overlap(#[trigger] &list[k], &other, c.id_b, config, maps)
    }
}

/// The other string of the read that the string `id` is taken from, where
/// each read is stored twice.
pub open spec fn partner(id: usize) -> int {
    if id % 2 == 0 {
        id + 1
    } else {
        id - 1
    }
}

/// With reversals, where the two strings of a read are the same string, as
/// they are for a read that reads the same from both ends, a candidate that
/// a run has to show has a twin that it has to show too: the same candidate
/// with the other string of that read as its target. The solutions of the
/// two are of the two orientations.
pub proof fn lemma_palindrome_twin(
    c: &Candidate,
    twin: &Candidate,
    id_a: usize,
    config: &Config,
    maps: &Maps,
)
    requires
        config.reversals,
        is_due(c, id_a, config, maps),
        twin.id_b == partner(c.id_b),
        twin.id_b < maps.num_ids,
        twin.id_b != id_a,
        maps.string(twin.id_b as int) == maps.string(c.id_b as int),
        twin.overlap_a == c.overlap_a,
        twin.overlap_b == c.overlap_b,
        twin.overhang_left_a == c.overhang_left_a,
    ensures
        is_due(twin, id_a, config, maps),
        forall|errors: u32, cigar: String|
            (#[trigger] solution_of(
                twin,
                id_a,
                maps.string(id_a as int).len() as int,
                maps.string(twin.id_b as int).len() as int,
                errors,
                cigar,
                true,
            )).orientation != solution_of(
                c,
                id_a,
                maps.string(id_a as int).len() as int,
                maps.string(c.id_b as int).len() as int,
                errors,
                cigar,
                true,
            ).orientation,
{
    reveal(acceptable);
    reveal(solution_of);
}

/// Whether a run can be made: the parameters are in range, the corpus is
/// consistent and comes in pairs where reversals are asked for, and its
/// text can be indexed for the symbols of the reads.
pub open spec fn runnable(config: &Config, maps: &Maps) -> bool {
    &&& config.wf()
    &&& maps.wf()
    &&& paired(config, maps)
    &&& TextIndex::indexable(maps.text@, config.symbols())
}

/// Whether the stored string `id` is short enough for the mode to cut it
/// into blocks.
pub open spec fn short_enough(maps: &Maps, id: int, mode: &Mode) -> bool {
    maps.string(id).len() + mode.s() <= i32::MAX
}

/// The index of the corpus text for the symbols of the reads.
pub fn build_index(config: &Config, maps: &Maps) -> (index: TextIndex)
    requires
        TextIndex::indexable(maps.text@, config.symbols()),
    ensures
        index.wf(maps.text@, config.symbols()),
{
    TextIndex::build(maps.text.as_slice(), config.alphabet())
}

/// One task: the solutions of the query `id_a`, as a set.
///
/// Each solution is an overlap of the query and keeps to the threshold and
/// to the error rate, and no two of them are the same solution. Every
/// candidate that the task has to turn into a solution is spoken of by one
/// of them.
#[inline]
pub fn solve_an_id(config: &Config, maps: &Maps, id_a: usize, index: &TextIndex, mode: &Mode) -> (solutions:
    Vec<Solution>)
    requires
        runnable(config, maps),
        index.wf(maps.text@, config.symbols()),
        id_a < maps.num_ids,
        short_enough(maps, id_a as int, mode),
    ensures
        forall|k: int|
            0 <= k < solutions@.len() ==> is_overlap(
                #[trigger] &solutions@[k],
                id_a,
                config,
                maps,
            ) && within_limits(&solutions@[k], config) && viewable(solutions@[k]),
        all_distinct(solutions@),
        all_named(solutions@, maps.id2name_vec@),
        forall|c: Candidate|
            #[trigger] findable(&c, id_a, config, maps) ==> kept_among(
                &c,
                solutions@,
                id_a,
                config,
                maps,
            ),
{
    let candidates = index.generate_candidates(maps.get_string(id_a), config, maps, id_a, mode);
    let ghost given = candidates@;
    let solutions = verify_all(id_a, candidates, config, maps);
    proof {
        assert forall|c: Candidate| #[trigger] findable(&c, id_a, config, maps) implies kept_among(
            &c,
            solutions@,
            id_a,
            config,
            maps,
        ) by {
            let i = lemma_findable_is_among(&c, given, id_a, config, maps);
            let k = choose|k: int|
                0 <= k < solutions@.len() && same_overlap(
                    #[trigger] &solutions@[k],
                    &given[i],
                    id_a,
                    config,
                    maps,
                );
        }
    }
    solutions
}

/// The solutions of all stored strings in the order of the output, each
/// once.
///
/// The list rises strictly by the order of the output. Each solution is an
/// overlap of one of the stored strings and keeps to the threshold and to
/// the error rate. Where the strings are made of the symbols of the reads
/// and the distance is counted by places, every candidate that would be
/// accepted, of whichever query, is shown by one of the solutions.
pub fn solve(config: &Config, maps: &Maps, mode: &Mode) -> (solutions: Vec<Solution>)
    requires
        runnable(config, maps),
        forall|id: int| 0 <= id < maps.num_ids ==> short_enough(maps, id, mode),
    ensures
        rising(solutions@, maps.id2name_vec@, true),
        forall|k: int|
            0 <= k < solutions@.len() ==> is_found(#[trigger] &solutions@[k], config, maps)
                && within_limits(&solutions@[k], config) && viewable(solutions@[k]),
        all_named(solutions@, maps.id2name_vec@),
        over_alphabet(config, maps) ==> forall|c: Candidate, id_a: usize|
            #[trigger] is_due(&c, id_a, config, maps) ==> is_shown(
                &c,
                id_a,
                solutions@,
                config,
                maps,
            ),
{
    let index = build_index(config, maps);
    let mut complete_solution_list: Vec<Solution> = Vec::new();
    let mut id_a: usize = 0;
    while id_a < maps.num_ids
        invariant
            0 <= id_a <= maps.num_ids,
            runnable(config, maps),
            index.wf(maps.text@, config.symbols()),
            forall|id: int| 0 <= id < maps.num_ids ==> short_enough(maps, id, mode),
            forall|k: int|
                0 <= k < complete_solution_list@.len() ==> is_found(
                    #[trigger] &complete_solution_list@[k],
                    config,
                    maps,
                ) && within_limits(&complete_solution_list@[k], config) && viewable(
                    complete_solution_list@[k],
                ),
            all_named(complete_solution_list@, maps.id2name_vec@),
            forall|c: Candidate, id: usize|
                id < id_a && #[trigger] findable(&c, id, config, maps) ==> kept_among(
                    &c,
                    complete_solution_list@,
                    id,
                    config,
                    maps,
                ),
        decreases maps.num_ids - id_a,
    {
        let mut found = solve_an_id(config, maps, id_a, &index, mode);
        let ghost before = complete_solution_list@;
        let ghost added = found@;
        complete_solution_list.append(&mut found);
        proof {
            assert forall|k: int| 0 <= k < complete_solution_list@.len() implies is_found(
                #[trigger] &complete_solution_list@[k],
                config,
                maps,
            ) && within_limits(&complete_solution_list@[k], config) && viewable(
                complete_solution_list@[k],
            ) && crate::output::named(&complete_solution_list@[k], maps.id2name_vec@) by {
            }
            assert forall|c: Candidate, id: usize|
                id < id_a + 1 && #[trigger] findable(&c, id, config, maps) implies kept_among(
                &c,
                complete_solution_list@,
                id,
                config,
                maps,
            ) by {
                if id < id_a {
                    let k = choose|k: int|
                        0 <= k < before.len() && same_overlap(
                            #[trigger] &before[k],
                            &c,
                            id,
                            config,
                            maps,
                        );
                    assert(complete_solution_list@[k] == before[k]);
                } else {
                    let k = choose|k: int|
                        0 <= k < added.len() && same_overlap(
                            #[trigger] &added[k],
                            &c,
                            id,
                            config,
                            maps,
                        );
                    assert(complete_solution_list@[before.len() + k] == added[k]);
                }
            }
        }
        id_a += 1;
    }
    let ghost all = complete_solution_list@;
    let solutions = sort_and_dedup(complete_solution_list, maps);
    proof {
        assert forall|k: int| 0 <= k < solutions@.len() implies is_found(
            #[trigger] &solutions@[k],
            config,
            maps,
        ) && within_limits(&solutions@[k], config) && viewable(solutions@[k]) by {
            let j = choose|j: int| 0 <= j < all.len() && all[j] == solutions@[k];
        }
        if over_alphabet(config, maps) {
            assert forall|c: Candidate, id: usize|
                #[trigger] is_due(&c, id, config, maps) implies is_shown(
                &c,
                id,
                solutions@,
                config,
                maps,
            ) by {
                let k = lemma_due_is_kept(&c, id, all, config, maps);
                let at = choose|at: int|
                    0 <= at < solutions@.len() && name_sign(
                        &all[k],
                        &#[trigger] solutions@[at],
                        maps.id2name_vec@,
                    ) == 0;
            }
        }
    }
    solutions
}

} // verus!
