//! Playing strategies built on the engine: choosing a starting word,
//! two-level lookahead picking, driving a whole game against a known
//! secret, and the counting behind benchmark summaries.

use vstd::prelude::*;

verus! {

use crate::SolverError;
use crate::solver::{Solver, first_index, word_known, PENALTY_MAX, TWO_LEVEL_PENALTY};
use crate::wordle::{Word, Guess, spec_compare, spec_encode};

/// The two-level composite score of suggestion word `w`: 200 times its
/// two-level information, plus a doubled prior bonus when the word is
/// itself a candidate.
pub open spec fn two_level_score(s: Solver, remaining: Seq<usize>, penalty: u64, w: Word) -> int {
    let g = first_index(s.vocab(), w);
    200 * s.two_level_total(g, remaining) + if remaining.contains(g as usize) {
        2 * (penalty as int) * (s.priors_seq()[g] as int) * 65536
    } else {
        0int
    }
}

/// The position of the best suggestion among the first `upto`, scanning in
/// order so that ties go to the earlier suggestion.
pub open spec fn best_suggestion_up_to(
    s: Solver,
    remaining: Seq<usize>,
    penalty: u64,
    sugg: Seq<Word>,
    upto: nat,
) -> int
    decreases upto,
{
    if upto <= 1 {
        0
    } else {
        let prev = best_suggestion_up_to(s, remaining, penalty, sugg, (upto - 1) as nat);
        if two_level_score(s, remaining, penalty, sugg[upto - 1]) > two_level_score(
            s,
            remaining,
            penalty,
            sugg[prev],
        ) {
            upto - 1
        } else {
            prev
        }
    }
}

/// The chosen suggestion position stays inside the list.
proof fn lemma_best_suggestion_bounds(
    s: Solver,
    remaining: Seq<usize>,
    penalty: u64,
    sugg: Seq<Word>,
    upto: nat,
)
    requires
        upto >= 1,
    ensures
        0 <= best_suggestion_up_to(s, remaining, penalty, sugg, upto) < upto,
    decreases upto,
{
    if upto > 1 {
        lemma_best_suggestion_bounds(s, remaining, penalty, sugg, (upto - 1) as nat);
    }
}

/// What the two-level picker returns for a history: among the ten
/// best-ranked single-level guesses (exactly the list a ranking request for
/// ten words yields), the one with the highest composite two-level score,
/// ties going to the better single-level rank.
pub open spec fn two_level_pick_ok(s: Solver, guesses: Seq<Guess>, penalty: u64, w: Word) -> bool {
    exists|sugg: Seq<Word>|
        {
            &&& #[trigger] s.guess_result_ok(sugg, 10, s.remaining_spec(guesses), penalty)
            &&& sugg.len() >= 1
            &&& w == sugg[best_suggestion_up_to(
                s,
                s.remaining_spec(guesses),
                penalty,
                sugg,
                sugg.len(),
            )]
        }
}

/// Picks the suggestion with the best two-level score: the candidate set is
/// resolved from the history, the ten best single-level guesses are
/// evaluated with lookahead, and the one with the highest composite
/// two-level score wins (ties go to the better single-level rank).
pub fn pick_two_level(guesses: &Vec<Guess>, solver: &Solver, penalty: u64) -> (r: Result<
    Word,
    SolverError,
>)
    requires
        solver.wf(),
        penalty <= PENALTY_MAX,
    ensures
        (r is Ok) <==> (solver.all_known(guesses@) && solver.remaining_spec(guesses@).len() >= 1),
        (r matches Ok(w) ==> two_level_pick_ok(*solver, guesses@, penalty, w)),
{
    let remaining = match solver.get_remaining_words_idx(guesses) {
        Ok(r) => r,
        Err(e) => {
            return Err(e);
        },
    };
    proof {
        solver.lemma_remaining_valid(guesses@);
    }
    let suggestions = match solver.guess(10, &remaining, penalty) {
        Ok(s) => s,
        Err(e) => {
            return Err(e);
        },
    };
    let ghost rem = remaining@;

    // Score each suggestion by its two-level information.
    let n_sugg = suggestions.len();
    proof {
        solver.lemma_guess_result_words(suggestions@, 10, rem, penalty);
        assert(n_sugg >= 1);
    }
    let mut scores: Vec<u128> = Vec::new();
    let mut j: usize = 0;
    while j < n_sugg
        invariant
            j <= n_sugg == suggestions@.len(),
            solver.wf(),
            remaining@ == rem,
            solver.valid_candidates(rem),
            penalty <= PENALTY_MAX,
            forall|m: int| 0 <= m < n_sugg ==> word_known(solver.vocab(), #[trigger] suggestions@[m]),
            scores@.len() == j,
            forall|m: int|
                0 <= m < j ==> (#[trigger] scores@[m]) as int == two_level_score(
                    *solver,
                    rem,
                    penalty,
                    suggestions@[m],
                ),
        decreases n_sugg - j,
    {
        let word = suggestions[j];
        let eval = match solver.evalute_guess(&word, &remaining, None, true) {
            Ok(e) => e,
            Err(_) => {
                proof {
                    assert(word_known(solver.vocab(), suggestions@[j as int]));
                }
                return Err(SolverError::UnknownWord);
            },
        };
        let t = match eval.two_level_bits {
            Some(t) => t,
            None => 0,
        };
        proof {
            assert(eval.two_level_bits matches Some(tt) && tt == t);
        }
        proof {
            assert(2 * (penalty as int) * (eval.prior as int) * 65536 <= 2 * 1000000
                * (0xffff_ffff_ffff_ffff as int) * 65536) by (nonlinear_arith)
                requires
                    0 <= penalty <= 1000000,
                    0 <= eval.prior <= 0xffff_ffff_ffff_ffff,
            ;
        }
        let bonus: u128 = if eval.is_possible {
            2 * (penalty as u128) * (eval.prior as u128) * 65536
        } else {
            0
        };
        let score: u128 = 200 * (t as u128) + bonus;
        scores.push(score);
        j = j + 1;
    }

    // Keep the best-scoring suggestion; ties stay with the earlier one.
    let mut best: usize = 0;
    let mut m: usize = 1;
    while m < n_sugg
        invariant
            1 <= m <= n_sugg == suggestions@.len(),
            best < m,
            scores@.len() == n_sugg,
            forall|m2: int|
                0 <= m2 < n_sugg ==> (#[trigger] scores@[m2]) as int == two_level_score(
                    *solver,
                    rem,
                    penalty,
                    suggestions@[m2],
                ),
            best as int == best_suggestion_up_to(*solver, rem, penalty, suggestions@, m as nat),
        decreases n_sugg - m,
    {
        if scores[m] > scores[best] {
            best = m;
        }
        m = m + 1;
    }
    proof {
        lemma_best_suggestion_bounds(*solver, rem, penalty, suggestions@, n_sugg as nat);
    }
    Ok(suggestions[best])
}

/// The word to open the game with: a caller-chosen word if one was given,
/// else the best-ranked guess over the full positive-prior candidate set
/// (with lookahead when `two_level` is set).
pub fn pick_starting_word(word: Option<Word>, solver: &Solver, two_level: bool) -> (r: Result<
    Word,
    SolverError,
>)
    requires
        solver.wf(),
    ensures
        (word matches Some(w) ==> r == Ok::<Word, SolverError>(w)),
        (word is None && !two_level ==> (r matches Ok(w) && w == solver.vocab()[
            solver.best_guess(solver.frequent_idx(), 0)
        ])),
        (word is None && two_level ==> ((r is Ok) <==> solver.remaining_spec(
            Seq::<Guess>::empty(),
        ).len() >= 1)),
        (word is None && two_level ==> (r matches Ok(w) ==> two_level_pick_ok(
            *solver,
            Seq::<Guess>::empty(),
            0,
            w,
        ))),
{
    match word {
        Some(w) => Ok(w),
        None => {
            if two_level {
                let empty: Vec<Guess> = Vec::new();
                pick_two_level(&empty, solver, 0)
            } else {
                let remaining = solver.get_frequent_word_idx();
                proof {
                    solver.lemma_frequent_valid();
                }
                let best = solver.best_guess_idx(&remaining, 0);
                Ok(solver.get_word(best))
            }
        },
    }
}

/// Whether every round after the opener plays the engine's pick for the
/// history so far: the best-ranked guess in single-level mode, the
/// two-level pick otherwise.
pub open spec fn engine_choices_ok(s: Solver, two_level: bool, trace: Seq<Guess>) -> bool {
    forall|j: int|
        1 <= j < trace.len() ==> (if two_level {
            two_level_pick_ok(s, trace.take(j), TWO_LEVEL_PENALTY, (#[trigger] trace[j]).word)
        } else {
            trace[j].word == s.vocab()[s.best_guess(
                s.remaining_spec(trace.take(j)),
                TWO_LEVEL_PENALTY,
            )]
        })
}

/// Whether `guesses` is an honest trace of a game against `secret`: it
/// opens with `start`, and every entry records the feedback that comparing
/// its word against the secret actually produces.
pub open spec fn honest_trace(secret: Word, start: Word, guesses: Seq<Guess>) -> bool {
    &&& (guesses.len() >= 1 ==> guesses[0].word == start)
    &&& (forall|j: int|
        0 <= j < guesses.len() ==> (#[trigger] guesses[j]).status as int == spec_encode(
            spec_compare(secret@, guesses[j].word@),
        ))
}

/// Tries to solve for a known secret word: the starting word is played
/// first, then each round plays the engine's best next guess (or the
/// two-level pick) until the secret is hit or `max_rounds` rounds are used
/// up. Returns the number of rounds used (0 when the secret was not found)
/// together with the full trace of played guesses.
pub fn try_to_solve(
    word: &Word,
    solver: &Solver,
    max_rounds: usize,
    start: Word,
    two_level: bool,
) -> (r: Result<(usize, Vec<Guess>), SolverError>)
    requires
        solver.wf(),
    ensures
        (r matches Ok(p) ==> {
            let steps = p.0;
            let trace = p.1@;
            &&& honest_trace(*word, start, trace)
            &&& engine_choices_ok(*solver, two_level, trace)
            &&& trace.len() >= 1
            &&& (steps >= 1 ==> steps == trace.len() && steps <= (if max_rounds >= 1 {
                max_rounds as int
            } else {
                1
            }) && trace.last().word == *word)
            &&& (steps >= 1 ==> (forall|j: int| 0 <= j < steps - 1 ==> (#[trigger] trace[j]).word != *word))
            &&& (steps == 0 ==> (forall|j: int| 0 <= j < trace.len() ==> (#[trigger] trace[j]).word
                != *word))
            &&& (steps == 0 ==> trace.len() == (if max_rounds >= 1 {
                max_rounds as int
            } else {
                1
            }))
        }),
{
    let mut guesses: Vec<Guess> = Vec::new();
    let status = word.compare(&start);
    guesses.push(Guess::from_word(start, status));
    if &start == word {
        return Ok((1, guesses));
    }
    if max_rounds <= 1 {
        return Ok((0, guesses));
    }

    let mut rounds: usize = 1;
    while rounds < max_rounds
        invariant
            1 <= rounds <= max_rounds,
            solver.wf(),
            guesses@.len() == rounds,
            honest_trace(*word, start, guesses@),
            engine_choices_ok(*solver, two_level, guesses@),
            forall|j: int| 0 <= j < guesses@.len() ==> (#[trigger] guesses@[j]).word != *word,
        decreases max_rounds - rounds,
    {
        let remaining = match solver.get_remaining_words_idx(&guesses) {
            Ok(r) => r,
            Err(e) => {
                return Err(e);
            },
        };
        proof {
            solver.lemma_remaining_valid(guesses@);
        }
        let next: Word = if two_level {
            match pick_two_level(&guesses, solver, TWO_LEVEL_PENALTY) {
                Ok(w) => w,
                Err(e) => {
                    return Err(e);
                },
            }
        } else {
            let best = solver.best_guess_idx(&remaining, TWO_LEVEL_PENALTY);
            solver.get_word(best)
        };

        let ghost pre = guesses@;
        let status = word.compare(&next);
        guesses.push(Guess::from_word(next, status));
        rounds = rounds + 1;
        proof {
            assert(guesses@.take(pre.len() as int) =~= pre);
            assert forall|j: int|
                1 <= j < guesses@.len() implies (if two_level {
                two_level_pick_ok(
                    *solver,
                    guesses@.take(j),
                    TWO_LEVEL_PENALTY,
                    (#[trigger] guesses@[j]).word,
                )
            } else {
                guesses@[j].word == solver.vocab()[solver.best_guess(
                    solver.remaining_spec(guesses@.take(j)),
                    TWO_LEVEL_PENALTY,
                )]
            }) by {
                if j < pre.len() {
                    assert(guesses@.take(j) =~= pre.take(j));
                    assert(guesses@[j] == pre[j]);
                }
            }
        }
        if &next == word {
            return Ok((rounds, guesses));
        }
    }
    Ok((0, guesses))
}

/// How many entries of `steps` equal `v`.
pub open spec fn count_eq(steps: Seq<usize>, v: usize) -> int
    decreases steps.len(),
{
    if steps.len() == 0 {
        0
    } else {
        count_eq(steps.drop_last(), v) + if steps.last() == v {
            1int
        } else {
            0int
        }
    }
}

/// The sum of all entries of `steps`.
pub open spec fn sum_steps(steps: Seq<usize>) -> int
    decreases steps.len(),
{
    if steps.len() == 0 {
        0
    } else {
        sum_steps(steps.drop_last()) + steps.last()
    }
}

/// How many games took exactly `v` rounds (`v == 0` counts the failures).
pub fn count_steps(steps: &Vec<usize>, v: usize) -> (r: usize)
    ensures
        r as int == count_eq(steps@, v),
        r <= steps@.len(),
{
    let mut count: usize = 0;
    let mut i: usize = 0;
    while i < steps.len()
        invariant
            i <= steps@.len(),
            count <= i,
            count as int == count_eq(steps@.take(i as int), v),
        decreases steps@.len() - i,
    {
        proof {
            assert(steps@.take(i + 1).drop_last() =~= steps@.take(i as int));
        }
        if steps[i] == v {
            count = count + 1;
        }
        i = i + 1;
    }
    proof {
        assert(steps@.take(steps@.len() as int) =~= steps@);
    }
    count
}

/// The total number of rounds played over all solved games (failures
/// contribute nothing, since they are recorded as 0).
pub fn total_steps(steps: &Vec<usize>) -> (r: u128)
    ensures
        r as int == sum_steps(steps@),
{
    let mut total: u128 = 0;
    let mut i: usize = 0;
    while i < steps.len()
        invariant
            i <= steps@.len(),
            total as int == sum_steps(steps@.take(i as int)),
            total as int <= i as int * (usize::MAX as int),
        decreases steps@.len() - i,
    {
        proof {
            assert(steps@.take(i + 1).drop_last() =~= steps@.take(i as int));
            let m = usize::MAX as int;
            assert((i as int + 1) * m == i as int * m + m) by (nonlinear_arith);
            assert((i as int + 1) * m <= m * m) by (nonlinear_arith)
                requires
                    0 <= i as int + 1 <= m,
            ;
            assert(m * m <= u64::MAX as int * (u64::MAX as int)) by (nonlinear_arith)
                requires
                    0 <= m <= u64::MAX as int,
            ;
        }
        total = total + steps[i] as u128;
        i = i + 1;
    }
    proof {
        assert(steps@.take(steps@.len() as int) =~= steps@);
    }
    total
}


/// The two-level scores of the twenty best single-level guesses for a
/// history: each suggested word paired with its two-level weighted
/// information, in ranking order. Callers sort or print as they please.
pub fn deep_scores(solver: &Solver, guesses: &Vec<Guess>) -> (r: Result<
    Vec<(Word, u64)>,
    SolverError,
>)
    requires
        solver.wf(),
    ensures
        (r is Ok) <==> (solver.all_known(guesses@) && solver.remaining_spec(guesses@).len() >= 1),
        (r matches Ok(scored) ==> exists|sugg: Seq<Word>|
            {
                &&& #[trigger] solver.guess_result_ok(sugg, 20, solver.remaining_spec(guesses@), 0)
                &&& scored@.len() == sugg.len()
                &&& (forall|j: int|
                    0 <= j < scored@.len() ==> (#[trigger] scored@[j]).0 == sugg[j] && scored@[
                        j
                    ].1 as int == solver.two_level_total(
                        first_index(solver.vocab(), sugg[j]),
                        solver.remaining_spec(guesses@),
                    ))
            }),
{
    let remaining = match solver.get_remaining_words_idx(guesses) {
        Ok(r) => r,
        Err(e) => {
            return Err(e);
        },
    };
    proof {
        solver.lemma_remaining_valid(guesses@);
    }
    let words = match solver.guess(20, &remaining, 0) {
        Ok(w) => w,
        Err(e) => {
            return Err(e);
        },
    };
    let ghost rem = remaining@;
    proof {
        solver.lemma_guess_result_words(words@, 20, rem, 0);
    }

    let mut scored: Vec<(Word, u64)> = Vec::new();
    let mut j: usize = 0;
    while j < words.len()
        invariant
            j <= words@.len(),
            solver.wf(),
            remaining@ == rem,
            rem == solver.remaining_spec(guesses@),
            solver.valid_candidates(rem),
            forall|m: int| 0 <= m < words@.len() ==> word_known(solver.vocab(), #[trigger] words@[m]),
            scored@.len() == j,
            forall|m: int|
                0 <= m < j ==> (#[trigger] scored@[m]).1 as int == solver.two_level_total(
                    first_index(solver.vocab(), scored@[m].0),
                    rem,
                ) && scored@[m].0 == words@[m],
        decreases words@.len() - j,
    {
        let word = words[j];
        let e = match solver.evalute_guess(&word, &remaining, None, true) {
            Ok(e) => e,
            Err(_) => {
                proof {
                    assert(word_known(solver.vocab(), words@[j as int]));
                    assert(false);
                }
                return Err(SolverError::UnknownWord);
            },
        };
        let t = match e.two_level_bits {
            Some(t) => t,
            None => 0,
        };
        scored.push((word, t));
        j = j + 1;
    }
    Ok(scored)
}

} // verus!
