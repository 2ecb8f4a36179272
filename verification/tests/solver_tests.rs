use wordlebot::solver::Solver;
use wordlebot::wordle::{create_word_from_string, Guess, LetterStatus};
use wordlebot::SolverError;
use LetterStatus::{Absent, Misplaced};

fn test_solver() -> Solver {
    let words = vec![
        create_word_from_string("slate"),
        create_word_from_string("water"),
        create_word_from_string("goose"),
    ];
    Solver::new(words, vec![1, 1, 1]).unwrap()
}

fn answers_solver() -> Solver {
    // slate, plate and water can be answers; penny is guess-only.
    let words = vec![
        create_word_from_string("slate"),
        create_word_from_string("plate"),
        create_word_from_string("water"),
        create_word_from_string("penny"),
    ];
    Solver::new(words, vec![1, 1, 1, 0]).unwrap()
}

#[test]
fn test_mappings_2() {
    let solver = test_solver();
    let expected = [[242, 117, 163], [39, 242, 27], [189, 81, 242]];
    for g in 0..3 {
        for s in 0..3 {
            assert_eq!(solver.get_mapping(g, s), expected[g][s]);
        }
    }
}

#[test]
fn matrix_diagonal_is_perfect_fit() {
    let solver = answers_solver();
    for i in 0..4 {
        assert_eq!(solver.get_mapping(i, i), 242);
    }
}

#[test]
fn test_get_mapping_distribution() {
    let solver = test_solver();

    let dist = solver.get_mapping_distribution(&vec![0], &vec![0, 1, 2]);
    assert_eq!(dist.len(), 1);
    assert_eq!(dist[0].len(), 243);
    for (k, &mass) in dist[0].iter().enumerate() {
        let expected = if k == 117 || k == 163 || k == 242 { 1 } else { 0 };
        assert_eq!(mass, expected, "bucket {}", k);
    }

    let dist = solver.get_mapping_distribution(&vec![0, 1], &vec![0, 1, 2]);
    assert_eq!(dist.len(), 2);
    for (k, &mass) in dist[1].iter().enumerate() {
        let expected = if k == 27 || k == 39 || k == 242 { 1 } else { 0 };
        assert_eq!(mass, expected, "bucket {}", k);
    }
}

#[test]
fn test_get_mapping_distribution_prior() {
    let words = vec![
        create_word_from_string("slate"),
        create_word_from_string("water"),
        create_word_from_string("goose"),
    ];
    let solver = Solver::new(words, vec![1, 2, 3]).unwrap();

    let dist = solver.get_mapping_distribution(&vec![0], &vec![0, 1, 2]);
    assert_eq!(dist.len(), 1);
    for (k, &mass) in dist[0].iter().enumerate() {
        let expected = match k {
            117 => 2,
            163 => 3,
            242 => 1,
            _ => 0,
        };
        assert_eq!(mass, expected, "bucket {}", k);
    }
}

#[test]
fn distribution_mass_is_conserved() {
    let words = vec![
        create_word_from_string("slate"),
        create_word_from_string("water"),
        create_word_from_string("goose"),
    ];
    let solver = Solver::new(words, vec![4, 7, 11]).unwrap();
    for g in 0..3usize {
        let dist = solver.get_mapping_distribution(&vec![g], &vec![0, 1, 2]);
        let total: u64 = dist[0].iter().sum();
        assert_eq!(total, 22);
    }
}

#[test]
fn construction_rejects_bad_input() {
    assert!(matches!(
        Solver::new(vec![], vec![]),
        Err(SolverError::DataError)
    ));
    assert!(matches!(
        Solver::new(vec![create_word_from_string("slate")], vec![1, 2]),
        Err(SolverError::DataError)
    ));
    // a total prior mass beyond the engine's budget is refused
    let words = vec![
        create_word_from_string("slate"),
        create_word_from_string("water"),
    ];
    assert!(matches!(
        Solver::new(words, vec![u64::MAX, u64::MAX]),
        Err(SolverError::DataError)
    ));
}

#[test]
fn remaining_words_narrow_with_feedback() {
    let solver = test_solver();

    // with no guesses, every positive-prior word is possible
    let all = solver.get_remaining_words_idx(&vec![]).unwrap();
    assert_eq!(all, vec![0, 1, 2]);

    // guessing slate and seeing water's pattern leaves exactly water
    let status = create_word_from_string("water").compare(&create_word_from_string("slate"));
    assert_eq!(status, [Absent, Absent, Misplaced, Misplaced, Misplaced]);
    let guesses = vec![Guess::from_word(create_word_from_string("slate"), status)];
    let remaining = solver.get_remaining_words_idx(&guesses).unwrap();
    assert_eq!(remaining, vec![1]);
}

#[test]
fn remaining_words_never_grow() {
    let solver = answers_solver();
    let status = create_word_from_string("water").compare(&create_word_from_string("slate"));
    let mut guesses = vec![Guess::from_word(create_word_from_string("slate"), status)];
    let before = solver.get_remaining_words_idx(&vec![]).unwrap().len();
    let after_one = solver.get_remaining_words_idx(&guesses).unwrap().len();
    assert!(after_one <= before);

    let status2 = create_word_from_string("water").compare(&create_word_from_string("plate"));
    guesses.push(Guess::from_word(create_word_from_string("plate"), status2));
    let after_two = solver.get_remaining_words_idx(&guesses).unwrap().len();
    assert!(after_two <= after_one);
}

#[test]
fn remaining_words_reject_unknown_word() {
    let solver = test_solver();
    let guesses = vec![Guess::new("crumb", [Absent; 5])];
    assert_eq!(
        solver.get_remaining_words_idx(&guesses).unwrap_err(),
        SolverError::UnknownWord
    );
}

#[test]
fn zero_prior_words_are_guessable_but_never_answers() {
    let solver = answers_solver();
    let penny = create_word_from_string("penny");
    assert!(solver.is_valid_guess(&penny));
    let all = solver.get_remaining_words_idx(&vec![]).unwrap();
    assert_eq!(all, vec![0, 1, 2]);
}

#[test]
fn guess_on_empty_candidate_set_is_an_error() {
    let solver = test_solver();
    assert_eq!(
        solver.guess(3, &vec![], 0).unwrap_err(),
        SolverError::EmptyCandidateSet
    );
}

#[test]
fn guess_on_single_candidate_returns_it() {
    let solver = test_solver();
    let water = create_word_from_string("water");
    for n in [1usize, 2, 5, 100] {
        let picked = solver.guess(n, &vec![1], 0).unwrap();
        assert_eq!(picked, vec![water]);
    }
}

#[test]
fn guess_ranks_most_informative_word_first() {
    let solver = answers_solver();
    // slate splits {slate, plate, water} into three singleton groups;
    // penny only splits it in two, so slate must rank above penny.
    let remaining = solver.get_remaining_words_idx(&vec![]).unwrap();
    let ranked = solver.guess(4, &remaining, 0).unwrap();
    assert_eq!(ranked.len(), 4);
    let slate = create_word_from_string("slate");
    let penny = create_word_from_string("penny");
    let slate_pos = ranked.iter().position(|w| *w == slate).unwrap();
    let penny_pos = ranked.iter().position(|w| *w == penny).unwrap();
    assert!(slate_pos < penny_pos);
}

#[test]
fn evaluate_unknown_word_is_an_error() {
    let solver = test_solver();
    let crumb = create_word_from_string("crumb");
    assert_eq!(
        solver
            .evalute_guess(&crumb, &vec![0, 1, 2], None, false)
            .unwrap_err(),
        SolverError::UnknownWord
    );
}

#[test]
fn evaluate_reports_groups_and_real_bits() {
    let solver = answers_solver();
    let remaining = solver.get_remaining_words_idx(&vec![]).unwrap();

    let slate = create_word_from_string("slate");
    let observed = create_word_from_string("water").compare(&slate);
    let eval = solver
        .evalute_guess(&slate, &remaining, Some(observed), false)
        .unwrap();

    assert_eq!(eval.word, slate);
    assert_eq!(eval.groups, 3);
    assert_eq!(eval.max_group_size, 1);
    assert_eq!(eval.n_remaining_before, 3);
    assert_eq!(eval.n_remaining_after, Some(1));
    // three candidates narrowed to one: log2(3) bits, in fixed point
    assert_eq!(eval.real_bits, Some(103872));
    assert!(eval.is_possible);
    assert_eq!(eval.prior, 1);
    assert_eq!(eval.two_level_bits, None);

    // slate splits three candidates into three singleton groups: the
    // weighted entropy is exactly 3 * lg(3)
    assert_eq!(eval.expected_bits, 311616);

    // penny produces only two distinct outcomes over this set, so its
    // entropy is strictly lower
    let penny = create_word_from_string("penny");
    let eval_penny = solver
        .evalute_guess(&penny, &remaining, None, false)
        .unwrap();
    assert_eq!(eval_penny.groups, 2);
    assert_eq!(eval_penny.expected_bits, 180544);
    assert!(eval_penny.expected_bits < eval.expected_bits);
    assert!(!eval_penny.is_possible);
}

#[test]
fn evaluate_with_lookahead_fills_two_level_bits() {
    let solver = answers_solver();
    let remaining = solver.get_remaining_words_idx(&vec![]).unwrap();
    let slate = create_word_from_string("slate");
    let eval = solver.evalute_guess(&slate, &remaining, None, true).unwrap();
    // slate already separates everything: each group is a singleton, so no
    // second guess can add information
    assert_eq!(eval.two_level_bits, Some(eval.expected_bits));

    let penny = create_word_from_string("penny");
    let eval_penny = solver.evalute_guess(&penny, &remaining, None, true).unwrap();
    // after penny there is still a two-word group to split, so the best
    // follow-up adds information
    assert!(eval_penny.two_level_bits.unwrap() > eval_penny.expected_bits);
}

#[test]
fn penalty_biases_ranking_toward_candidates() {
    // aaaaa, bbbbb and ccccc can be answers; abccc is guess-only but splits
    // the candidates into three groups, so it carries the most information.
    let words = vec![
        create_word_from_string("aaaaa"),
        create_word_from_string("bbbbb"),
        create_word_from_string("ccccc"),
        create_word_from_string("abccc"),
    ];
    let solver = Solver::new(words, vec![1, 1, 1, 0]).unwrap();
    let remaining = solver.get_remaining_words_idx(&vec![]).unwrap();
    assert_eq!(remaining, vec![0, 1, 2]);

    // without a penalty the most informative word wins, although it can
    // never be the answer itself
    let first = solver.guess(1, &remaining, 0).unwrap();
    assert_eq!(first, vec![create_word_from_string("abccc")]);

    // a strong penalty flips the ranking toward a plausible answer
    let first = solver.guess(1, &remaining, 500).unwrap();
    assert_eq!(first, vec![create_word_from_string("aaaaa")]);
}
