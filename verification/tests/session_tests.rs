use wordlebot::session::{get_suggestions, handle_key_event, Action, App, Effect, Key};
use wordlebot::solver::Solver;
use wordlebot::strategy::{
    count_steps, pick_starting_word, pick_two_level, total_steps, try_to_solve,
};
use wordlebot::wordle::create_word_from_string;

fn answers_solver() -> Solver {
    let words = vec![
        create_word_from_string("slate"),
        create_word_from_string("plate"),
        create_word_from_string("water"),
        create_word_from_string("penny"),
    ];
    Solver::new(words, vec![1, 1, 1, 0]).unwrap()
}

#[test]
fn keys_map_to_actions() {
    assert!(matches!(handle_key_event(Key::Esc), Some(Action::Exit)));
    assert!(matches!(
        handle_key_event(Key::Char('q')),
        Some(Action::EnterChar('q'))
    ));
    assert!(matches!(handle_key_event(Key::Char('Q')), None));
    assert!(matches!(handle_key_event(Key::Char('1')), None));
    assert!(matches!(
        handle_key_event(Key::Backspace),
        Some(Action::DeleteChar)
    ));
}

#[test]
fn init_requests_a_first_computation() {
    let solver = answers_solver();
    let (app, effect) = App::init(false, &solver);
    assert!(!app.exit);
    assert_eq!(app.generation, 1);
    assert_eq!(app.remaining_words, vec![0, 1, 2]);
    match effect {
        Effect::Recompute(history, generation) => {
            assert!(history.is_empty());
            assert_eq!(generation, 1);
        },
        _ => panic!("expected a recompute request"),
    }
}

#[test]
fn stale_results_are_discarded() {
    let solver = answers_solver();
    let (mut app, _) = App::init(false, &solver);
    let fresh = get_suggestions(&solver, &vec![], false).unwrap();
    let n_fresh = fresh.len();

    // a result carrying the current generation is applied
    let effect = app.update(&solver, Action::UpdateSuggestions(1, fresh));
    assert!(matches!(effect, Effect::Idle));
    assert_eq!(app.suggestions.len(), n_fresh);

    // a result from a superseded generation is dropped
    let stale = get_suggestions(&solver, &vec![], true).unwrap();
    let effect = app.update(&solver, Action::UpdateSuggestions(7, stale));
    assert!(matches!(effect, Effect::Idle));
    assert_eq!(app.suggestions.len(), n_fresh);
}

#[test]
fn typing_a_word_triggers_a_recompute() {
    let solver = answers_solver();
    let (mut app, _) = App::init(false, &solver);
    for c in ['s', 'l', 'a', 't'] {
        let effect = app.update(&solver, Action::EnterChar(c));
        assert!(matches!(effect, Effect::Idle));
    }
    let effect = app.update(&solver, Action::EnterChar('e'));
    match effect {
        Effect::Recompute(history, generation) => {
            assert_eq!(history.len(), 1);
            assert_eq!(history[0].word, create_word_from_string("slate"));
            assert_eq!(generation, 2);
            assert_eq!(app.generation, 2);
        },
        _ => panic!("expected a recompute request after a full word"),
    }
    // typing the same board again must not trigger another recompute
    let effect = app.update(&solver, Action::UpdateGuesses);
    assert!(matches!(effect, Effect::Idle));
}

#[test]
fn escape_quits() {
    let solver = answers_solver();
    let (mut app, _) = App::init(false, &solver);
    let effect = app.update(&solver, Action::Exit);
    assert!(matches!(effect, Effect::Quit));
    assert!(app.exit);
}

#[test]
fn cursor_stays_on_the_board() {
    let solver = answers_solver();
    let (mut app, _) = App::init(false, &solver);
    for _ in 0..10 {
        app.update(&solver, Action::MoveRight);
    }
    assert_eq!(app.selected_letter, 4);
    for _ in 0..10 {
        app.update(&solver, Action::MoveDown);
    }
    assert_eq!(app.selected_word, 5);
    for _ in 0..10 {
        app.update(&solver, Action::MoveUp);
    }
    assert_eq!(app.selected_word, 0);
}

#[test]
fn suggestions_cover_the_vocabulary_at_most() {
    let solver = answers_solver();
    let suggestions = get_suggestions(&solver, &vec![], false).unwrap();
    assert_eq!(suggestions.len(), 4);
    assert!(suggestions.iter().all(|e| e.two_level_bits.is_none()));
}

#[test]
fn solves_a_small_game_in_two_rounds() {
    let solver = answers_solver();
    let secret = create_word_from_string("water");
    let start = create_word_from_string("slate");
    let (steps, trace) = try_to_solve(&secret, &solver, 6, start, false).unwrap();
    assert_eq!(steps, 2);
    assert_eq!(trace.len(), 2);
    assert_eq!(trace[0].word, start);
    assert_eq!(trace[1].word, secret);
}

#[test]
fn solves_with_lookahead_too() {
    let solver = answers_solver();
    let secret = create_word_from_string("plate");
    let start = create_word_from_string("slate");
    let (steps, trace) = try_to_solve(&secret, &solver, 6, start, true).unwrap();
    assert!(steps >= 1);
    assert_eq!(trace.last().unwrap().word, secret);
}

#[test]
fn starting_word_can_be_forced() {
    let solver = answers_solver();
    let forced = create_word_from_string("goose");
    assert_eq!(
        pick_starting_word(Some(forced), &solver, false).unwrap(),
        forced
    );
    // without a forced word, the opener comes from the vocabulary
    let opener = pick_starting_word(None, &solver, false).unwrap();
    assert!(solver.is_valid_guess(&opener));
}

#[test]
fn two_level_pick_returns_a_vocabulary_word() {
    let solver = answers_solver();
    let picked = pick_two_level(&vec![], &solver, 1).unwrap();
    assert!(solver.is_valid_guess(&picked));
}

#[test]
fn benchmark_counting() {
    let steps = vec![0usize, 3, 2, 3, 0, 4, 3];
    assert_eq!(count_steps(&steps, 0), 2);
    assert_eq!(count_steps(&steps, 3), 3);
    assert_eq!(count_steps(&steps, 2), 1);
    assert_eq!(count_steps(&steps, 5), 0);
    assert_eq!(total_steps(&steps), 15);
}
