use wordlebot::wordle::{create_word_from_string, decode_status, encode_status, Guess, LetterStatus, Word};
use LetterStatus::{Absent, Correct, Misplaced};

#[test]
fn test_encode_status() {
    assert_eq!(encode_status(&[Absent, Absent, Absent, Absent, Absent]), 0);
    assert_eq!(
        encode_status(&[Misplaced, Absent, Absent, Absent, Absent]),
        1
    );
    assert_eq!(
        encode_status(&[Misplaced, Absent, Misplaced, Absent, Absent]),
        10
    );
    assert_eq!(
        encode_status(&[Correct, Correct, Correct, Correct, Correct]),
        242
    );
    assert_eq!(
        encode_status(&[Correct, Correct, Misplaced, Correct, Correct]),
        233
    );
}

#[test]
fn test_decode_status() {
    assert_eq!(decode_status(0), [Absent, Absent, Absent, Absent, Absent]);
    assert_eq!(
        decode_status(1),
        [Misplaced, Absent, Absent, Absent, Absent]
    );
    assert_eq!(
        decode_status(10),
        [Misplaced, Absent, Misplaced, Absent, Absent]
    );
    assert_eq!(
        decode_status(242),
        [Correct, Correct, Correct, Correct, Correct]
    );
    assert_eq!(
        decode_status(233),
        [Correct, Correct, Misplaced, Correct, Correct]
    );
}

#[test]
fn decode_encode_round_trip_all_codes() {
    for code in 0u8..=242 {
        assert_eq!(encode_status(&decode_status(code)), code);
    }
}

#[test]
fn encode_decode_round_trip_samples() {
    let patterns = [
        [Absent, Absent, Absent, Absent, Absent],
        [Correct, Correct, Correct, Correct, Correct],
        [Misplaced, Correct, Absent, Correct, Absent],
        [Correct, Absent, Misplaced, Absent, Correct],
    ];
    for p in patterns {
        assert_eq!(decode_status(encode_status(&p)), p);
    }
}

#[test]
fn wordle_compare_words() {
    let word = create_word_from_string("water");

    let guess = create_word_from_string("slate");
    let expected = [Absent, Absent, Misplaced, Misplaced, Misplaced];
    assert_eq!(word.compare(&guess), expected);

    let guess = create_word_from_string("eerie");
    let expected = [Misplaced, Absent, Misplaced, Absent, Absent];
    assert_eq!(word.compare(&guess), expected);

    let guess = create_word_from_string("eater");
    let expected = [Absent, Correct, Correct, Correct, Correct];
    assert_eq!(word.compare(&guess), expected);

    let word = create_word_from_string("abide");
    let guess = create_word_from_string("speed");
    let expected = [Absent, Absent, Misplaced, Absent, Misplaced];
    assert_eq!(word.compare(&guess), expected);

    let word = create_word_from_string("erase");
    let guess = create_word_from_string("speed");
    let expected = [Misplaced, Absent, Misplaced, Misplaced, Absent];
    assert_eq!(word.compare(&guess), expected);

    let word = create_word_from_string("steal");
    let guess = create_word_from_string("speed");
    let expected = [Correct, Absent, Correct, Absent, Absent];
    assert_eq!(word.compare(&guess), expected);

    let word = create_word_from_string("crepe");
    let guess = create_word_from_string("speed");
    let expected = [Absent, Misplaced, Correct, Misplaced, Absent];
    assert_eq!(word.compare(&guess), expected);
}

#[test]
fn test_is_valid() {
    let guess = Guess::new("slate", [Absent, Correct, Correct, Correct, Correct]);
    assert!(create_word_from_string("plate").is_valid(&guess));
    assert!(!create_word_from_string("water").is_valid(&guess));

    let guess = Guess::new("esses", [Misplaced, Absent, Absent, Absent, Absent]);
    assert!(!create_word_from_string("reede").is_valid(&guess));

    let guess = Guess::new("slate", [Absent, Misplaced, Correct, Absent, Absent]);
    assert!(!create_word_from_string("least").is_valid(&guess));
}

#[test]
fn compare_word_to_itself_is_all_correct() {
    for w in ["slate", "goose", "esses", "crepe"] {
        let word = create_word_from_string(w);
        assert_eq!(word.compare(&word), [Correct; 5]);
        assert_eq!(encode_status(&word.compare(&word)), 242);
    }
}

#[test]
fn word_editing_and_counting() {
    let mut word = Word::new();
    assert_eq!(word.chars, [None; 5]);
    word.set_letter(Some('e'), 0);
    assert_eq!(word.chars[0], Some('e'));

    let goose = create_word_from_string("goose");
    assert_eq!(goose.count_char(&'g'), 1);
    assert_eq!(goose.count_char(&'o'), 2);
    assert_eq!(goose.count_char(&'t'), 0);
}

#[test]
fn guess_status_editing() {
    let mut guess = Guess::empty();
    assert_eq!(guess.status, 0);
    guess.set_letter(Some('a'), 0);
    guess.update_status(Correct, 0);
    assert_eq!(guess.get_status()[0], Correct);
    guess.update_status(Misplaced, 2);
    assert_eq!(guess.get_status(), [Correct, Absent, Misplaced, Absent, Absent]);
    guess.set_status(&[Absent; 5]);
    assert_eq!(guess.status, 0);
    assert_eq!(guess.count_char(&'a'), 1);
}

// The keep-word scenarios: a board row whose letters are only partly typed
// constrains a candidate only at the typed positions, so a word with a
// single marked letter stands for "one letter with known feedback".

#[test]
fn keep_word_correct_letter() {
    // slate with only its 'a' confirmed at position 2
    let mut guess = Guess::empty();
    guess.set_letter(Some('a'), 2);
    guess.update_status(Correct, 2);
    assert!(create_word_from_string("plate").is_valid(&guess));
    assert!(!create_word_from_string("water").is_valid(&guess));
}

#[test]
fn keep_word_incorrect_letter() {
    // slate with only its 'a' marked absent
    let mut guess = Guess::empty();
    guess.set_letter(Some('a'), 2);
    assert!(!create_word_from_string("plate").is_valid(&guess));
    assert!(!create_word_from_string("water").is_valid(&guess));
    assert!(create_word_from_string("songs").is_valid(&guess));
}

#[test]
fn keep_word_incorrect_letter_2() {
    // goose with its first 'o' misplaced and its second 'o' absent
    let mut guess = Guess::empty();
    guess.set_letter(Some('o'), 1);
    guess.set_letter(Some('o'), 2);
    guess.update_status(Misplaced, 1);
    assert!(create_word_from_string("bacon").is_valid(&guess));
    assert!(!create_word_from_string("bloom").is_valid(&guess));
}

#[test]
fn keep_word_misplaced_letter() {
    // bacon with its 'n' confirmed at the end and its 'o' misplaced
    let mut guess = Guess::empty();
    guess.set_letter(Some('o'), 3);
    guess.set_letter(Some('n'), 4);
    guess.update_status(Misplaced, 3);
    guess.update_status(Correct, 4);
    assert!(create_word_from_string("ronin").is_valid(&guess));
    assert!(!create_word_from_string("resin").is_valid(&guess));
}

#[test]
fn keep_word_misplaced_letter_2() {
    // feels with both its middle 'e's misplaced: the secret needs two e's
    let mut guess = Guess::empty();
    guess.set_letter(Some('e'), 1);
    guess.set_letter(Some('e'), 2);
    guess.update_status(Misplaced, 1);
    guess.update_status(Misplaced, 2);
    assert!(create_word_from_string("agree").is_valid(&guess));
    assert!(!create_word_from_string("resin").is_valid(&guess));
    assert!(!create_word_from_string("brake").is_valid(&guess));
}

#[test]
fn keep_word_misplaced_letter_3() {
    // esses with one misplaced 'e' and everything else absent: reede has
    // too many e's and too many letters the feedback rules out
    let guess = Guess::new("esses", [Misplaced, Absent, Absent, Absent, Absent]);
    assert!(!create_word_from_string("reede").is_valid(&guess));
}

#[test]
fn has_letter_at_position() {
    let word = create_word_from_string("slate");
    assert!(word.has_letter_at_position(&'l', 1));
    assert!(!word.has_letter_at_position(&'l', 2));
}
