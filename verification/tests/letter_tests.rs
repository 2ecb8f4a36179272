use wordlebot::letter::{Letter, Status};

#[test]
fn new_letter_is_empty_and_unknown() {
    let letter = Letter::new();
    assert_eq!(letter.letter, None);
    assert_eq!(letter.status, Status::Unknown);
}

#[test]
fn set_accepts_only_lowercase_ascii() {
    let mut letter = Letter::new();
    letter.set(Some('q'));
    assert_eq!(letter.letter, Some('q'));

    // uppercase and digits leave the slot unchanged
    letter.set(Some('Q'));
    assert_eq!(letter.letter, Some('q'));
    letter.set(Some('7'));
    assert_eq!(letter.letter, Some('q'));

    // erasing always works and keeps the status
    letter.set(None);
    assert_eq!(letter.letter, None);
    assert_eq!(letter.status, Status::Unknown);
}
