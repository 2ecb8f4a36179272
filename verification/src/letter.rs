//! A single letter slot of the interactive board: the typed character, if
//! any, together with the feedback status the user has assigned to it.

use vstd::prelude::*;

verus! {

/// The feedback status a board letter can carry. Unlike the comparator's
/// three-valued feedback, a board letter can also still be `Unknown`.
#[derive(Copy, Clone, PartialEq, Eq, Hash, Debug, Structural)]
pub enum Status {
    Unknown,
    Absent,
    Misplaced,
    Correct,
}

/// Whether `c` is a lowercase ASCII letter, the only characters a board
/// slot accepts.
pub open spec fn spec_lowercase_letter(c: char) -> bool {
    'a' <= c && c <= 'z'
}

/// One letter slot of the board.
#[derive(Copy, Clone, Debug, PartialEq, Eq, Structural)]
pub struct Letter {
    pub letter: Option<char>,
    pub status: Status,
}

impl Letter {
    /// An empty slot: nothing typed, status unknown.
    pub fn new() -> (r: Letter)
        ensures
            r.letter is None,
            r.status == Status::Unknown,
    {
        Letter { letter: None, status: Status::Unknown }
    }

    /// Type or erase a character. Only lowercase ASCII letters are
    /// accepted: anything else leaves the slot unchanged. Erasing always
    /// works.
    pub fn set(&mut self, letter: Option<char>)
        ensures
            final (self).status == old(self).status,
            final (self).letter == (match letter {
                Some(c) => if spec_lowercase_letter(c) {
                    Some(c)
                } else {
                    old(self).letter
                },
                None => None::<char>,
            }),
    {
        match letter {
            Some(l) => {
                if 'a' <= l && l <= 'z' {
                    self.letter = Some(l);
                }
            },
            None => {
                self.letter = None;
            },
        }
    }
}

} // verus!
