//! The interactive session: the board of up to six guesses being edited,
//! the actions that drive it, and the cancel-and-replace discipline for
//! background recomputation.
//!
//! Ranking and lookahead are expensive, so they must not block input. The
//! session keeps a single current generation of work: whenever the guess
//! history changes it bumps the generation and asks the caller (through an
//! `Effect`) to start a fresh computation; a result is applied only if it
//! still carries the current generation, so a superseded computation's
//! result is discarded rather than applied.

use vstd::prelude::*;

verus! {

use crate::SolverError;
use crate::solver::{Solver, GuessEvaluation, word_known};
use crate::wordle::{Guess, Word, LetterStatus, spec_decode, spec_encode};

/// The number of guess rows on the board.
pub const N_ROWS: usize = 6;

/// The number of suggestions the session asks for.
pub const N_SUGGESTIONS: usize = 15;

/// A key press, as the front end hands it to the session.
#[derive(Clone, Copy, Debug, PartialEq, Eq, Structural)]
pub enum Key {
    Esc,
    Left,
    Right,
    Up,
    Down,
    Enter,
    Backspace,
    Tab,
    Char(char),
}

/// An action the session can perform.
pub enum Action {
    Exit,
    MoveLeft,
    MoveRight,
    MoveDown,
    MoveUp,
    Enter,
    EnterChar(char),
    DeleteChar,
    ToggleStatus,
    UpdateGuesses,
    /// A finished background computation: its generation tag and results.
    UpdateSuggestions(u64, Vec<GuessEvaluation>),
}

/// What the session asks its caller to do after an update.
pub enum Effect {
    /// Nothing to do.
    Idle,
    /// Tear the session down.
    Quit,
    /// Cancel any computation still in flight and compute suggestions for
    /// this guess history, tagged with this generation.
    Recompute(Vec<Guess>, u64),
}

/// The action a key press stands for, if any.
pub open spec fn spec_key_action(key: Key) -> Option<Action> {
    match key {
        Key::Esc => Some(Action::Exit),
        Key::Right => Some(Action::MoveRight),
        Key::Left => Some(Action::MoveLeft),
        Key::Down => Some(Action::MoveDown),
        Key::Up => Some(Action::MoveUp),
        Key::Enter => Some(Action::Enter),
        Key::Char(c) => if 'a' <= c && c <= 'z' {
            Some(Action::EnterChar(c))
        } else {
            None
        },
        Key::Backspace => Some(Action::DeleteChar),
        Key::Tab => Some(Action::ToggleStatus),
    }
}

/// Translates a key press into a session action. Characters other than
/// lowercase ASCII letters mean nothing to the board.
pub fn handle_key_event(key: Key) -> (r: Option<Action>)
    ensures
        r == spec_key_action(key),
{
    match key {
        Key::Esc => Some(Action::Exit),
        Key::Right => Some(Action::MoveRight),
        Key::Left => Some(Action::MoveLeft),
        Key::Down => Some(Action::MoveDown),
        Key::Up => Some(Action::MoveUp),
        Key::Enter => Some(Action::Enter),
        Key::Char(c) => if 'a' <= c && c <= 'z' {
            Some(Action::EnterChar(c))
        } else {
            None
        },
        Key::Backspace => Some(Action::DeleteChar),
        Key::Tab => Some(Action::ToggleStatus),
    }
}

/// The next feedback status in the toggle cycle: absent, misplaced,
/// correct, absent again.
pub open spec fn cycled_status(s: LetterStatus) -> LetterStatus {
    match s {
        LetterStatus::Absent => LetterStatus::Misplaced,
        LetterStatus::Misplaced => LetterStatus::Correct,
        LetterStatus::Correct => LetterStatus::Absent,
    }
}

/// Whether a guess is the blank row: no letters typed, all-zero status.
pub open spec fn is_blank_guess(g: Guess) -> bool {
    &&& g.word@ == Seq::new(5, |i: int| None::<char>)
    &&& g.status == 0
}

/// Whether every slot of a guess's word is typed.
pub open spec fn fully_typed(g: Guess) -> bool {
    forall|i: int| 0 <= i < 5 ==> (#[trigger] g.word@[i]) is Some
}

/// The length of the leading run of board rows whose words the vocabulary
/// knows, stopping at `upto`.
pub open spec fn valid_prefix_len(s: Solver, guesses: Seq<Guess>, upto: nat) -> int
    decreases upto,
{
    if upto == 0 {
        0
    } else {
        let prev = valid_prefix_len(s, guesses, (upto - 1) as nat);
        if prev == upto - 1 && word_known(s.vocab(), guesses[upto - 1].word) {
            upto as int
        } else {
            prev
        }
    }
}

/// The fully typed guesses of the board's valid prefix, in order: the
/// history the engine is asked about.
pub open spec fn complete_prefix(s: Solver, guesses: Seq<Guess>, upto: nat) -> Seq<Guess>
    decreases upto,
{
    if upto == 0 {
        Seq::empty()
    } else {
        complete_prefix(s, guesses, (upto - 1) as nat) + if upto
            <= valid_prefix_len(s, guesses, 6) && fully_typed(guesses[upto - 1]) {
            seq![guesses[upto - 1]]
        } else {
            Seq::<Guess>::empty()
        }
    }
}

/// The interactive session state: the board being edited, the cursor, and
/// the engine results the front end displays.
pub struct App {
    pub exit: bool,
    pub two_level: bool,
    pub guesses: [Guess; 6],
    pub cached_guesses: [Guess; 6],
    pub selected_word: usize,
    pub selected_letter: usize,
    pub remaining_words: Vec<usize>,
    pub suggestions: Vec<GuessEvaluation>,
    pub evaluations: Vec<GuessEvaluation>,
    pub generation: u64,
}

impl App {
    /// The session's own invariant: the cursor stays on the board.
    pub open spec fn wf(self) -> bool {
        &&& self.selected_word < 6
        &&& self.selected_letter < 5
    }

    /// The generation the next recompute request will carry.
    pub open spec fn next_generation(self) -> u64 {
        if self.generation < u64::MAX {
            (self.generation + 1) as u64
        } else {
            u64::MAX
        }
    }

    /// A fresh session: an empty board, the full positive-prior candidate
    /// set, and a first recompute request for the empty history.
    pub fn init(two_level: bool, solver: &Solver) -> (r: (App, Effect))
        requires
            solver.wf(),
        ensures
            r.0.wf(),
            !r.0.exit,
            r.0.two_level == two_level,
            r.0.remaining_words@ == solver.frequent_idx(),
            r.0.generation == 1,
            forall|i: int| 0 <= i < 6 ==> is_blank_guess(#[trigger] r.0.guesses@[i]),
            (r.1 matches Effect::Recompute(h, gen) && h@.len() == 0 && gen == 1),
    {
        let remaining_words = solver.get_frequent_word_idx();
        let blank = Guess::empty();
        let app = App {
            exit: false,
            two_level,
            guesses: [blank, blank, blank, blank, blank, blank],
            cached_guesses: [blank, blank, blank, blank, blank, blank],
            selected_word: 0,
            selected_letter: 0,
            remaining_words,
            suggestions: Vec::new(),
            evaluations: Vec::new(),
            generation: 1,
        };
        let history: Vec<Guess> = Vec::new();
        (app, Effect::Recompute(history, 1))
    }

    /// Move the cursor one column right, staying on the board.
    fn move_right(&mut self)
        requires
            old(self).wf(),
        ensures
            final (self).wf(),
            *final (self) == (App { selected_letter: final (self).selected_letter, ..*old(self) }),
            final (self).selected_letter == (if old(self).selected_letter < 4 {
                old(self).selected_letter + 1
            } else {
                old(self).selected_letter as int
            }),
    {
        if self.selected_letter < 4 {
            self.selected_letter = self.selected_letter + 1;
        }
    }

    /// Move the cursor one column left, staying on the board.
    fn move_left(&mut self)
        requires
            old(self).wf(),
        ensures
            final (self).wf(),
            *final (self) == (App { selected_letter: final (self).selected_letter, ..*old(self) }),
            final (self).selected_letter == (if old(self).selected_letter > 0 {
                (old(self).selected_letter - 1) as usize
            } else {
                0
            }),
    {
        if self.selected_letter > 0 {
            self.selected_letter = self.selected_letter - 1;
        }
    }

    /// Move the cursor one row down, staying on the board.
    fn move_down(&mut self)
        requires
            old(self).wf(),
        ensures
            final (self).wf(),
            *final (self) == (App { selected_word: final (self).selected_word, ..*old(self) }),
            final (self).selected_word == (if old(self).selected_word < 5 {
                old(self).selected_word + 1
            } else {
                old(self).selected_word as int
            }),
    {
        if self.selected_word < 5 {
            self.selected_word = self.selected_word + 1;
        }
    }

    /// Move the cursor one row up, staying on the board.
    fn move_up(&mut self)
        requires
            old(self).wf(),
        ensures
            final (self).wf(),
            *final (self) == (App { selected_word: final (self).selected_word, ..*old(self) }),
            final (self).selected_word == (if old(self).selected_word > 0 {
                (old(self).selected_word - 1) as usize
            } else {
                0
            }),
    {
        if self.selected_word > 0 {
            self.selected_word = self.selected_word - 1;
        }
    }

    /// Type or erase the letter under the cursor; erasing also marks the
    /// slot `Absent` so stale feedback cannot linger.
    fn set_letter(&mut self, letter: Option<char>)
        requires
            old(self).wf(),
        ensures
            final (self).wf(),
            *final (self) == (App { guesses: final (self).guesses, ..*old(self) }),
            final (self).guesses@.len() == 6,
            forall|i: int|
                0 <= i < 6 && i != old(self).selected_word ==> final (self).guesses@[i] == old(
                    self,
                ).guesses@[i],
            ({
                let w = old(self).selected_word as int;
                let l = old(self).selected_letter as int;
                &&& final (self).guesses@[w].word@ == old(self).guesses@[w].word@.update(l, letter)
                &&& (letter is Some ==> final (self).guesses@[w].status == old(
                    self,
                ).guesses@[w].status)
                &&& (letter is None ==> final (self).guesses@[w].status as int == spec_encode(
                    spec_decode(old(self).guesses@[w].status as int).update(
                        l,
                        LetterStatus::Absent,
                    ),
                ))
            }),
    {
        let w = self.selected_word;
        let mut g = self.guesses[w];
        g.set_letter(letter, self.selected_letter);
        if letter.is_none() {
            g.update_status(LetterStatus::Absent, self.selected_letter);
        }
        self.guesses[w] = g;
    }

    /// Cycle the feedback status of the letter under the cursor, if one has
    /// been typed: absent, misplaced, correct, absent again.
    fn toggle_status(&mut self) -> (changed: bool)
        requires
            old(self).wf(),
        ensures
            final (self).wf(),
            *final (self) == (App { guesses: final (self).guesses, ..*old(self) }),
            final (self).guesses@.len() == 6,
            forall|i: int|
                0 <= i < 6 && i != old(self).selected_word ==> final (self).guesses@[i] == old(
                    self,
                ).guesses@[i],
            !changed ==> final (self).guesses == old(self).guesses,
            ({
                let w = old(self).selected_word as int;
                let l = old(self).selected_letter as int;
                &&& changed == (old(self).guesses@[w].word@[l] is Some)
                &&& (changed ==> final (self).guesses@[w].word == old(self).guesses@[w].word)
                &&& (changed ==> final (self).guesses@[w].status as int == spec_encode(
                    spec_decode(old(self).guesses@[w].status as int).update(
                        l,
                        cycled_status(spec_decode(old(self).guesses@[w].status as int)[l]),
                    ),
                ))
            }),
    {
        let w = self.selected_word;
        let g = self.guesses[w];
        match g.word.chars[self.selected_letter] {
            None => false,
            Some(_) => {
                let current = g.get_status();
                let new = match current[self.selected_letter] {
                    LetterStatus::Absent => LetterStatus::Misplaced,
                    LetterStatus::Misplaced => LetterStatus::Correct,
                    LetterStatus::Correct => LetterStatus::Absent,
                };
                let mut g2 = g;
                g2.update_status(new, self.selected_letter);
                self.guesses[w] = g2;
                true
            },
        }
    }
}


/// The board as the engine sees it: the known-word prefix kept, everything
/// after the first unknown word blanked out.
pub open spec fn padded_board(s: Solver, guesses: Seq<Guess>) -> Seq<Guess> {
    Seq::new(
        6,
        |m: int|
            if m < valid_prefix_len(s, guesses, 6) {
                guesses[m]
            } else {
                blank_guess()
            },
    )
}

/// The blank board row.
pub open spec fn blank_guess() -> Guess {
    Guess { word: Word { chars: [None, None, None, None, None] }, status: 0 }
}

/// The valid prefix is a prefix: it is bounded, its words are known, and
/// once it stops growing it never grows again.
pub proof fn lemma_valid_prefix_props(s: Solver, guesses: Seq<Guess>, upto: nat)
    ensures
        0 <= valid_prefix_len(s, guesses, upto) <= upto,
        forall|m: int|
            0 <= m < valid_prefix_len(s, guesses, upto) ==> word_known(
                s.vocab(),
                (#[trigger] guesses[m]).word,
            ),
    decreases upto,
{
    if upto > 0 {
        lemma_valid_prefix_props(s, guesses, (upto - 1) as nat);
    }
}

/// The complete history is bounded by the board and all its words are
/// known to the vocabulary.
pub proof fn lemma_complete_prefix_props(s: Solver, guesses: Seq<Guess>, upto: nat)
    requires
        upto <= 6,
    ensures
        complete_prefix(s, guesses, upto).len() <= upto,
        forall|j: int|
            0 <= j < complete_prefix(s, guesses, upto).len() ==> word_known(
                s.vocab(),
                (#[trigger] complete_prefix(s, guesses, upto)[j]).word,
            ),
    decreases upto,
{
    if upto > 0 {
        lemma_complete_prefix_props(s, guesses, (upto - 1) as nat);
        lemma_valid_prefix_props(s, guesses, 6);
        let prev = complete_prefix(s, guesses, (upto - 1) as nat);
        let cur = complete_prefix(s, guesses, upto);
        assert forall|j: int|
            0 <= j < cur.len() implies word_known(s.vocab(), (#[trigger] cur[j]).word) by {
            if j < prev.len() {
                assert(cur[j] == prev[j]);
            } else {
                assert(cur[j] == guesses[upto - 1]);
            }
        }
    }
}

/// Whether two boards hold the same six rows.
fn boards_equal(a: &[Guess; 6], b: &[Guess; 6]) -> (r: bool)
    ensures
        r == (a@ == b@),
{
    let mut m: usize = 0;
    while m < 6
        invariant
            m <= 6,
            forall|j: int| 0 <= j < m ==> a@[j] == b@[j],
        decreases 6 - m,
    {
        if !(a[m] == b[m]) {
            proof {
                assert(a@[m as int] != b@[m as int]);
            }
            return false;
        }
        m = m + 1;
    }
    proof {
        assert(a@ =~= b@);
    }
    true
}

/// Whether every slot of the word is typed.
fn word_fully_typed(w: &Word) -> (r: bool)
    ensures
        r == fully_typed(Guess { word: *w, status: 0 }),
{
    let mut i: usize = 0;
    while i < 5
        invariant
            i <= 5,
            forall|j: int| 0 <= j < i ==> (#[trigger] w@[j]) is Some,
        decreases 5 - i,
    {
        match w.chars[i] {
            None => {
                proof {
                    assert(w@[i as int] is None);
                }
                return false;
            },
            Some(_) => {},
        }
        i = i + 1;
    }
    true
}

/// The board-recheck step, relating the session before it (`pre`) to the
/// session after (`post`) and the effect that came out: when the
/// engine-visible board is unchanged since the last check nothing happens;
/// otherwise the cache, the candidate set and the per-guess evaluations are
/// recomputed and a recompute request carrying the freshly bumped
/// generation supersedes any in-flight computation.
pub open spec fn guesses_refresh_ok(s: Solver, pre: App, post: App, r: Effect) -> bool {
    &&& post.guesses == pre.guesses
    &&& post.exit == pre.exit
    &&& post.two_level == pre.two_level
    &&& post.selected_word == pre.selected_word
    &&& post.selected_letter == pre.selected_letter
    &&& post.suggestions == pre.suggestions
    &&& (padded_board(s, pre.guesses@) == pre.cached_guesses@ ==> post == pre && (r is Idle))
    &&& (padded_board(s, pre.guesses@) != pre.cached_guesses@ ==> {
        let complete = complete_prefix(s, pre.guesses@, 6);
        &&& post.cached_guesses@ == padded_board(s, pre.guesses@)
        &&& post.remaining_words@ == s.remaining_spec(complete)
        &&& post.generation == pre.next_generation()
        &&& (r matches Effect::Recompute(h, gen) && h@ == complete && gen == post.generation)
        &&& post.evaluations@.len() == complete.len()
        &&& (forall|j: int|
            0 <= j < complete.len() ==> s.evaluation_ok(
                #[trigger] post.evaluations@[j],
                complete[j].word,
                s.remaining_spec(complete.take(j)),
                Some(spec_decode(complete[j].status as int)),
                false,
            ))
    })
}

/// The board edit that typing or erasing a letter performs: the cursor's
/// slot receives `letter` (erasing also marks it absent), the cursor moves
/// right after typing and left after erasing, and nothing else changes.
pub open spec fn letter_edit_ok(pre: App, mid: App, letter: Option<char>) -> bool {
    let w = pre.selected_word as int;
    let l = pre.selected_letter as int;
    &&& mid.guesses@.len() == 6
    &&& (forall|i: int| 0 <= i < 6 && i != w ==> mid.guesses@[i] == pre.guesses@[i])
    &&& mid.guesses@[w].word@ == pre.guesses@[w].word@.update(l, letter)
    &&& (letter is Some ==> mid.guesses@[w].status == pre.guesses@[w].status)
    &&& (letter is None ==> mid.guesses@[w].status as int == spec_encode(
        spec_decode(pre.guesses@[w].status as int).update(l, LetterStatus::Absent),
    ))
    &&& mid.selected_word == pre.selected_word
    &&& mid.selected_letter as int == (match letter {
        Some(_) => if pre.selected_letter < 4 {
            pre.selected_letter + 1
        } else {
            pre.selected_letter as int
        },
        None => if pre.selected_letter > 0 {
            pre.selected_letter - 1
        } else {
            0int
        },
    })
    &&& mid.cached_guesses == pre.cached_guesses
    &&& mid.exit == pre.exit
    &&& mid.two_level == pre.two_level
    &&& mid.remaining_words == pre.remaining_words
    &&& mid.suggestions == pre.suggestions
    &&& mid.evaluations == pre.evaluations
    &&& mid.generation == pre.generation
}

/// The board edit that cycling the cursor slot's status performs: the
/// cursor's word keeps its letters, its status cycles at the cursor column,
/// and nothing else changes.
pub open spec fn toggle_edit_ok(pre: App, mid: App) -> bool {
    let w = pre.selected_word as int;
    let l = pre.selected_letter as int;
    &&& mid.guesses@.len() == 6
    &&& (forall|i: int| 0 <= i < 6 && i != w ==> mid.guesses@[i] == pre.guesses@[i])
    &&& mid.guesses@[w].word == pre.guesses@[w].word
    &&& mid.guesses@[w].status as int == spec_encode(
        spec_decode(pre.guesses@[w].status as int).update(
            l,
            cycled_status(spec_decode(pre.guesses@[w].status as int)[l]),
        ),
    )
    &&& mid == (App { guesses: mid.guesses, ..pre })
}

impl App {
    /// Rechecks the board against the engine. When the usable history (the
    /// known-word prefix) has not changed since the last check, nothing
    /// happens. When it has, the candidate set and the per-guess
    /// evaluations are recomputed, the generation is bumped, and the caller
    /// is asked to recompute suggestions for the new history -- implicitly
    /// cancelling whatever was still in flight.
    pub fn update_guesses(&mut self, solver: &Solver) -> (r: Effect)
        requires
            old(self).wf(),
            solver.wf(),
        ensures
            final (self).wf(),
            guesses_refresh_ok(*solver, *old(self), *final (self), r),
    {
        let ghost s = *solver;
        let ghost board = self.guesses@;

        // The known-word prefix of the board, blanked after the first
        // unknown word.
        let blank = Guess::empty();
        proof {
            assert(blank == blank_guess()) by {
                assert(blank.word@ =~= blank_guess().word@);
                assert(blank.word.chars =~= blank_guess().word.chars);
            }
        }
        let mut tmp: [Guess; 6] = [blank, blank, blank, blank, blank, blank];
        let mut vp: usize = 0;
        let mut m: usize = 0;
        let mut valid = true;
        proof {
            lemma_valid_prefix_props(s, board, 6);
        }
        while m < 6
            invariant
                m <= 6,
                s == *solver,
                self.guesses@ == board,
                solver.wf(),
                valid <==> valid_prefix_len(s, board, m as nat) == m,
                vp as int == valid_prefix_len(s, board, m as nat),
                valid_prefix_len(s, board, 6) >= valid_prefix_len(s, board, m as nat),
                (!valid ==> valid_prefix_len(s, board, 6) == vp),
                tmp@.len() == 6,
                forall|j: int|
                    0 <= j < m ==> tmp@[j] == (if j < valid_prefix_len(s, board, m as nat) {
                        board[j]
                    } else {
                        blank_guess()
                    }),
                forall|j: int| m <= j < 6 ==> tmp@[j] == blank_guess(),
            decreases 6 - m,
        {
            proof {
                lemma_valid_prefix_props(s, board, m as nat);
                lemma_valid_prefix_props(s, board, (m + 1) as nat);
            }
            let row = self.guesses[m];
            proof {
                assert(row == board[m as int]);
            }
            let known = solver.is_valid_guess(&row.word);
            if valid && known {
                tmp[m] = row;
                vp = m + 1;
                proof {
                    assert(word_known(s.vocab(), board[m as int].word));
                    assert(valid_prefix_len(s, board, (m + 1) as nat) == m + 1);
                    lemma_valid_prefix_mono(s, board, (m + 1) as nat, 6);
                }
            } else {
                if valid {
                    proof {
                        assert(valid_prefix_len(s, board, (m + 1) as nat) == m as int);
                    }
                }
                valid = false;
                proof {
                    assert(valid_prefix_len(s, board, (m + 1) as nat) < m + 1);
                    lemma_valid_prefix_stable(s, board, (m + 1) as nat, 6);
                }
            }
            m = m + 1;
        }
        proof {
            assert(tmp@ =~= padded_board(s, board));
        }

        if boards_equal(&tmp, &self.cached_guesses) {
            return Effect::Idle;
        }
        self.cached_guesses = tmp;

        // The usable history: the fully typed guesses of the valid prefix.
        let mut complete: Vec<Guess> = Vec::new();
        let mut m2: usize = 0;
        while m2 < 6
            invariant
                m2 <= 6,
                s == *solver,
                self.guesses@ == board,
                vp as int == valid_prefix_len(s, board, 6),
                complete@ == complete_prefix(s, board, m2 as nat),
            decreases 6 - m2,
        {
            if m2 < vp && word_fully_typed(&self.guesses[m2].word) {
                complete.push(self.guesses[m2]);
            }
            m2 = m2 + 1;
        }
        proof {
            lemma_complete_prefix_props(s, board, 6);
        }

        // The candidate set the history leaves possible.
        let remaining = match solver.get_remaining_words_idx(&complete) {
            Ok(r) => r,
            Err(_) => {
                proof {
                    assert(false);
                }
                return Effect::Idle;
            },
        };
        self.remaining_words = remaining;

        // Evaluate each played guess against what was known before it.
        let mut evals: Vec<GuessEvaluation> = Vec::new();
        let mut hist: Vec<Guess> = Vec::new();
        let mut j: usize = 0;
        while j < complete.len()
            invariant
                j <= complete@.len(),
                s == *solver,
                solver.wf(),
                complete@ == complete_prefix(s, board, 6),
                forall|j2: int|
                    0 <= j2 < complete@.len() ==> word_known(
                        solver.vocab(),
                        (#[trigger] complete@[j2]).word,
                    ),
                hist@ == complete@.take(j as int),
                evals@.len() == j,
                forall|j2: int|
                    0 <= j2 < j ==> solver.evaluation_ok(
                        #[trigger] evals@[j2],
                        complete@[j2].word,
                        solver.remaining_spec(complete@.take(j2)),
                        Some(spec_decode(complete@[j2].status as int)),
                        false,
                    ),
            decreases complete@.len() - j,
        {
            let rem_j = match solver.get_remaining_words_idx(&hist) {
                Ok(r) => r,
                Err(_) => {
                    proof {
                        assert forall|m3: int|
                            0 <= m3 < hist@.len() implies word_known(
                            solver.vocab(),
                            (#[trigger] hist@[m3]).word,
                        ) by {
                            assert(hist@[m3] == complete@[m3]);
                        }
                        assert(false);
                    }
                    return Effect::Idle;
                },
            };
            proof {
                solver.lemma_remaining_valid(hist@);
            }
            let g = complete[j];
            let st = crate::wordle::decode_status(g.status);
            let e = match solver.evalute_guess(&g.word, &rem_j, Some(st), false) {
                Ok(e) => e,
                Err(_) => {
                    proof {
                        assert(word_known(solver.vocab(), complete@[j as int].word));
                        assert(false);
                    }
                    return Effect::Idle;
                },
            };
            evals.push(e);
            hist.push(g);
            proof {
                assert(hist@ =~= complete@.take(j + 1));
            }
            j = j + 1;
        }
        proof {
            assert(complete@.take(complete@.len() as int) =~= complete@);
        }
        self.evaluations = evals;

        // Supersede any in-flight computation: bump the generation and ask
        // for fresh suggestions.
        if self.generation < u64::MAX {
            self.generation = self.generation + 1;
        }
        Effect::Recompute(complete, self.generation)
    }
}

/// A longer look at the board never shortens the valid prefix.
pub proof fn lemma_valid_prefix_mono(s: Solver, guesses: Seq<Guess>, m1: nat, m2: nat)
    requires
        m1 <= m2,
    ensures
        valid_prefix_len(s, guesses, m1) <= valid_prefix_len(s, guesses, m2),
    decreases m2 - m1,
{
    if m2 > m1 {
        lemma_valid_prefix_mono(s, guesses, m1, (m2 - 1) as nat);
        lemma_valid_prefix_props(s, guesses, (m2 - 1) as nat);
    }
}

/// Once the valid prefix has stopped short of the board edge, looking
/// further along the board does not grow it.
pub proof fn lemma_valid_prefix_stable(s: Solver, guesses: Seq<Guess>, m: nat, upto: nat)
    requires
        m <= upto,
        valid_prefix_len(s, guesses, m) < m,
    ensures
        valid_prefix_len(s, guesses, upto) == valid_prefix_len(s, guesses, m),
    decreases upto - m,
{
    if upto > m {
        lemma_valid_prefix_props(s, guesses, (upto - 1) as nat);
        lemma_valid_prefix_stable(s, guesses, m, (upto - 1) as nat);
    }
}


impl App {
    /// Applies one action to the session. Every recompute request this
    /// returns carries a freshly bumped generation, and a finished
    /// computation's results are applied only when their generation is
    /// still the current one -- anything older is discarded.
    pub fn update(&mut self, solver: &Solver, action: Action) -> (r: Effect)
        requires
            old(self).wf(),
            solver.wf(),
        ensures
            final (self).wf(),
            final (self).two_level == old(self).two_level,
            ((action is Exit) ==> final (self).exit && (r is Quit)),
            (!(action is Exit) ==> final (self).exit == old(self).exit && !(r is Quit)),
            (match action {
                Action::UpdateSuggestions(gen, evals) => {
                    &&& (gen == old(self).generation ==> final (self).suggestions == evals)
                    &&& (gen != old(self).generation ==> final (self).suggestions == old(self).suggestions)
                    &&& final (self).generation == old(self).generation
                    &&& (r is Idle)
                },
                _ => final (self).suggestions == old(self).suggestions,
            }),
            (r matches Effect::Recompute(h, gen) ==> gen == final (self).generation
                && final (self).generation == old(self).next_generation()
                && h@ == complete_prefix(*solver, final (self).guesses@, 6)
                && final (self).remaining_words@ == solver.remaining_spec(h@)),
            ((action is MoveLeft) ==> *final (self) == (App {
                selected_letter: if old(self).selected_letter > 0 {
                    (old(self).selected_letter - 1) as usize
                } else {
                    0
                },
                ..*old(self)
            })),
            ((action is MoveRight) ==> *final (self) == (App {
                selected_letter: if old(self).selected_letter < 4 {
                    (old(self).selected_letter + 1) as usize
                } else {
                    old(self).selected_letter
                },
                ..*old(self)
            })),
            ((action is MoveUp) ==> *final (self) == (App {
                selected_word: if old(self).selected_word > 0 {
                    (old(self).selected_word - 1) as usize
                } else {
                    0
                },
                ..*old(self)
            })),
            ((action is MoveDown) ==> *final (self) == (App {
                selected_word: if old(self).selected_word < 5 {
                    (old(self).selected_word + 1) as usize
                } else {
                    old(self).selected_word
                },
                ..*old(self)
            })),
            ((action is Enter) ==> *final (self) == (App {
                selected_word: if old(self).selected_word < 5 {
                    (old(self).selected_word + 1) as usize
                } else {
                    old(self).selected_word
                },
                selected_letter: 0,
                ..*old(self)
            })),
            (match action {
                Action::EnterChar(c) => exists|mid: App|
                    letter_edit_ok(*old(self), mid, Some(c)) && #[trigger] guesses_refresh_ok(
                        *solver,
                        mid,
                        *final (self),
                        r,
                    ),
                Action::DeleteChar => exists|mid: App|
                    letter_edit_ok(*old(self), mid, None) && #[trigger] guesses_refresh_ok(
                        *solver,
                        mid,
                        *final (self),
                        r,
                    ),
                Action::ToggleStatus => if old(self).guesses@[old(self).selected_word as int].word@[
                    old(self).selected_letter as int
                ] is Some {
                    exists|mid: App|
                        toggle_edit_ok(*old(self), mid) && #[trigger] guesses_refresh_ok(
                            *solver,
                            mid,
                            *final (self),
                            r,
                        )
                } else {
                    *final (self) == *old(self) && (r is Idle)
                },
                Action::UpdateGuesses => guesses_refresh_ok(*solver, *old(self), *final (self), r),
                _ => true,
            }),
    {
        match action {
            Action::Exit => {
                self.exit = true;
                Effect::Quit
            },
            Action::MoveUp => {
                self.move_up();
                Effect::Idle
            },
            Action::MoveDown => {
                self.move_down();
                Effect::Idle
            },
            Action::MoveLeft => {
                self.move_left();
                Effect::Idle
            },
            Action::MoveRight => {
                self.move_right();
                Effect::Idle
            },
            Action::Enter => {
                self.move_down();
                self.selected_letter = 0;
                Effect::Idle
            },
            Action::EnterChar(c) => {
                self.set_letter(Some(c));
                self.move_right();
                let ghost mid = *self;
                let effect = self.update_guesses(solver);
                proof {
                    assert(letter_edit_ok(*old(self), mid, Some(c)));
                    assert(guesses_refresh_ok(*solver, mid, *self, effect));
                }
                effect
            },
            Action::DeleteChar => {
                self.set_letter(None);
                self.move_left();
                let ghost mid = *self;
                let effect = self.update_guesses(solver);
                proof {
                    assert(letter_edit_ok(*old(self), mid, None));
                    assert(guesses_refresh_ok(*solver, mid, *self, effect));
                }
                effect
            },
            Action::ToggleStatus => {
                let changed = self.toggle_status();
                if changed {
                    let ghost mid = *self;
                    let effect = self.update_guesses(solver);
                    proof {
                        assert(toggle_edit_ok(*old(self), mid));
                        assert(guesses_refresh_ok(*solver, mid, *self, effect));
                    }
                    effect
                } else {
                    Effect::Idle
                }
            },
            Action::UpdateGuesses => self.update_guesses(solver),
            Action::UpdateSuggestions(gen, evals) => {
                if gen == self.generation {
                    self.suggestions = evals;
                }
                Effect::Idle
            },
        }
    }
}


/// The refreshed suggestion list for a guess history: the best-ranked
/// guesses against the candidate set the history leaves, each evaluated
/// (with lookahead when `two_level` is set). The prior bias is off for the
/// very first guess and a small positive constant afterwards.
/// The prior bias the session uses: off for the very first guess, a small
/// positive constant afterwards.
pub open spec fn suggestion_penalty(guesses: Seq<Guess>) -> u64 {
    if guesses.len() == 0 {
        0u64
    } else {
        crate::solver::TWO_LEVEL_PENALTY
    }
}

pub fn get_suggestions(solver: &Solver, guesses: &Vec<Guess>, two_level: bool) -> (r: Result<
    Vec<GuessEvaluation>,
    SolverError,
>)
    requires
        solver.wf(),
    ensures
        (r is Ok) <==> (solver.all_known(guesses@) && solver.remaining_spec(guesses@).len() >= 1),
        (r matches Ok(evals) ==> exists|sugg: Seq<Word>|
            {
                &&& #[trigger] solver.guess_result_ok(
                    sugg,
                    N_SUGGESTIONS as int,
                    solver.remaining_spec(guesses@),
                    suggestion_penalty(guesses@),
                )
                &&& sugg.len() == evals@.len()
                &&& evals@.len() >= 1
                &&& (forall|j: int|
                    0 <= j < evals@.len() ==> solver.evaluation_ok(
                        #[trigger] evals@[j],
                        sugg[j],
                        solver.remaining_spec(guesses@),
                        None,
                        two_level,
                    ))
            }),
{
    let remaining = match solver.get_remaining_words_idx(guesses) {
        Ok(r) => r,
        Err(e) => {
            return Err(e);
        },
    };
    proof {
        solver.lemma_remaining_valid(guesses@);
    }
    let penalty: u64 = if guesses.len() == 0 {
        0
    } else {
        crate::solver::TWO_LEVEL_PENALTY
    };
    let suggestions = match solver.guess(N_SUGGESTIONS, &remaining, penalty) {
        Ok(s) => s,
        Err(e) => {
            return Err(e);
        },
    };
    let ghost rem = remaining@;
    proof {
        solver.lemma_guess_result_words(suggestions@, N_SUGGESTIONS as int, rem, penalty);
    }

    let mut evals: Vec<GuessEvaluation> = Vec::new();
    let mut j: usize = 0;
    while j < suggestions.len()
        invariant
            j <= suggestions@.len(),
            solver.wf(),
            remaining@ == rem,
            rem == solver.remaining_spec(guesses@),
            solver.valid_candidates(rem),
            forall|m: int|
                0 <= m < suggestions@.len() ==> word_known(
                    solver.vocab(),
                    #[trigger] suggestions@[m],
                ),
            evals@.len() == j,
            forall|m: int|
                0 <= m < j ==> solver.evaluation_ok(
                    #[trigger] evals@[m],
                    suggestions@[m],
                    rem,
                    None,
                    two_level,
                ),
        decreases suggestions@.len() - j,
    {
        let word = suggestions[j];
        let e = match solver.evalute_guess(&word, &remaining, None, two_level) {
            Ok(e) => e,
            Err(_) => {
                proof {
                    assert(word_known(solver.vocab(), suggestions@[j as int]));
                    assert(false);
                }
                return Err(SolverError::UnknownWord);
            },
        };
        evals.push(e);
        j = j + 1;
    }
    proof {
        assert(suggestions@.len() == evals@.len());
        assert(penalty == suggestion_penalty(guesses@));
        assert(solver.guess_result_ok(
            suggestions@,
            N_SUGGESTIONS as int,
            solver.remaining_spec(guesses@),
            suggestion_penalty(guesses@),
        ));
    }
    Ok(evals)
}

} // verus!
