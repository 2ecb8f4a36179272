//! The word model and the letter-feedback codec.
//!
//! A `Word` is five optional characters; an unset slot stands for a letter
//! that has not been typed yet. Comparing a guess against a secret word
//! yields five `LetterStatus` values, which are packed into a single byte
//! (a status code) by base-3 encoding.

use vstd::prelude::*;

verus! {

use vstd::std_specs::iter::IteratorSpec;

broadcast use vstd::string::axiom_spec_iter, vstd::string::next_postcondition;

/// The feedback for one letter of a guess.
#[derive(Copy, Clone, Debug, PartialEq, Eq, Structural)]
pub enum LetterStatus {
    Absent,
    Misplaced,
    Correct,
}

/// The load-bearing ordinal of a letter status: it is the base-3 digit used
/// by the status-code encoding.
pub open spec fn ord_of(s: LetterStatus) -> int {
    match s {
        LetterStatus::Absent => 0,
        LetterStatus::Misplaced => 1,
        LetterStatus::Correct => 2,
    }
}

/// The status whose ordinal is `v` (`v` is taken modulo nothing: values
/// other than 0 and 1 give `Correct`).
pub open spec fn status_of(v: int) -> LetterStatus {
    if v == 0 {
        LetterStatus::Absent
    } else if v == 1 {
        LetterStatus::Misplaced
    } else {
        LetterStatus::Correct
    }
}

/// The base-3 encoding of a five-status sequence.
pub open spec fn spec_encode(s: Seq<LetterStatus>) -> int
    recommends
        s.len() == 5,
{
    ord_of(s[0]) + 3 * ord_of(s[1]) + 9 * ord_of(s[2]) + 27 * ord_of(s[3]) + 81 * ord_of(s[4])
}

/// The five statuses recovered from a status code by repeated div/mod 3.
pub open spec fn spec_decode(c: int) -> Seq<LetterStatus> {
    seq![
        status_of(c % 3),
        status_of(c / 3 % 3),
        status_of(c / 9 % 3),
        status_of(c / 27 % 3),
        status_of(c / 81 % 3),
    ]
}

/// Every five-status sequence encodes into the byte range [0, 242].
pub proof fn lemma_encode_bounds(s: Seq<LetterStatus>)
    requires
        s.len() == 5,
    ensures
        0 <= spec_encode(s) <= 242,
{
}

/// Decoding is the exact inverse of encoding: every valid status sequence
/// round-trips through its status code.
pub proof fn lemma_decode_encode(s: Seq<LetterStatus>)
    requires
        s.len() == 5,
    ensures
        spec_decode(spec_encode(s)) =~= s,
{
    let c = spec_encode(s);
    assert(c % 3 == ord_of(s[0]) && c / 3 % 3 == ord_of(s[1]) && c / 9 % 3 == ord_of(s[2])
        && c / 27 % 3 == ord_of(s[3]) && c / 81 % 3 == ord_of(s[4])) by (nonlinear_arith)
        requires
            c == ord_of(s[0]) + 3 * ord_of(s[1]) + 9 * ord_of(s[2]) + 27 * ord_of(s[3]) + 81 * ord_of(s[4]),
            0 <= ord_of(s[0]) <= 2,
            0 <= ord_of(s[1]) <= 2,
            0 <= ord_of(s[2]) <= 2,
            0 <= ord_of(s[3]) <= 2,
            0 <= ord_of(s[4]) <= 2,
    ;
}

/// A word of the game: five optional characters. An unset slot stands for a
/// letter that has not been typed yet.
#[derive(Clone, Copy, Debug)]
pub struct Word {
    pub chars: [Option<char>; 5],
}

impl View for Word {
    type V = Seq<Option<char>>;

    open spec fn view(&self) -> Seq<Option<char>> {
        self.chars@
    }
}

/// Equality of two optional characters.
pub fn opt_char_eq(a: Option<char>, b: Option<char>) -> (r: bool)
    ensures
        r == (a == b),
{
    match (a, b) {
        (None, None) => true,
        (Some(x), Some(y)) => x == y,
        _ => false,
    }
}

impl PartialEq for Word {
    fn eq(&self, other: &Word) -> (r: bool) {
        let r = opt_char_eq(self.chars[0], other.chars[0]) && opt_char_eq(
            self.chars[1],
            other.chars[1],
        ) && opt_char_eq(self.chars[2], other.chars[2]) && opt_char_eq(
            self.chars[3],
            other.chars[3],
        ) && opt_char_eq(self.chars[4], other.chars[4]);
        proof {
            if r {
                assert(self.chars =~= other.chars);
            }
        }
        r
    }
}

impl vstd::std_specs::cmp::PartialEqSpecImpl for Word {
    open spec fn obeys_eq_spec() -> bool {
        true
    }

    open spec fn eq_spec(&self, other: &Word) -> bool {
        *self == *other
    }
}

/// How many slots of `chars` hold the character `c`.
pub open spec fn spec_count_char(chars: Seq<Option<char>>, c: char) -> int
    decreases chars.len(),
{
    if chars.len() == 0 {
        0
    } else {
        spec_count_char(chars.drop_last(), c) + if chars.last() == Some(c) {
            1int
        } else {
            0int
        }
    }
}

impl Word {
    /// Create a new word with empty letters.
    pub fn new() -> (r: Word)
        ensures
            r@ =~= seq![None::<char>, None::<char>, None::<char>, None::<char>, None::<char>],
    {
        Word { chars: [None; 5] }
    }

    /// Set the letter at a position of the word.
    pub fn set_letter(&mut self, letter: Option<char>, position: usize)
        requires
            position < 5,
        ensures
            final (self)@ == old(self)@.update(position as int, letter),
    {
        self.chars[position] = letter;
    }

    /// Counts the occurrences of a character in the word.
    pub fn count_char(&self, letter: &char) -> (r: usize)
        ensures
            r as int == spec_count_char(self@, *letter),
    {
        let mut count: usize = 0;
        let mut i: usize = 0;
        while i < 5
            invariant
                i <= 5,
                count <= i,
                count as int == spec_count_char(self@.take(i as int), *letter),
            decreases 5 - i,
        {
            proof {
                assert(self@.take(i + 1).drop_last() =~= self@.take(i as int));
            }
            match self.chars[i] {
                Some(c) => {
                    if c == *letter {
                        count = count + 1;
                    }
                },
                None => {},
            }
            i = i + 1;
        }
        proof {
            assert(self@.take(5) =~= self@);
        }
        count
    }

    /// Whether the word holds the character `letter` at `position`.
    pub fn has_letter_at_position(&self, letter: &char, position: usize) -> (r: bool)
        requires
            position < 5,
        ensures
            r == (self@[position as int] == Some(*letter)),
    {
        match self.chars[position] {
            Some(c) => c == *letter,
            None => false,
        }
    }
}

/// The positions below `n` where the guess differs from the secret, in
/// increasing order. These are the positions the second comparison pass
/// still has to account for.
pub open spec fn rem_positions_up_to(
    secret: Seq<Option<char>>,
    guess: Seq<Option<char>>,
    n: nat,
) -> Seq<usize>
    decreases n,
{
    if n == 0 {
        Seq::empty()
    } else {
        rem_positions_up_to(secret, guess, (n - 1) as nat) + if guess[n - 1] != secret[n - 1] {
            seq![(n - 1) as usize]
        } else {
            Seq::<usize>::empty()
        }
    }
}

/// The positions where the guess misses the secret, in increasing order.
pub open spec fn rem_positions(secret: Seq<Option<char>>, guess: Seq<Option<char>>) -> Seq<usize> {
    rem_positions_up_to(secret, guess, 5)
}

pub proof fn lemma_rem_positions_props(
    secret: Seq<Option<char>>,
    guess: Seq<Option<char>>,
    n: nat,
)
    requires
        n <= 5,
    ensures
        forall|k: int|
            0 <= k < rem_positions_up_to(secret, guess, n).len() ==> (rem_positions_up_to(
                secret,
                guess,
                n,
            )[k] as int) < n,
        forall|i: usize|
            rem_positions_up_to(secret, guess, n).contains(i) <==> ((i as int) < n && guess[i as int]
                != secret[i as int]),
    decreases n,
{
    if n > 0 {
        lemma_rem_positions_props(secret, guess, (n - 1) as nat);
        let prev = rem_positions_up_to(secret, guess, (n - 1) as nat);
        let cur = rem_positions_up_to(secret, guess, n);
        assert forall|i: usize|
            cur.contains(i) <==> ((i as int) < n && guess[i as int] != secret[i as int]) by {
            if (i as int) < n && guess[i as int] != secret[i as int] {
                if (i as int) < n - 1 {
                    assert(prev.contains(i));
                    let k = choose|k: int| 0 <= k < prev.len() && prev[k] == i;
                    assert(cur[k] == i);
                    assert(cur.contains(i));
                } else {
                    assert(i as int == n - 1);
                    assert(cur[prev.len() as int] == i);
                    assert(cur.contains(i));
                }
            }
            if cur.contains(i) {
                let k = choose|k: int| 0 <= k < cur.len() && cur[k] == i;
                if k < prev.len() {
                    assert(prev[k] == i);
                    assert(prev.contains(i));
                    assert((i as int) < n - 1 && guess[i as int] != secret[i as int]);
                } else {
                    assert(cur.len() > prev.len());
                    assert(guess[n - 1] != secret[n - 1]);
                    assert(cur[k] == seq![(n - 1) as usize][k - prev.len()]);
                    assert(i as int == n - 1);
                }
            }
        }
    }
}

/// No position differs below `n`: the remaining-position list is empty.
pub proof fn lemma_rem_positions_empty(secret: Seq<Option<char>>, guess: Seq<Option<char>>, n: nat)
    requires
        forall|i: int| 0 <= i < n ==> guess[i] == secret[i],
    ensures
        rem_positions_up_to(secret, guess, n).len() == 0,
    decreases n,
{
    if n > 0 {
        lemma_rem_positions_empty(secret, guess, (n - 1) as nat);
    }
}

/// The first position in `rem` whose (possibly consumed) secret letter
/// equals the guessed letter `g`.
pub open spec fn spec_find_pos(word: Seq<Option<char>>, rem: Seq<usize>, g: Option<char>) -> Option<
    usize,
>
    decreases rem.len(),
{
    if rem.len() == 0 {
        None
    } else if word[rem[0] as int] == g {
        Some(rem[0])
    } else {
        spec_find_pos(word, rem.drop_first(), g)
    }
}

/// The second comparison pass: for each position in `todo` (in order), mark
/// it `Misplaced` if the guessed letter still occurs among the remaining
/// secret positions, consuming that occurrence so it cannot match twice.
pub open spec fn spec_second_pass(
    word: Seq<Option<char>>,
    rem: Seq<usize>,
    guess: Seq<Option<char>>,
    todo: Seq<usize>,
    result: Seq<LetterStatus>,
) -> Seq<LetterStatus>
    decreases todo.len(),
{
    if todo.len() == 0 {
        result
    } else {
        let p = todo[0] as int;
        match spec_find_pos(word, rem, guess[p]) {
            Some(wp) => spec_second_pass(
                word.update(wp as int, None),
                rem,
                guess,
                todo.drop_first(),
                result.update(p, LetterStatus::Misplaced),
            ),
            None => spec_second_pass(word, rem, guess, todo.drop_first(), result),
        }
    }
}

/// The first comparison pass: positions where the guess hits the secret
/// exactly are `Correct`, all others start out `Absent`.
pub open spec fn init_result(secret: Seq<Option<char>>, guess: Seq<Option<char>>) -> Seq<
    LetterStatus,
> {
    Seq::new(
        5,
        |i: int|
            if guess[i] == secret[i] {
                LetterStatus::Correct
            } else {
                LetterStatus::Absent
            },
    )
}

/// The feedback produced when `guess` is checked against `secret`.
pub open spec fn spec_compare(secret: Seq<Option<char>>, guess: Seq<Option<char>>) -> Seq<
    LetterStatus,
>
    recommends
        secret.len() == 5,
        guess.len() == 5,
{
    let rem = rem_positions(secret, guess);
    spec_second_pass(secret, rem, guess, rem, init_result(secret, guess))
}

/// The second pass never touches positions outside `todo`, and can only
/// turn a position into `Misplaced`.
proof fn lemma_second_pass_frame(
    word: Seq<Option<char>>,
    rem: Seq<usize>,
    guess: Seq<Option<char>>,
    todo: Seq<usize>,
    result: Seq<LetterStatus>,
    i: int,
)
    requires
        0 <= i < result.len(),
        forall|k: int| 0 <= k < todo.len() ==> (todo[k] as int) < result.len(),
    ensures
        spec_second_pass(word, rem, guess, todo, result).len() == result.len(),
        !todo.contains(i as usize) ==> spec_second_pass(word, rem, guess, todo, result)[i]
            == result[i],
        spec_second_pass(word, rem, guess, todo, result)[i] == result[i] || spec_second_pass(
            word,
            rem,
            guess,
            todo,
            result,
        )[i] == LetterStatus::Misplaced,
    decreases todo.len(),
{
    if todo.len() > 0 {
        let p = todo[0] as int;
        assert(todo.contains(todo[0]));
        match spec_find_pos(word, rem, guess[p]) {
            Some(wp) => {
                lemma_second_pass_frame(
                    word.update(wp as int, None),
                    rem,
                    guess,
                    todo.drop_first(),
                    result.update(p, LetterStatus::Misplaced),
                    i,
                );
                if !todo.contains(i as usize) {
                    assert(!todo.drop_first().contains(i as usize)) by {
                        if todo.drop_first().contains(i as usize) {
                            let k = choose|k: int|
                                0 <= k < todo.drop_first().len() && todo.drop_first()[k] == (
                                i as usize);
                            assert(todo[k + 1] == (i as usize));
                        }
                    }
                }
            },
            None => {
                lemma_second_pass_frame(word, rem, guess, todo.drop_first(), result, i);
                if !todo.contains(i as usize) {
                    assert(!todo.drop_first().contains(i as usize)) by {
                        if todo.drop_first().contains(i as usize) {
                            let k = choose|k: int|
                                0 <= k < todo.drop_first().len() && todo.drop_first()[k] == (
                                i as usize);
                            assert(todo[k + 1] == (i as usize));
                        }
                    }
                }
            },
        }
    }
}

/// A position of the feedback reads `Correct` exactly when the guess has the
/// secret's letter at that position.
pub proof fn lemma_compare_correct(secret: Seq<Option<char>>, guess: Seq<Option<char>>)
    requires
        secret.len() == 5,
        guess.len() == 5,
    ensures
        spec_compare(secret, guess).len() == 5,
        forall|i: int|
            0 <= i < 5 ==> (spec_compare(secret, guess)[i] == LetterStatus::Correct <==> guess[i]
                == secret[i]),
{
    let rem = rem_positions(secret, guess);
    let init = init_result(secret, guess);
    lemma_rem_positions_props(secret, guess, 5);
    assert forall|i: int|
        0 <= i < 5 implies (spec_compare(secret, guess)[i] == LetterStatus::Correct <==> guess[i]
        == secret[i]) by {
        lemma_second_pass_frame(secret, rem, guess, rem, init, i);
        if guess[i] == secret[i] {
            assert(!rem.contains(i as usize));
        } else {
            assert(init[i] == LetterStatus::Absent);
        }
    }
    lemma_second_pass_frame(secret, rem, guess, rem, init, 0);
}

/// A word checked against itself is a perfect match: every position of the
/// feedback reads `Correct`.
pub proof fn lemma_compare_self(w: Seq<Option<char>>)
    requires
        w.len() == 5,
    ensures
        spec_compare(w, w) =~= Seq::new(5, |i: int| LetterStatus::Correct),
{
    lemma_rem_positions_empty(w, w, 5);
    lemma_compare_correct(w, w);
}

impl Word {
    /// Compares this word (the secret) to a guess: first pass marks exact
    /// hits `Correct`; second pass walks the missed positions left to right
    /// and marks a position `Misplaced` if its letter still occurs among the
    /// not-yet-consumed missed secret positions.
    pub fn compare(&self, guess: &Word) -> (r: [LetterStatus; 5])
        ensures
            r@ == spec_compare(self@, guess@),
    {
        let ghost spec_result = spec_compare(self@, guess@);
        let mut result = [LetterStatus::Absent; 5];
        let mut remaining: Vec<usize> = Vec::new();

        let mut i: usize = 0;
        while i < 5
            invariant
                i <= 5,
                remaining@ == rem_positions_up_to(self@, guess@, i as nat),
                result@.len() == 5,
                forall|j: int|
                    0 <= j < i ==> result@[j] == (if guess@[j] == self@[j] {
                        LetterStatus::Correct
                    } else {
                        LetterStatus::Absent
                    }),
                forall|j: int| i <= j < 5 ==> result@[j] == LetterStatus::Absent,
            decreases 5 - i,
        {
            if opt_char_eq(guess.chars[i], self.chars[i]) {
                result[i] = LetterStatus::Correct;
            } else {
                remaining.push(i);
            }
            i = i + 1;
        }
        proof {
            assert(result@ =~= init_result(self@, guess@));
            lemma_rem_positions_props(self@, guess@, 5);
            assert(remaining@.skip(0) =~= remaining@);
        }

        let ghost rem = remaining@;
        let mut scratch = self.chars;
        let mut k: usize = 0;
        while k < remaining.len()
            invariant
                k <= remaining.len(),
                remaining@ == rem,
                rem == rem_positions(self@, guess@),
                forall|m: int| 0 <= m < rem.len() ==> (rem[m] as int) < 5,
                result@.len() == 5,
                scratch@.len() == 5,
                spec_second_pass(scratch@, rem, guess@, rem.skip(k as int), result@)
                    == spec_result,
            decreases remaining.len() - k,
        {
            let p = remaining[k];
            let g = guess.chars[p];
            proof {
                assert(rem.skip(k as int)[0] == rem[k as int]);
            }

            let mut j: usize = 0;
            let mut found: Option<usize> = None;
            proof {
                assert(rem.skip(0) =~= rem);
            }
            while j < remaining.len()
                invariant_except_break
                    j <= remaining.len(),
                    remaining@ == rem,
                    forall|m: int| 0 <= m < rem.len() ==> (rem[m] as int) < 5,
                    scratch@.len() == 5,
                    g == guess@[p as int],
                    found is None,
                    spec_find_pos(scratch@, rem, g) == spec_find_pos(
                        scratch@,
                        rem.skip(j as int),
                        g,
                    ),
                ensures
                    match found {
                        Some(wp) => spec_find_pos(scratch@, rem, g) == Some(wp) && (wp as int) < 5,
                        None => spec_find_pos(scratch@, rem, g) is None,
                    },
                decreases remaining.len() - j,
            {
                proof {
                    assert(rem.skip(j as int)[0] == rem[j as int]);
                    assert(rem.skip(j as int).drop_first() =~= rem.skip(j as int + 1));
                }
                if opt_char_eq(g, scratch[remaining[j]]) {
                    found = Some(remaining[j]);
                    break ;
                }
                j = j + 1;
                if j == remaining.len() {
                    proof {
                        assert(rem.skip(j as int) =~= Seq::<usize>::empty());
                    }
                }
            }

            match found {
                Some(wp) => {
                    result[p] = LetterStatus::Misplaced;
                    scratch[wp] = None;
                },
                None => {},
            }
            proof {
                assert(rem.skip(k as int).drop_first() =~= rem.skip(k as int + 1));
            }
            k = k + 1;
        }
        proof {
            assert(rem.skip(remaining@.len() as int) =~= Seq::<usize>::empty());
        }
        result
    }
}

/// The five word slots that a character string fills: one slot per
/// character, the rest unset.
pub open spec fn spec_word_of(s: Seq<char>) -> Seq<Option<char>> {
    Seq::new(
        5,
        |i: int|
            if i < s.len() {
                Some(s[i])
            } else {
                None
            },
    )
}

/// The word whose slots hold the characters of `word`, in order; slots past
/// the end of `word` stay unset.
pub fn create_word_from_string(word: &str) -> (r: Word)
    requires
        word@.len() <= 5,
    ensures
        r@ == spec_word_of(word@),
{
    let mut res = Word::new();
    let mut it = word.chars();
    let mut i: usize = 0;
    loop
        invariant
            it.obeys_prophetic_iter_laws(),
            i as int + it.remaining().len() == word@.len(),
            i <= word@.len() <= 5,
            it.remaining() =~= word@.skip(i as int),
            res@.len() == 5,
            forall|j: int| 0 <= j < i ==> res@[j] == Some(word@[j]),
            forall|j: int| i <= j < 5 ==> res@[j] == None::<char>,
        ensures
            i == word@.len(),
            res@.len() == 5,
            forall|j: int| 0 <= j < i ==> res@[j] == Some(word@[j]),
            forall|j: int| i <= j < 5 ==> res@[j] == None::<char>,
        decreases word@.len() - i,
    {
        match it.next() {
            Some(c) => {
                res.set_letter(Some(c), i);
                i = i + 1;
            },
            None => {
                break ;
            },
        }
    }
    proof {
        assert(res@ =~= spec_word_of(word@));
    }
    res
}

/// The ordinal of a status, as a byte.
pub fn status_ordinal(s: LetterStatus) -> (r: u8)
    ensures
        r as int == ord_of(s),
{
    match s {
        LetterStatus::Absent => 0,
        LetterStatus::Misplaced => 1,
        LetterStatus::Correct => 2,
    }
}

/// The status whose ordinal is `v`.
fn status_from_ordinal(v: u8) -> (r: LetterStatus)
    ensures
        r == status_of(v as int),
{
    if v == 0 {
        LetterStatus::Absent
    } else if v == 1 {
        LetterStatus::Misplaced
    } else {
        LetterStatus::Correct
    }
}

/// Packs five letter statuses into one status code byte, base-3 encoded.
pub fn encode_status(status: &[LetterStatus; 5]) -> (r: u8)
    ensures
        r as int == spec_encode(status@),
        r <= 242,
{
    status_ordinal(status[0]) + 3 * status_ordinal(status[1]) + 9 * status_ordinal(status[2])
        + 27 * status_ordinal(status[3]) + 81 * status_ordinal(status[4])
}

/// A played guess: the guessed word paired with the status code of the
/// feedback that was observed for it.
#[derive(Clone, Copy, Debug)]
pub struct Guess {
    pub word: Word,
    pub status: u8,
}

impl PartialEq for Guess {
    fn eq(&self, other: &Guess) -> (r: bool) {
        self.word == other.word && self.status == other.status
    }
}

impl vstd::std_specs::cmp::PartialEqSpecImpl for Guess {
    open spec fn obeys_eq_spec() -> bool {
        true
    }

    open spec fn eq_spec(&self, other: &Guess) -> bool {
        *self == *other
    }
}

/// The guessed word with every `Absent` position blanked out: what is left
/// are the letters the feedback says the secret must hold.
pub open spec fn spec_remove_absent(g: Guess) -> Seq<Option<char>> {
    Seq::new(
        5,
        |i: int|
            if spec_decode(g.status as int)[i] == LetterStatus::Absent {
                None
            } else {
                g.word@[i]
            },
    )
}

/// Whether the word `w` is consistent with the feedback of guess `g` at
/// position `p`: `Correct` demands the letter there, `Misplaced` demands it
/// elsewhere (often enough), `Absent` caps how often it may occur.
pub open spec fn spec_valid_at(w: Seq<Option<char>>, g: Guess, p: int) -> bool
    recommends
        w.len() == 5,
        0 <= p < 5,
{
    match g.word@[p] {
        None => true,
        Some(c) => {
            let n_must = spec_count_char(spec_remove_absent(g), c);
            let n_is = spec_count_char(w, c);
            match spec_decode(g.status as int)[p] {
                LetterStatus::Absent => if n_must > 0 {
                    w[p] != Some(c) && n_is <= n_must
                } else {
                    n_is == 0
                },
                LetterStatus::Misplaced => w[p] != Some(c) && n_is >= 1 && n_must <= n_is,
                LetterStatus::Correct => w[p] == Some(c),
            }
        },
    }
}

/// Whether the word `w` is consistent with the feedback of guess `g` at
/// every position.
pub open spec fn spec_is_valid(w: Seq<Option<char>>, g: Guess) -> bool
    recommends
        w.len() == 5,
{
    forall|p: int| 0 <= p < 5 ==> spec_valid_at(w, g, p)
}

impl Guess {
    /// Create a new guess from a string and the statuses observed for it.
    pub fn new(word: &str, status: [LetterStatus; 5]) -> (r: Guess)
        requires
            word@.len() <= 5,
        ensures
            r.word@ == spec_word_of(word@),
            r.status as int == spec_encode(status@),
    {
        let word = create_word_from_string(word);
        let status = encode_status(&status);
        Guess { word, status }
    }

    /// The guess with no letters typed and an all-`Absent` status.
    pub fn empty() -> (r: Guess)
        ensures
            r.word@ =~= Seq::new(5, |i: int| None::<char>),
            r.status == 0,
    {
        Guess { word: Word::new(), status: 0 }
    }

    /// Pair an existing word with the statuses observed for it.
    pub fn from_word(word: Word, status: [LetterStatus; 5]) -> (r: Guess)
        ensures
            r.word == word,
            r.status as int == spec_encode(status@),
    {
        let status = encode_status(&status);
        Guess { word, status }
    }

    /// Set the letter at a position of the guessed word.
    pub fn set_letter(&mut self, letter: Option<char>, position: usize)
        requires
            position < 5,
        ensures
            final (self).word@ == old(self).word@.update(position as int, letter),
            final (self).status == old(self).status,
    {
        self.word.set_letter(letter, position)
    }

    /// Replace the observed statuses wholesale.
    pub fn set_status(&mut self, status: &[LetterStatus; 5])
        ensures
            final (self).status as int == spec_encode(status@),
            final (self).word == old(self).word,
    {
        self.status = encode_status(status)
    }

    /// The observed statuses, unpacked from the status code.
    pub fn get_status(&self) -> (r: [LetterStatus; 5])
        ensures
            r@ == spec_decode(self.status as int),
    {
        decode_status(self.status)
    }

    /// Replace the observed status at one position, keeping the others.
    pub fn update_status(&mut self, status: LetterStatus, position: usize)
        requires
            position < 5,
        ensures
            final (self).status as int == spec_encode(
                spec_decode(old(self).status as int).update(position as int, status),
            ),
            final (self).word == old(self).word,
    {
        let mut current = self.get_status();
        current[position] = status;
        proof {
            assert(current@ =~= spec_decode(self.status as int).update(position as int, status));
        }
        self.set_status(&current);
    }

    /// Counts the occurrences of a character in the guessed word.
    pub fn count_char(&self, letter: &char) -> (r: usize)
        ensures
            r as int == spec_count_char(self.word@, *letter),
    {
        self.word.count_char(letter)
    }

    /// The guessed word with every `Absent` position blanked out.
    fn remove_absent(&self) -> (r: Word)
        ensures
            r@ == spec_remove_absent(*self),
    {
        let mut word = self.word;
        let status = decode_status(self.status);
        let mut i: usize = 0;
        while i < 5
            invariant
                i <= 5,
                word@.len() == 5,
                status@ == spec_decode(self.status as int),
                forall|j: int|
                    0 <= j < i ==> word@[j] == (if spec_decode(self.status as int)[j]
                        == LetterStatus::Absent {
                        None::<char>
                    } else {
                        self.word@[j]
                    }),
                forall|j: int| i <= j < 5 ==> word@[j] == self.word@[j],
            decreases 5 - i,
        {
            if matches!(status[i], LetterStatus::Absent) {
                word.chars[i] = None;
            }
            i = i + 1;
        }
        proof {
            assert(word@ =~= spec_remove_absent(*self));
        }
        word
    }
}

impl Word {
    /// Test whether this word is consistent with the feedback recorded in
    /// `guess`, so that it could still be the secret.
    pub fn is_valid(&self, guess: &Guess) -> (r: bool)
        ensures
            r == spec_is_valid(self@, *guess),
    {
        let status = decode_status(guess.status);
        let removed = guess.remove_absent();

        let mut p: usize = 0;
        while p < 5
            invariant
                p <= 5,
                status@ == spec_decode(guess.status as int),
                removed@ == spec_remove_absent(*guess),
                forall|q: int| 0 <= q < p ==> spec_valid_at(self@, *guess, q),
            decreases 5 - p,
        {
            match guess.word.chars[p] {
                None => {},
                Some(c) => {
                    match status[p] {
                        LetterStatus::Absent => {
                            let n_must = removed.count_char(&c);
                            if n_must > 0 {
                                if self.has_letter_at_position(&c, p) {
                                    proof {
                                        assert(!spec_valid_at(self@, *guess, p as int));
                                    }
                                    return false;
                                }
                                let n_is = self.count_char(&c);
                                if n_is > n_must {
                                    proof {
                                        assert(!spec_valid_at(self@, *guess, p as int));
                                    }
                                    return false;
                                }
                            } else {
                                if self.count_char(&c) > 0 {
                                    proof {
                                        assert(!spec_valid_at(self@, *guess, p as int));
                                    }
                                    return false;
                                }
                            }
                        },
                        LetterStatus::Misplaced => {
                            if self.has_letter_at_position(&c, p) {
                                proof {
                                    assert(!spec_valid_at(self@, *guess, p as int));
                                }
                                return false;
                            }
                            let n_must = removed.count_char(&c);
                            let n_is = self.count_char(&c);
                            if n_is == 0 || n_must > n_is {
                                proof {
                                    assert(!spec_valid_at(self@, *guess, p as int));
                                }
                                return false;
                            }
                        },
                        LetterStatus::Correct => {
                            if !self.has_letter_at_position(&c, p) {
                                proof {
                                    assert(!spec_valid_at(self@, *guess, p as int));
                                }
                                return false;
                            }
                        },
                    }
                },
            }
            p = p + 1;
        }
        true
    }
}

/// Unpacks a status code byte into its five letter statuses.
pub fn decode_status(encoded: u8) -> (r: [LetterStatus; 5])
    ensures
        r@ == spec_decode(encoded as int),
{
    let r = [
        status_from_ordinal(encoded % 3),
        status_from_ordinal(encoded / 3 % 3),
        status_from_ordinal(encoded / 9 % 3),
        status_from_ordinal(encoded / 27 % 3),
        status_from_ordinal(encoded / 81 % 3),
    ];
    assert(r@ =~= spec_decode(encoded as int));
    r
}

} // verus!
