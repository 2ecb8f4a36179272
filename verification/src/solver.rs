//! The guess-optimization engine.
//!
//! The engine owns an ordered vocabulary, one non-negative prior weight per
//! word, and the precomputed all-pairs feedback matrix. From those it
//! resolves the candidate set that a guess history leaves possible and ranks
//! candidate guesses by expected information gain.

use vstd::prelude::*;

verus! {

use crate::SolverError;
use crate::bits::{
    seq_sum,
    sum_at,
    count_pos,
    spec_entropy,
    spec_lg,
    MASS_MAX,
    lemma_seq_sum_element,
    lemma_sum_at_nonneg,
    lemma_sum_at_increasing,
    entropy_weighted,
    lg_fixed,
};
use crate::indices::{indices_up_to, lemma_indices_props, lemma_indices_subset_len};
use crate::wordle::{
    Word,
    Guess,
    LetterStatus,
    spec_compare,
    spec_encode,
    encode_status,
    lemma_compare_self,
    lemma_encode_bounds,
};

/// The largest prior-bias penalty the ranking accepts.
pub const PENALTY_MAX: u64 = 1000000;

/// The status code produced when the word at `g` is guessed and the word at
/// `s` is the secret.
pub open spec fn spec_code(words: Seq<Word>, g: int, s: int) -> int {
    spec_encode(spec_compare(words[s]@, words[g]@))
}

/// The position of the first occurrence of `w` in `words` at or after `j`
/// (the length of `words` if there is none).
pub open spec fn first_index_from(words: Seq<Word>, w: Word, j: nat) -> int
    decreases words.len() - j,
{
    if j >= words.len() {
        words.len() as int
    } else if words[j as int] == w {
        j as int
    } else {
        first_index_from(words, w, j + 1)
    }
}

/// The position of the first occurrence of `w` in `words`.
pub open spec fn first_index(words: Seq<Word>, w: Word) -> int {
    first_index_from(words, w, 0)
}

/// Whether `w` occurs in the vocabulary.
pub open spec fn word_known(words: Seq<Word>, w: Word) -> bool {
    exists|i: int| 0 <= i < words.len() && words[i] == w
}

/// The guess-optimization engine: vocabulary, priors and feedback matrix.
pub struct Solver {
    words: Vec<Word>,
    priors: Vec<u64>,
    mappings: Vec<Vec<u8>>,
}

impl Solver {
    /// The engine's vocabulary, in construction order.
    pub closed spec fn vocab(self) -> Seq<Word> {
        self.words@
    }

    /// One prior weight per vocabulary word.
    pub closed spec fn priors_seq(self) -> Seq<u64> {
        self.priors@
    }

    /// The size of the vocabulary.
    pub open spec fn n_words(self) -> int {
        self.vocab().len() as int
    }

    /// The feedback matrix entry for (guess `g`, secret `s`).
    pub open spec fn code_at(self, g: int, s: int) -> int {
        spec_code(self.vocab(), g, s)
    }

    /// The engine's internal invariant: the three tables are square and
    /// consistent, every matrix cell holds the encoded feedback of its word
    /// pair, and the total prior mass is small enough that entropy
    /// computations cannot overflow.
    pub closed spec fn wf(self) -> bool {
        &&& 1 <= self.words@.len() <= usize::MAX
        &&& self.priors@.len() == self.words@.len()
        &&& self.mappings@.len() == self.words@.len()
        &&& (forall|g: int|
            0 <= g < self.words@.len() ==> (#[trigger] self.mappings@[g])@.len()
                == self.words@.len())
        &&& (forall|g: int, s: int|
            0 <= g < self.words@.len() && 0 <= s < self.words@.len() ==> (
            #[trigger] self.mappings@[g]@[s]) as int == spec_code(self.words@, g, s))
        &&& seq_sum(self.priors@) <= MASS_MAX
    }

    /// A candidate set is represented as strictly increasing indices into
    /// the vocabulary.
    pub open spec fn valid_candidates(self, r: Seq<usize>) -> bool {
        &&& (forall|j: int| 0 <= j < r.len() ==> (#[trigger] r[j] as int) < self.n_words())
        &&& (forall|j1: int, j2: int| 0 <= j1 < j2 < r.len() ==> r[j1] < r[j2])
    }

    /// Builds an engine from an ordered vocabulary and a parallel array of
    /// non-negative prior weights. Construction fails with `DataError` when
    /// the inputs are empty, mismatched in length, or so heavy that the
    /// total mass exceeds `MASS_MAX`; no partial engine is returned.
    pub fn new(words: Vec<Word>, priors: Vec<u64>) -> (r: Result<Solver, SolverError>)
        ensures
            (r is Ok) <==> (words@.len() >= 1 && priors@.len() == words@.len() && seq_sum(priors@)
                <= MASS_MAX),
            (r matches Ok(s) ==> s.wf() && s.vocab() == words@ && s.priors_seq() == priors@),
            (r is Err ==> r->Err_0 == SolverError::DataError),
    {
        let n = words.len();
        if n == 0 || priors.len() != n {
            return Err(SolverError::DataError);
        }

        // The total prior mass must leave room for exact entropy arithmetic.
        let mut acc: u128 = 0;
        let mut i: usize = 0;
        while i < n
            invariant
                i <= n == priors@.len(),
                acc as int == seq_sum(priors@.take(i as int)),
                acc <= MASS_MAX as u128,
            decreases n - i,
        {
            proof {
                assert(priors@.take(i + 1).drop_last() =~= priors@.take(i as int));
                crate::bits::lemma_seq_sum_nonneg(priors@.take(i as int));
            }
            acc = acc + priors[i] as u128;
            if acc > MASS_MAX as u128 {
                proof {
                    crate::bits::lemma_seq_sum_take_le(priors@, i + 1);
                }
                return Err(SolverError::DataError);
            }
            i = i + 1;
        }
        proof {
            assert(priors@.take(n as int) =~= priors@);
        }

        // The feedback matrix: one row per guess word, one column per
        // secret word.
        let mut mappings: Vec<Vec<u8>> = Vec::new();
        let mut g: usize = 0;
        while g < n
            invariant
                g <= n == words@.len(),
                mappings@.len() == g,
                forall|g2: int|
                    0 <= g2 < g ==> (#[trigger] mappings@[g2])@.len() == n,
                forall|g2: int, s2: int|
                    0 <= g2 < g && 0 <= s2 < n ==> (#[trigger] mappings@[g2]@[s2]) as int
                        == spec_code(words@, g2, s2),
            decreases n - g,
        {
            let mut row: Vec<u8> = Vec::new();
            let mut s: usize = 0;
            while s < n
                invariant
                    s <= n == words@.len(),
                    g < n,
                    row@.len() == s,
                    forall|s2: int|
                        0 <= s2 < s ==> (#[trigger] row@[s2]) as int == spec_code(words@, g as int, s2),
                decreases n - s,
            {
                let code = encode_status(&words[s].compare(&words[g]));
                row.push(code);
                s = s + 1;
            }
            mappings.push(row);
            g = g + 1;
        }

        Ok(Solver { words, priors, mappings })
    }

    /// The vocabulary word at an index.
    pub fn get_word(&self, i: usize) -> (r: Word)
        requires
            self.wf(),
            (i as int) < self.n_words(),
        ensures
            r == self.vocab()[i as int],
    {
        self.words[i]
    }

    /// One cell of the precomputed feedback matrix.
    pub fn get_mapping(&self, guess_id: usize, secret_id: usize) -> (r: u8)
        requires
            self.wf(),
            guess_id < self.n_words(),
            secret_id < self.n_words(),
        ensures
            r as int == self.code_at(guess_id as int, secret_id as int),
    {
        self.mappings[guess_id][secret_id]
    }

    /// The position of a word in the vocabulary: the first index holding it,
    /// or `None` when the word is not part of the vocabulary.
    pub fn get_id_for_word(&self, word: &Word) -> (r: Option<usize>)
        requires
            self.wf(),
        ensures
            match r {
                Some(i) => word_known(self.vocab(), *word) && i as int == first_index(
                    self.vocab(),
                    *word,
                ) && (i as int) < self.n_words() && self.vocab()[i as int] == *word,
                None => !word_known(self.vocab(), *word),
            },
    {
        let n = self.words.len();
        let mut j: usize = 0;
        while j < n
            invariant
                j <= n == self.vocab().len(),
                first_index(self.vocab(), *word) == first_index_from(self.vocab(), *word, j as nat),
                forall|m: int| 0 <= m < j ==> self.vocab()[m] != *word,
            decreases n - j,
        {
            if &self.words[j] == word {
                return Some(j);
            }
            j = j + 1;
        }
        None
    }

    /// Whether a word may be played as a guess: it must be in the vocabulary.
    pub fn is_valid_guess(&self, word: &Word) -> (r: bool)
        requires
            self.wf(),
        ensures
            r == word_known(self.vocab(), *word),
    {
        self.get_id_for_word(word).is_some()
    }

    /// The words at the given vocabulary indices, in order.
    pub fn get_words_from_idx(&self, idx: &Vec<usize>) -> (r: Vec<Word>)
        requires
            self.wf(),
            forall|j: int| 0 <= j < idx@.len() ==> (#[trigger] idx@[j] as int) < self.n_words(),
        ensures
            r@.len() == idx@.len(),
            forall|j: int| 0 <= j < idx@.len() ==> r@[j] == self.vocab()[idx@[j] as int],
    {
        let mut out: Vec<Word> = Vec::new();
        let mut j: usize = 0;
        while j < idx.len()
            invariant
                j <= idx@.len(),
                self.wf(),
                forall|m: int| 0 <= m < idx@.len() ==> (#[trigger] idx@[m] as int) < self.n_words(),
                out@.len() == j,
                forall|m: int| 0 <= m < j ==> out@[m] == self.vocab()[idx@[m] as int],
            decreases idx@.len() - j,
        {
            out.push(self.words[idx[j]]);
            j = j + 1;
        }
        out
    }

    /// The words with positive prior: the playable answers.
    pub open spec fn frequent_pred(self) -> spec_fn(int) -> bool {
        |i: int| self.priors_seq()[i] > 0
    }

    /// The indices of the words with positive prior, in increasing order.
    pub open spec fn frequent_idx(self) -> Seq<usize> {
        indices_up_to(self.frequent_pred(), self.vocab().len())
    }

    /// The indices of the words with positive prior: the words that can
    /// still be the secret before anything has been played.
    pub fn get_frequent_word_idx(&self) -> (r: Vec<usize>)
        requires
            self.wf(),
        ensures
            r@ == self.frequent_idx(),
    {
        let n = self.words.len();
        let mut out: Vec<usize> = Vec::new();
        let mut i: usize = 0;
        while i < n
            invariant
                i <= n == self.vocab().len(),
                self.wf(),
                out@ == indices_up_to(self.frequent_pred(), i as nat),
            decreases n - i,
        {
            if self.priors[i] > 0 {
                out.push(i);
            }
            i = i + 1;
        }
        out
    }

    /// The positive-prior index list is a valid candidate set.
    pub proof fn lemma_frequent_valid(self)
        requires
            self.wf(),
        ensures
            self.valid_candidates(self.frequent_idx()),
    {
        lemma_indices_props(self.frequent_pred(), self.vocab().len());
    }

    /// Whether the word at index `i` is still consistent with every played
    /// guess: it has positive prior, and for each guess the matrix row of
    /// the guessed word maps `i` to the observed status code.
    pub open spec fn keeps(self, guesses: Seq<Guess>, i: int) -> bool {
        &&& self.priors_seq()[i] > 0
        &&& (forall|j: int|
            0 <= j < guesses.len() ==> self.code_at(
                first_index(self.vocab(), (#[trigger] guesses[j]).word),
                i,
            ) == guesses[j].status as int)
    }

    /// `keeps`, packaged as a predicate on indices.
    pub open spec fn keeps_pred(self, guesses: Seq<Guess>) -> spec_fn(int) -> bool {
        |i: int| self.keeps(guesses, i)
    }

    /// The candidate set a guess history leaves possible, in increasing
    /// index order.
    pub open spec fn remaining_spec(self, guesses: Seq<Guess>) -> Seq<usize> {
        indices_up_to(self.keeps_pred(guesses), self.vocab().len())
    }

    /// Whether every guessed word occurs in the vocabulary.
    pub open spec fn all_known(self, guesses: Seq<Guess>) -> bool {
        forall|j: int| 0 <= j < guesses.len() ==> word_known(self.vocab(), (#[trigger] guesses[j]).word)
    }

    /// Resolves the candidate set from an ordered guess history: the words
    /// with positive prior whose matrix entry matches every observed status.
    /// A guess whose word is not in the vocabulary is an input error and
    /// fails with `UnknownWord` rather than being ignored.
    pub fn get_remaining_words_idx(&self, guesses: &Vec<Guess>) -> (r: Result<
        Vec<usize>,
        SolverError,
    >)
        requires
            self.wf(),
        ensures
            (r is Ok) <==> self.all_known(guesses@),
            (r matches Ok(v) ==> v@ == self.remaining_spec(guesses@)),
            (r is Err ==> r->Err_0 == SolverError::UnknownWord),
    {
        let n = self.words.len();

        // Resolve each guessed word to its matrix row.
        let mut ids: Vec<usize> = Vec::new();
        let mut j: usize = 0;
        while j < guesses.len()
            invariant
                j <= guesses@.len(),
                self.wf(),
                ids@.len() == j,
                forall|m: int| 0 <= m < j ==> word_known(self.vocab(), (#[trigger] guesses@[m]).word),
                forall|m: int|
                    0 <= m < j ==> (#[trigger] ids@[m]) as int == first_index(
                        self.vocab(),
                        guesses@[m].word,
                    ) && (ids@[m] as int) < self.n_words(),
            decreases guesses@.len() - j,
        {
            match self.get_id_for_word(&guesses[j].word) {
                Some(id) => {
                    ids.push(id);
                },
                None => {
                    proof {
                        assert(!word_known(self.vocab(), guesses@[j as int].word));
                    }
                    return Err(SolverError::UnknownWord);
                },
            }
            j = j + 1;
        }

        // Keep exactly the indices consistent with every guess.
        let mut out: Vec<usize> = Vec::new();
        let mut i: usize = 0;
        while i < n
            invariant
                i <= n == self.vocab().len(),
                self.wf(),
                self.all_known(guesses@),
                ids@.len() == guesses@.len(),
                forall|m: int|
                    0 <= m < ids@.len() ==> (#[trigger] ids@[m]) as int == first_index(
                        self.vocab(),
                        guesses@[m].word,
                    ) && (ids@[m] as int) < self.n_words(),
                out@ == indices_up_to(self.keeps_pred(guesses@), i as nat),
            decreases n - i,
        {
            let mut keep = self.priors[i] > 0;
            if keep {
                let mut m: usize = 0;
                while m < ids.len()
                    invariant_except_break
                        m <= ids@.len() == guesses@.len(),
                        self.wf(),
                        i < self.n_words(),
                        keep,
                        self.priors_seq()[i as int] > 0,
                        forall|m2: int|
                            0 <= m2 < ids@.len() ==> (#[trigger] ids@[m2]) as int == first_index(
                                self.vocab(),
                                guesses@[m2].word,
                            ) && (ids@[m2] as int) < self.n_words(),
                        forall|m2: int|
                            0 <= m2 < m ==> self.code_at(
                                first_index(self.vocab(), (#[trigger] guesses@[m2]).word),
                                i as int,
                            ) == guesses@[m2].status as int,
                    ensures
                        keep == self.keeps(guesses@, i as int),
                    decreases ids@.len() - m,
                {
                    if self.mappings[ids[m]][i] != guesses[m].status {
                        keep = false;
                        proof {
                            assert(!self.keeps(guesses@, i as int));
                        }
                        break ;
                    }
                    m = m + 1;
                }
            } else {
                proof {
                    assert(!self.keeps(guesses@, i as int));
                }
            }
            if keep {
                out.push(i);
            }
            i = i + 1;
        }
        Ok(out)
    }

    /// A resolved candidate set is a valid candidate set.
    pub proof fn lemma_remaining_valid(self, guesses: Seq<Guess>)
        requires
            self.wf(),
        ensures
            self.valid_candidates(self.remaining_spec(guesses)),
    {
        lemma_indices_props(self.keeps_pred(guesses), self.vocab().len());
    }

    /// Extending the guess history never grows the candidate set.
    ///
    /// This is the monotonicity law of the resolver: for every history and
    /// every further guess `g`, the candidate set of `history + [g]` is no
    /// larger than the candidate set of `history`.
    pub proof fn lemma_remaining_monotonic(self, guesses: Seq<Guess>, g: Guess)
        ensures
            self.remaining_spec(guesses.push(g)).len() <= self.remaining_spec(guesses).len(),
    {
        let p1 = self.keeps_pred(guesses);
        let p2 = self.keeps_pred(guesses.push(g));
        assert forall|i: int| 0 <= i < self.vocab().len() && #[trigger] p2(i) implies p1(i) by {
            assert(self.keeps(guesses.push(g), i));
            assert forall|j: int|
                0 <= j < guesses.len() implies self.code_at(
                first_index(self.vocab(), (#[trigger] guesses[j]).word),
                i,
            ) == guesses[j].status as int by {
                assert(guesses.push(g)[j] == guesses[j]);
            }
        }
        lemma_indices_subset_len(p1, p2, self.vocab().len());
    }

    /// Every cell of the matrix diagonal holds the all-`Correct` code: a
    /// word checked against itself is a perfect match.
    pub proof fn lemma_matrix_diagonal(self)
        ensures
            forall|i: int| 0 <= i < self.n_words() ==> self.code_at(i, i) == 242,
    {
        assert forall|i: int| 0 <= i < self.n_words() implies self.code_at(i, i) == 242 by {
            let w = self.vocab()[i];
            lemma_compare_self(w@);
            let all = Seq::new(5, |k: int| LetterStatus::Correct);
            assert(spec_compare(w@, w@) == all);
            assert(spec_encode(all) == 242);
        }
    }
}


/// Status codes always fit the byte range of the encoding.
pub proof fn lemma_code_bounds(words: Seq<Word>, g: int, s: int)
    ensures
        0 <= spec_code(words, g, s) <= 242,
{
    crate::wordle::lemma_compare_correct(words[s]@, words[g]@);
    lemma_encode_bounds(spec_compare(words[s]@, words[g]@));
}

/// Adding `p` to one entry adds `p` to the sum.
proof fn lemma_seq_sum_delta(a: Seq<u64>, b: Seq<u64>, k0: int, p: int)
    requires
        a.len() == b.len(),
        0 <= k0 < a.len(),
        forall|k: int| 0 <= k < a.len() && k != k0 ==> a[k] == b[k],
        b[k0] as int == a[k0] as int + p,
    ensures
        seq_sum(b) == seq_sum(a) + p,
    decreases a.len(),
{
    if k0 == a.len() - 1 {
        assert(a.drop_last() =~= b.drop_last());
    } else {
        lemma_seq_sum_delta(a.drop_last(), b.drop_last(), k0, p);
    }
}

impl Solver {
    /// The prior mass of the candidates in `remaining` whose feedback
    /// against guess `g` has status code `k`.
    pub open spec fn bucket_mass(self, g: int, remaining: Seq<usize>, k: int) -> int
        decreases remaining.len(),
    {
        if remaining.len() == 0 {
            0
        } else {
            self.bucket_mass(g, remaining.drop_last(), k) + if self.code_at(
                g,
                remaining.last() as int,
            ) == k {
                self.priors_seq()[remaining.last() as int] as int
            } else {
                0int
            }
        }
    }

    /// How many candidates in `remaining` map to status code `k` under
    /// guess `g`.
    pub open spec fn bucket_count(self, g: int, remaining: Seq<usize>, k: int) -> int
        decreases remaining.len(),
    {
        if remaining.len() == 0 {
            0
        } else {
            self.bucket_count(g, remaining.drop_last(), k) + if self.code_at(
                g,
                remaining.last() as int,
            ) == k {
                1int
            } else {
                0int
            }
        }
    }

    /// The prior-weighted histogram of the 243 status codes that guess `g`
    /// can produce against the candidate set.
    pub open spec fn dist_row(self, g: int, remaining: Seq<usize>) -> Seq<u64> {
        Seq::new(243, |k: int| self.bucket_mass(g, remaining, k) as u64)
    }

    /// Bucket masses are non-negative and bounded by the candidates' mass.
    pub proof fn lemma_bucket_mass_bounds(self, g: int, remaining: Seq<usize>, k: int)
        requires
            forall|j: int|
                0 <= j < remaining.len() ==> (#[trigger] remaining[j] as int)
                    < self.priors_seq().len(),
        ensures
            0 <= self.bucket_mass(g, remaining, k) <= sum_at(self.priors_seq(), remaining),
        decreases remaining.len(),
    {
        if remaining.len() > 0 {
            self.lemma_bucket_mass_bounds(g, remaining.drop_last(), k);
        }
    }

    /// Bucket counts are non-negative and bounded by the candidate count.
    pub proof fn lemma_bucket_count_bounds(self, g: int, remaining: Seq<usize>, k: int)
        ensures
            0 <= self.bucket_count(g, remaining, k) <= remaining.len(),
        decreases remaining.len(),
    {
        if remaining.len() > 0 {
            self.lemma_bucket_count_bounds(g, remaining.drop_last(), k);
        }
    }

    /// Mass conservation: however a guess splits the candidate set, the 243
    /// buckets together hold exactly the candidates' total prior mass.
    pub proof fn lemma_distribution_mass(self, g: int, remaining: Seq<usize>)
        requires
            self.wf(),
            self.valid_candidates(remaining),
        ensures
            seq_sum(self.dist_row(g, remaining)) == sum_at(self.priors_seq(), remaining),
        decreases remaining.len(),
    {
        if remaining.len() == 0 {
            self.lemma_dist_row_zero_sum(g, remaining, 243);
            assert(self.dist_row(g, remaining).take(243) =~= self.dist_row(g, remaining));
        } else {
            let prev = remaining.drop_last();
            assert(forall|j: int| 0 <= j < prev.len() ==> prev[j] == remaining[j]);
            self.lemma_distribution_mass(g, prev);
            let last = remaining.last() as int;
            let k0 = self.code_at(g, last);
            lemma_code_bounds(self.vocab(), g, last);
            assert forall|k: int| 0 <= k < 243 implies #[trigger] self.dist_row(g, remaining)[k]
                as int == self.bucket_mass(g, remaining, k) by {
                self.lemma_bucket_mass_bounds(g, remaining, k);
                lemma_sum_at_increasing(self.priors_seq(), remaining);
            }
            assert forall|k: int| 0 <= k < 243 implies #[trigger] self.dist_row(g, prev)[k] as int
                == self.bucket_mass(g, prev, k) by {
                self.lemma_bucket_mass_bounds(g, prev, k);
                lemma_sum_at_increasing(self.priors_seq(), prev);
            }
            lemma_seq_sum_delta(
                self.dist_row(g, prev),
                self.dist_row(g, remaining),
                k0,
                self.priors_seq()[last] as int,
            );
        }
    }

    /// An empty candidate set has all-zero buckets.
    proof fn lemma_dist_row_zero_sum(self, g: int, remaining: Seq<usize>, upto: nat)
        requires
            remaining.len() == 0,
            upto <= 243,
        ensures
            seq_sum(self.dist_row(g, remaining).take(upto as int)) == 0,
        decreases upto,
    {
        if upto > 0 {
            self.lemma_dist_row_zero_sum(g, remaining, (upto - 1) as nat);
            assert(self.dist_row(g, remaining).take(upto as int).drop_last() =~= self.dist_row(
                g,
                remaining,
            ).take(upto as int - 1));
        } else {
            assert(self.dist_row(g, remaining).take(0) =~= Seq::<u64>::empty());
        }
    }

    /// The prior-weighted feedback histogram of each allowed guess against
    /// the candidate set: one row of 243 bucket masses per allowed word.
    pub fn get_mapping_distribution(&self, allowed_words: &Vec<usize>, remaining_words: &Vec<
        usize,
    >) -> (r: Vec<Vec<u64>>)
        requires
            self.wf(),
            forall|a: int|
                0 <= a < allowed_words@.len() ==> (#[trigger] allowed_words@[a] as int)
                    < self.n_words(),
            self.valid_candidates(remaining_words@),
        ensures
            r@.len() == allowed_words@.len(),
            forall|a: int|
                0 <= a < allowed_words@.len() ==> (#[trigger] r@[a])@ == self.dist_row(
                    allowed_words@[a] as int,
                    remaining_words@,
                ),
    {
        let mut out: Vec<Vec<u64>> = Vec::new();
        let mut a: usize = 0;
        while a < allowed_words.len()
            invariant
                a <= allowed_words@.len(),
                self.wf(),
                forall|a2: int|
                    0 <= a2 < allowed_words@.len() ==> (#[trigger] allowed_words@[a2] as int)
                        < self.n_words(),
                self.valid_candidates(remaining_words@),
                out@.len() == a,
                forall|a2: int|
                    0 <= a2 < a ==> (#[trigger] out@[a2])@ == self.dist_row(
                        allowed_words@[a2] as int,
                        remaining_words@,
                    ),
            decreases allowed_words@.len() - a,
        {
            let row = self.distribution_row(allowed_words[a], remaining_words);
            out.push(row);
            a = a + 1;
        }
        out
    }

    /// One histogram row: the 243 bucket masses of guess `g` against the
    /// candidate set.
    fn distribution_row(&self, g: usize, remaining_words: &Vec<usize>) -> (r: Vec<u64>)
        requires
            self.wf(),
            (g as int) < self.n_words(),
            self.valid_candidates(remaining_words@),
        ensures
            r@ == self.dist_row(g as int, remaining_words@),
    {
        let rem = remaining_words;
        let mut row: Vec<u64> = Vec::new();
        let mut k: usize = 0;
        while k < 243
            invariant
                k <= 243,
                row@.len() == k,
                forall|k2: int| 0 <= k2 < k ==> row@[k2] == 0u64,
            decreases 243 - k,
        {
            row.push(0);
            k = k + 1;
        }
        proof {
            assert(rem@.take(0) =~= Seq::<usize>::empty());
        }

        let mut j: usize = 0;
        while j < rem.len()
            invariant
                j <= rem@.len(),
                self.wf(),
                (g as int) < self.n_words(),
                self.valid_candidates(rem@),
                row@.len() == 243,
                forall|k2: int|
                    0 <= k2 < 243 ==> (#[trigger] row@[k2]) as int == self.bucket_mass(
                        g as int,
                        rem@.take(j as int),
                        k2,
                    ),
            decreases rem@.len() - j,
        {
            let idx = rem[j];
            let code = self.mappings[g][idx];
            let p = self.priors[idx];
            proof {
                lemma_code_bounds(self.vocab(), g as int, idx as int);
                assert(rem@.take(j + 1).drop_last() =~= rem@.take(j as int));
                assert(rem@.take(j + 1).last() == rem@[j as int]);
                // the running bucket stays within the total prior mass
                assert(forall|j2: int|
                    0 <= j2 < rem@.take(j + 1).len() ==> (#[trigger] rem@.take(j + 1)[j2] as int)
                        < self.priors_seq().len());
                self.lemma_bucket_mass_bounds(g as int, rem@.take(j + 1), code as int);
                assert(forall|j1: int, j2: int|
                    0 <= j1 < j2 < rem@.take(j + 1).len() ==> (#[trigger] rem@.take(j + 1)[j1])
                        < (#[trigger] rem@.take(j + 1)[j2]));
                lemma_sum_at_increasing(self.priors_seq(), rem@.take(j + 1));
            }
            let cur = row[code as usize];
            row.set(code as usize, cur + p);
            proof {
                assert forall|k2: int|
                    0 <= k2 < 243 implies (#[trigger] row@[k2]) as int == self.bucket_mass(
                    g as int,
                    rem@.take(j + 1),
                    k2,
                ) by {}
            }
            j = j + 1;
        }
        proof {
            assert(rem@.take(rem@.len() as int) =~= rem@);
            assert(row@ =~= self.dist_row(g as int, rem@)) by {
                assert forall|k2: int|
                    0 <= k2 < 243 implies row@[k2] == self.dist_row(g as int, rem@)[k2] by {
                    self.lemma_bucket_mass_bounds(g as int, rem@, k2);
                    lemma_sum_at_increasing(self.priors_seq(), rem@);
                }
            }
        }
        row
    }
}


/// Whether `a` ranks no worse than `b` under `scores`: a strictly higher
/// score wins, equal scores fall back to the lower index.
pub open spec fn score_before(scores: Seq<u128>, a: usize, b: usize) -> bool {
    ||| scores[a as int] > scores[b as int]
    ||| (scores[a as int] == scores[b as int] && a <= b)
}

/// Whether the candidate index `x` occurs in `v`.
fn contains_idx(v: &Vec<usize>, x: usize) -> (r: bool)
    ensures
        r == v@.contains(x),
{
    let mut j: usize = 0;
    while j < v.len()
        invariant
            j <= v@.len(),
            forall|m: int| 0 <= m < j ==> v@[m] != x,
        decreases v@.len() - j,
    {
        if v[j] == x {
            proof {
                assert(v@[j as int] == x);
            }
            return true;
        }
        j = j + 1;
    }
    false
}

/// All indices of `scores`, ordered by descending score with lower indices
/// breaking ties: the unique ranking that `score_before` describes.
fn sort_indices_desc(scores: &Vec<u128>) -> (r: Vec<usize>)
    ensures
        r@.len() == scores@.len(),
        forall|i: int| 0 <= i < r@.len() ==> (#[trigger] r@[i] as int) < scores@.len(),
        forall|i: int| 0 <= i < scores@.len() ==> #[trigger] r@.contains(i as usize),
        forall|i: int, j: int| 0 <= i < j < r@.len() ==> score_before(scores@, r@[i], r@[j]),
{
    let n = scores.len();
    let mut idx: Vec<usize> = Vec::new();
    let mut k: usize = 0;
    while k < n
        invariant
            k <= n,
            idx@.len() == k,
            forall|m: int| 0 <= m < k ==> (#[trigger] idx@[m]) == m as usize,
        decreases n - k,
    {
        idx.push(k);
        k = k + 1;
    }
    proof {
        assert forall|v: int| 0 <= v < n implies #[trigger] idx@.contains(v as usize) by {
            assert(idx@[v] == v as usize);
        }
    }

    let mut i: usize = 0;
    while i < n
        invariant
            i <= n == scores@.len(),
            idx@.len() == n,
            forall|m: int| 0 <= m < n ==> (#[trigger] idx@[m] as int) < n,
            forall|v: int| 0 <= v < n ==> #[trigger] idx@.contains(v as usize),
            forall|a: int, b: int| 0 <= a < b < i ==> score_before(scores@, idx@[a], idx@[b]),
            forall|a: int, b: int|
                0 <= a < i <= b < n ==> score_before(scores@, idx@[a], idx@[b]),
        decreases n - i,
    {
        // Find the best element of the unsorted tail.
        let mut best: usize = i;
        let mut j: usize = i + 1;
        while j < n
            invariant
                i <= best < j <= n,
                idx@.len() == n == scores@.len(),
                forall|m: int| 0 <= m < n ==> (#[trigger] idx@[m] as int) < n,
                forall|m: int| i <= m < j ==> score_before(scores@, idx@[best as int], idx@[m]),
            decreases n - j,
        {
            let a = idx[j];
            let b = idx[best];
            if scores[a] > scores[b] || (scores[a] == scores[b] && a <= b) {
                best = j;
            }
            j = j + 1;
        }

        // Move it to the front of the tail.
        let ghost old_idx = idx@;
        let tmp = idx[i];
        let chosen = idx[best];
        idx.set(i, chosen);
        idx.set(best, tmp);
        proof {
            assert forall|v: int| 0 <= v < n implies #[trigger] idx@.contains(v as usize) by {
                assert(old_idx.contains(v as usize));
                let p = choose|p: int| 0 <= p < old_idx.len() && old_idx[p] == v as usize;
                if p == i as int {
                    assert(idx@[best as int] == v as usize);
                } else if p == best as int {
                    assert(idx@[i as int] == v as usize);
                } else {
                    assert(idx@[p] == v as usize);
                }
            }
        }
        i = i + 1;
    }
    idx
}

impl Solver {
    /// The expected information of guess `g` against the candidate set, as
    /// mass-weighted fixed-point entropy.
    pub open spec fn guess_entropy(self, g: int, remaining: Seq<usize>) -> int {
        spec_entropy(self.dist_row(g, remaining))
    }

    /// The composite ranking score of guess `g`: 200 times its weighted
    /// entropy, plus a prior-proportional bonus when the guess is itself a
    /// candidate (a non-candidate can never end the game, so it gets none).
    ///
    /// On the unit scale: dividing by `200 * mass * FIXED_ONE` (with `mass`
    /// the candidate set's total prior) gives `entropy_bits + penalty *
    /// prior / (200 * mass)`. The bonus is deliberately not normalized by
    /// the candidate mass: `penalty` is a tunable tie-breaking bias, zero
    /// on the very first guess, and the caller calibrates it to the prior
    /// scale it loaded.
    pub open spec fn guess_score(self, g: int, remaining: Seq<usize>, penalty: u64) -> int {
        200 * self.guess_entropy(g, remaining) + if remaining.contains(g as usize) {
            (penalty as int) * (self.priors_seq()[g] as int) * 65536
        } else {
            0int
        }
    }

    /// Whether guess `a` ranks no worse than guess `b` against the
    /// candidate set: higher composite score first, ties to the lower index.
    pub open spec fn ranked_before(
        self,
        remaining: Seq<usize>,
        penalty: u64,
        a: usize,
        b: usize,
    ) -> bool {
        ||| self.guess_score(a as int, remaining, penalty) > self.guess_score(
            b as int,
            remaining,
            penalty,
        )
        ||| (self.guess_score(a as int, remaining, penalty) == self.guess_score(
            b as int,
            remaining,
            penalty,
        ) && a <= b)
    }

    /// Whether `order` is the ranking of the whole vocabulary against the
    /// candidate set: a permutation of all word indices in which every word
    /// ranks no worse than those after it.
    pub open spec fn is_ranking(self, order: Seq<usize>, remaining: Seq<usize>, penalty: u64) -> bool {
        &&& order.len() == self.n_words()
        &&& (forall|i: int| 0 <= i < order.len() ==> (#[trigger] order[i] as int) < self.n_words())
        &&& (forall|i: int| 0 <= i < self.n_words() ==> #[trigger] order.contains(i as usize))
        &&& (forall|i: int, j: int|
            0 <= i < j < order.len() ==> self.ranked_before(remaining, penalty, order[i], order[j]))
    }

    /// The composite score of every vocabulary word against the candidate
    /// set, by word index.
    fn compute_scores(&self, remaining: &Vec<usize>, penalty: u64) -> (r: Vec<u128>)
        requires
            self.wf(),
            self.valid_candidates(remaining@),
            penalty <= PENALTY_MAX,
        ensures
            r@.len() == self.n_words(),
            forall|g: int|
                0 <= g < self.n_words() ==> (#[trigger] r@[g]) as int == self.guess_score(
                    g,
                    remaining@,
                    penalty,
                ),
    {
        let n = self.words.len();
        let mut scores: Vec<u128> = Vec::new();
        let mut g: usize = 0;
        while g < n
            invariant
                g <= n,
                self.wf(),
                n == self.n_words(),
                self.valid_candidates(remaining@),
                penalty <= PENALTY_MAX,
                scores@.len() == g,
                forall|g2: int|
                    0 <= g2 < g ==> (#[trigger] scores@[g2]) as int == self.guess_score(
                        g2,
                        remaining@,
                        penalty,
                    ),
            decreases n - g,
        {
            let row = self.distribution_row(g, remaining);
            proof {
                self.lemma_distribution_mass(g as int, remaining@);
                lemma_sum_at_increasing(self.priors_seq(), remaining@);
                lemma_sum_at_nonneg(self.priors_seq(), remaining@);
                crate::bits::lemma_entropy_mass_bound(row@);
            }
            let h = entropy_weighted(&row);
            let possible = contains_idx(remaining, g);
            proof {
                lemma_seq_sum_element(self.priors_seq(), g as int);
                crate::bits::lemma_seq_sum_nonneg(self.priors_seq());
                assert((penalty as int) * (self.priors_seq()[g as int] as int) * 65536 <= (
                PENALTY_MAX as int) * (MASS_MAX as int) * 65536) by (nonlinear_arith)
                    requires
                        0 <= penalty <= PENALTY_MAX,
                        0 <= self.priors_seq()[g as int] as int <= MASS_MAX,
                ;
                assert((penalty as int) * (self.priors_seq()[g as int] as int) * 65536 >= 0)
                    by (nonlinear_arith)
                    requires
                        penalty >= 0,
                        self.priors_seq()[g as int] as int >= 0,
                ;
            }
            let bonus: u128 = if possible {
                (penalty as u128) * (self.priors[g] as u128) * 65536
            } else {
                0
            };
            let score: u128 = 200 * (h as u128) + bonus;
            scores.push(score);
            g = g + 1;
        }
        scores
    }

    /// What a successful ranking request returns: the single candidate when
    /// only one is left, else the `n` best-ranked vocabulary words (all of
    /// them when the vocabulary is smaller), read off the unique ranking.
    pub open spec fn guess_result_ok(
        self,
        v: Seq<Word>,
        n: int,
        remaining: Seq<usize>,
        penalty: u64,
    ) -> bool {
        if remaining.len() == 1 {
            v == seq![self.vocab()[remaining[0] as int]]
        } else {
            exists|order: Seq<usize>|
                {
                    &&& #[trigger] self.is_ranking(order, remaining, penalty)
                    &&& v.len() == (if n <= self.n_words() {
                        n
                    } else {
                        self.n_words()
                    })
                    &&& (forall|j: int| 0 <= j < v.len() ==> v[j] == self.vocab()[order[j] as int])
                }
        }
    }

    /// A successful ranking result is non-empty (when at least one word was
    /// asked for) and holds only vocabulary words.
    pub proof fn lemma_guess_result_words(
        self,
        v: Seq<Word>,
        n: int,
        remaining: Seq<usize>,
        penalty: u64,
    )
        requires
            self.wf(),
            self.valid_candidates(remaining),
            remaining.len() >= 1,
            n >= 1,
            self.guess_result_ok(v, n, remaining, penalty),
        ensures
            v.len() >= 1,
            forall|j: int| 0 <= j < v.len() ==> word_known(self.vocab(), #[trigger] v[j]),
    {
        if remaining.len() == 1 {
            assert(v[0] == self.vocab()[remaining[0] as int]);
            assert forall|j: int| 0 <= j < v.len() implies word_known(
                self.vocab(),
                #[trigger] v[j],
            ) by {
                assert((remaining[0] as int) < self.n_words());
            }
        } else {
            let order = choose|order: Seq<usize>|
                {
                    &&& #[trigger] self.is_ranking(order, remaining, penalty)
                    &&& v.len() == (if n <= self.n_words() {
                        n
                    } else {
                        self.n_words()
                    })
                    &&& (forall|j: int| 0 <= j < v.len() ==> v[j] == self.vocab()[order[j] as int])
                };
            assert forall|j: int| 0 <= j < v.len() implies word_known(
                self.vocab(),
                #[trigger] v[j],
            ) by {
                assert(v[j] == self.vocab()[order[j] as int]);
            }
        }
    }

    /// The top `n` guesses against the candidate set, best first: every word
    /// of the vocabulary is scored by the composite score of `guess_score`
    /// (expected information, plus the prior-proportional `penalty` bonus
    /// for words that could themselves be the answer), and the `n` best are
    /// returned (all of them if the vocabulary is smaller). A candidate set
    /// of exactly one word needs no ranking: that word is returned by
    /// itself. An empty candidate set means the guess history was
    /// contradictory, which is the caller's error: `EmptyCandidateSet`.
    pub fn guess(&self, n: usize, remaining_words: &Vec<usize>, penalty: u64) -> (r: Result<
        Vec<Word>,
        SolverError,
    >)
        requires
            self.wf(),
            self.valid_candidates(remaining_words@),
            penalty <= PENALTY_MAX,
        ensures
            (r is Ok) <==> remaining_words@.len() >= 1,
            (r is Err ==> r->Err_0 == SolverError::EmptyCandidateSet),
            (r matches Ok(v) ==> self.guess_result_ok(v@, n as int, remaining_words@, penalty)),
    {
        if remaining_words.len() == 0 {
            return Err(SolverError::EmptyCandidateSet);
        }
        if remaining_words.len() == 1 {
            let mut out: Vec<Word> = Vec::new();
            out.push(self.words[remaining_words[0]]);
            proof {
                assert(out@ =~= seq![self.vocab()[remaining_words@[0] as int]]);
            }
            return Ok(out);
        }

        let scores = self.compute_scores(remaining_words, penalty);
        let order = sort_indices_desc(&scores);
        let count = if n <= order.len() {
            n
        } else {
            order.len()
        };
        let mut out: Vec<Word> = Vec::new();
        let mut j: usize = 0;
        while j < count
            invariant
                j <= count <= order@.len() == self.n_words(),
                self.wf(),
                forall|m: int| 0 <= m < order@.len() ==> (#[trigger] order@[m] as int) < self.n_words(),
                out@.len() == j,
                forall|m: int| 0 <= m < j ==> out@[m] == self.vocab()[order@[m] as int],
            decreases count - j,
        {
            out.push(self.words[order[j]]);
            j = j + 1;
        }
        proof {
            assert forall|a: int, b: int|
                0 <= a < b < order@.len() implies self.ranked_before(
                remaining_words@,
                penalty,
                order@[a],
                order@[b],
            ) by {
                assert(score_before(scores@, order@[a], order@[b]));
            }
            assert(self.is_ranking(order@, remaining_words@, penalty));
        }
        Ok(out)
    }
}


/// An immutable snapshot of a candidate guess's quality against a candidate
/// set. Information fields are fixed-point: `expected_bits` and
/// `two_level_bits` are mass-weighted (divide by candidate mass times
/// `FIXED_ONE` for bits), `real_bits` is plain fixed-point bits.
#[derive(Clone, Copy, Debug)]
pub struct GuessEvaluation {
    pub word: Word,
    pub expected_bits: u64,
    pub real_bits: Option<u64>,
    pub groups: usize,
    pub max_group_size: usize,
    pub n_remaining_before: usize,
    pub n_remaining_after: Option<usize>,
    pub is_possible: bool,
    pub prior: u64,
    pub two_level_bits: Option<u64>,
}

/// The prior-bias penalty used for the inner ranking of the lookahead.
pub const TWO_LEVEL_PENALTY: u64 = 1;

/// The number of positive entries in a weight vector.
fn count_positive(v: &Vec<u64>) -> (r: usize)
    ensures
        r as int == count_pos(v@),
        r <= v@.len(),
{
    let mut count: usize = 0;
    let mut i: usize = 0;
    while i < v.len()
        invariant
            i <= v@.len(),
            count <= i,
            count as int == count_pos(v@.take(i as int)),
        decreases v@.len() - i,
    {
        proof {
            assert(v@.take(i + 1).drop_last() =~= v@.take(i as int));
        }
        if v[i] > 0 {
            count = count + 1;
        }
        i = i + 1;
    }
    proof {
        assert(v@.take(v@.len() as int) =~= v@);
    }
    count
}

impl Solver {
    /// The candidates of `remaining` that stay possible when guess `g` gets
    /// feedback code `k`, in increasing index order.
    pub open spec fn filter_candidates(self, g: int, remaining: Seq<usize>, k: int) -> Seq<usize>
        decreases remaining.len(),
    {
        if remaining.len() == 0 {
            Seq::empty()
        } else {
            self.filter_candidates(g, remaining.drop_last(), k) + if self.code_at(
                g,
                remaining.last() as int,
            ) == k {
                seq![remaining.last()]
            } else {
                Seq::<usize>::empty()
            }
        }
    }

    /// Filtering a candidate set yields a candidate set whose members come
    /// from the original, whose prior mass is the bucket's mass, and whose
    /// size is the bucket's count.
    pub proof fn lemma_filter_candidates_valid(self, g: int, remaining: Seq<usize>, k: int)
        requires
            self.valid_candidates(remaining),
        ensures
            self.valid_candidates(self.filter_candidates(g, remaining, k)),
            forall|j: int|
                0 <= j < self.filter_candidates(g, remaining, k).len() ==> remaining.contains(
                    #[trigger] self.filter_candidates(g, remaining, k)[j],
                ),
            sum_at(self.priors_seq(), self.filter_candidates(g, remaining, k))
                == self.bucket_mass(g, remaining, k),
            self.filter_candidates(g, remaining, k).len() == self.bucket_count(g, remaining, k),
        decreases remaining.len(),
    {
        if remaining.len() > 0 {
            let prev = remaining.drop_last();
            let last = remaining.last();
            assert(forall|j: int| 0 <= j < prev.len() ==> prev[j] == remaining[j]);
            self.lemma_filter_candidates_valid(g, prev, k);
            let fprev = self.filter_candidates(g, prev, k);
            let fcur = self.filter_candidates(g, remaining, k);
            if self.code_at(g, last as int) == k {
                assert(fcur.drop_last() =~= fprev);
                assert(fcur.last() == last);
            } else {
                assert(fcur =~= fprev);
            }
            assert forall|j: int| 0 <= j < fcur.len() implies remaining.contains(
                #[trigger] fcur[j],
            ) by {
                if j < fprev.len() {
                    assert(fcur[j] == fprev[j]);
                    assert(prev.contains(fprev[j]));
                    let m = choose|m: int| 0 <= m < prev.len() && prev[m] == fprev[j];
                    assert(remaining[m] == fprev[j]);
                } else {
                    assert(fcur[j] == last);
                    assert(remaining[remaining.len() - 1] == last);
                }
            }
            assert forall|j1: int, j2: int| 0 <= j1 < j2 < fcur.len() implies fcur[j1]
                < fcur[j2] by {
                if j2 >= fprev.len() {
                    // fcur[j2] is the appended last element; fcur[j1] comes
                    // from the strictly smaller prefix
                    assert(fcur[j1] == fprev[j1]);
                    assert(prev.contains(fprev[j1]));
                    let m = choose|m: int| 0 <= m < prev.len() && prev[m] == fprev[j1];
                    assert(remaining[m] < remaining[remaining.len() - 1]);
                }
            }
        }
    }

    /// The size of the largest feedback group of guess `g`, looking at the
    /// codes below `upto`.
    pub open spec fn max_count_up_to(self, g: int, remaining: Seq<usize>, upto: nat) -> int
        decreases upto,
    {
        if upto == 0 {
            0
        } else {
            let prev = self.max_count_up_to(g, remaining, (upto - 1) as nat);
            let c = self.bucket_count(g, remaining, upto - 1);
            if c > prev {
                c
            } else {
                prev
            }
        }
    }

    /// The size of the largest feedback group of guess `g`.
    pub open spec fn max_group(self, g: int, remaining: Seq<usize>) -> int {
        self.max_count_up_to(g, remaining, 243)
    }

    /// How many candidates map to feedback code `code` under guess `g`.
    fn count_bucket(&self, g: usize, remaining: &Vec<usize>, code: u8) -> (r: usize)
        requires
            self.wf(),
            (g as int) < self.n_words(),
            self.valid_candidates(remaining@),
        ensures
            r as int == self.bucket_count(g as int, remaining@, code as int),
            r <= remaining@.len(),
    {
        let mut count: usize = 0;
        let mut j: usize = 0;
        while j < remaining.len()
            invariant
                j <= remaining@.len(),
                self.wf(),
                (g as int) < self.n_words(),
                self.valid_candidates(remaining@),
                count <= j,
                count as int == self.bucket_count(g as int, remaining@.take(j as int), code as int),
            decreases remaining@.len() - j,
        {
            proof {
                assert(remaining@.take(j + 1).drop_last() =~= remaining@.take(j as int));
                assert(remaining@.take(j + 1).last() == remaining@[j as int]);
            }
            if self.mappings[g][remaining[j]] == code {
                count = count + 1;
            }
            j = j + 1;
        }
        proof {
            assert(remaining@.take(remaining@.len() as int) =~= remaining@);
        }
        count
    }

    /// The size of the largest feedback group of guess `g` against the
    /// candidate set.
    fn max_group_size(&self, g: usize, remaining: &Vec<usize>) -> (r: usize)
        requires
            self.wf(),
            (g as int) < self.n_words(),
            self.valid_candidates(remaining@),
        ensures
            r as int == self.max_group(g as int, remaining@),
    {
        let mut best: usize = 0;
        let mut k: usize = 0;
        while k < 243
            invariant
                k <= 243,
                self.wf(),
                (g as int) < self.n_words(),
                self.valid_candidates(remaining@),
                best as int == self.max_count_up_to(g as int, remaining@, k as nat),
                best <= remaining@.len(),
            decreases 243 - k,
        {
            let c = self.count_bucket(g, remaining, k as u8);
            if c > best {
                best = c;
            }
            k = k + 1;
        }
        best
    }

    /// The index of the highest-scoring guess against the candidate set,
    /// scanning the vocabulary in order (so ties go to the lowest index).
    pub open spec fn best_guess_up_to(self, remaining: Seq<usize>, penalty: u64, upto: nat) -> int
        decreases upto,
    {
        if upto <= 1 {
            0
        } else {
            let prev = self.best_guess_up_to(remaining, penalty, (upto - 1) as nat);
            if self.guess_score(upto - 1, remaining, penalty) > self.guess_score(
                prev,
                remaining,
                penalty,
            ) {
                upto - 1
            } else {
                prev
            }
        }
    }

    /// The index of the best next guess against the candidate set.
    pub open spec fn best_guess(self, remaining: Seq<usize>, penalty: u64) -> int {
        self.best_guess_up_to(remaining, penalty, self.vocab().len())
    }

    /// The chosen index stays inside the vocabulary.
    pub proof fn lemma_best_guess_bounds(self, remaining: Seq<usize>, penalty: u64, upto: nat)
        requires
            upto >= 1,
        ensures
            0 <= self.best_guess_up_to(remaining, penalty, upto) < upto,
        decreases upto,
    {
        if upto > 1 {
            self.lemma_best_guess_bounds(remaining, penalty, (upto - 1) as nat);
        }
    }

    /// The index of the best next guess against the candidate set.
    pub fn best_guess_idx(&self, remaining: &Vec<usize>, penalty: u64) -> (r: usize)
        requires
            self.wf(),
            self.valid_candidates(remaining@),
            penalty <= PENALTY_MAX,
        ensures
            r as int == self.best_guess(remaining@, penalty),
            (r as int) < self.n_words(),
    {
        let scores = self.compute_scores(remaining, penalty);
        let n = self.words.len();
        let mut best: usize = 0;
        let mut g: usize = 1;
        while g < n
            invariant
                1 <= g <= n == self.n_words(),
                best < g,
                scores@.len() == n,
                forall|g2: int|
                    0 <= g2 < n ==> (#[trigger] scores@[g2]) as int == self.guess_score(
                        g2,
                        remaining@,
                        penalty,
                    ),
                best as int == self.best_guess_up_to(remaining@, penalty, g as nat),
            decreases n - g,
        {
            if scores[g] > scores[best] {
                best = g;
            }
            g = g + 1;
        }
        best
    }

    /// The lookahead tail of guess `g`, over the codes below `upto`: for
    /// each non-empty feedback group, the weighted entropy of the best next
    /// guess against what the group leaves of the candidate set.
    pub open spec fn two_level_up_to(self, g: int, remaining: Seq<usize>, upto: nat) -> int
        decreases upto,
    {
        if upto == 0 {
            0
        } else {
            self.two_level_up_to(g, remaining, (upto - 1) as nat) + if self.bucket_mass(
                g,
                remaining,
                upto - 1,
            ) > 0 {
                let sub = self.filter_candidates(g, remaining, upto - 1);
                self.guess_entropy(self.best_guess(sub, TWO_LEVEL_PENALTY), sub)
            } else {
                0int
            }
        }
    }

    /// The two-level score of guess `g`: its own weighted entropy plus, for
    /// every feedback it can produce, the weighted entropy of the best
    /// next guess after that feedback.
    pub open spec fn two_level_total(self, g: int, remaining: Seq<usize>) -> int {
        self.guess_entropy(g, remaining) + self.two_level_up_to(g, remaining, 243)
    }

    /// The candidates that stay possible when guess `g` gets feedback
    /// `code`, in increasing index order.
    fn filter_row(&self, g: usize, remaining: &Vec<usize>, code: u8) -> (r: Vec<usize>)
        requires
            self.wf(),
            (g as int) < self.n_words(),
            self.valid_candidates(remaining@),
        ensures
            r@ == self.filter_candidates(g as int, remaining@, code as int),
    {
        let mut out: Vec<usize> = Vec::new();
        let mut j: usize = 0;
        proof {
            assert(remaining@.take(0) =~= Seq::<usize>::empty());
        }
        while j < remaining.len()
            invariant
                j <= remaining@.len(),
                self.wf(),
                (g as int) < self.n_words(),
                self.valid_candidates(remaining@),
                out@ == self.filter_candidates(g as int, remaining@.take(j as int), code as int),
            decreases remaining@.len() - j,
        {
            proof {
                assert(remaining@.take(j + 1).drop_last() =~= remaining@.take(j as int));
                assert(remaining@.take(j + 1).last() == remaining@[j as int]);
            }
            if self.mappings[g][remaining[j]] == code {
                out.push(remaining[j]);
            }
            j = j + 1;
        }
        proof {
            assert(remaining@.take(remaining@.len() as int) =~= remaining@);
        }
        out
    }

    /// The lookahead tail of guess `g`: the sum, over its non-empty
    /// feedback groups, of the weighted entropy of the best next guess.
    fn two_level_tail(&self, g: usize, remaining: &Vec<usize>, row: &Vec<u64>) -> (r: u64)
        requires
            self.wf(),
            (g as int) < self.n_words(),
            self.valid_candidates(remaining@),
            row@ == self.dist_row(g as int, remaining@),
        ensures
            r as int == self.two_level_up_to(g as int, remaining@, 243),
            r as int <= seq_sum(row@) * (40 * 65536),
    {
        proof {
            self.lemma_distribution_mass(g as int, remaining@);
            lemma_sum_at_increasing(self.priors_seq(), remaining@);
            lemma_sum_at_nonneg(self.priors_seq(), remaining@);
            assert(row@.take(0) =~= Seq::<u64>::empty());
        }
        let mut acc: u64 = 0;
        let mut k: usize = 0;
        while k < 243
            invariant
                k <= 243,
                self.wf(),
                (g as int) < self.n_words(),
                self.valid_candidates(remaining@),
                row@ == self.dist_row(g as int, remaining@),
                seq_sum(row@) <= MASS_MAX,
                acc as int == self.two_level_up_to(g as int, remaining@, k as nat),
                acc as int <= seq_sum(row@.take(k as int)) * (40 * 65536),
            decreases 243 - k,
        {
            proof {
                assert(row@.take(k + 1).drop_last() =~= row@.take(k as int));
                assert(row@.take(k + 1).last() == row@[k as int]);
                crate::bits::lemma_seq_sum_take_le(row@, k + 1);
                crate::bits::lemma_seq_sum_nonneg(row@.take(k as int));
                self.lemma_bucket_mass_bounds(g as int, remaining@, k as int);
                lemma_sum_at_increasing(self.priors_seq(), remaining@);
            }
            let m = row[k];
            proof {
                assert(m as int == self.bucket_mass(g as int, remaining@, k as int));
            }
            if m > 0 {
                let sub = self.filter_row(g, remaining, k as u8);
                proof {
                    assert((k as u8) as int == k as int);
                    self.lemma_filter_candidates_valid(g as int, remaining@, k as int);
                    assert(sum_at(self.priors_seq(), sub@) == m as int);
                }
                let best = self.best_guess_idx(&sub, TWO_LEVEL_PENALTY);
                let h2row = self.distribution_row(best, &sub);
                proof {
                    self.lemma_distribution_mass(best as int, sub@);
                    assert(seq_sum(h2row@) == m as int);
                    crate::bits::lemma_entropy_linear_bound(h2row@);
                }
                let h2 = entropy_weighted(&h2row);
                proof {
                    // this group's entropy is covered by its own mass budget
                    assert(h2 as int <= (m as int) * (40 * 65536));
                    assert(seq_sum(row@.take(k as int + 1)) == seq_sum(row@.take(k as int))
                        + m as int);
                    assert(acc as int + h2 as int <= seq_sum(row@.take(k as int + 1)) * (40
                        * 65536)) by (nonlinear_arith)
                        requires
                            acc as int <= seq_sum(row@.take(k as int)) * (40 * 65536),
                            h2 as int <= (m as int) * (40 * 65536),
                            seq_sum(row@.take(k as int + 1)) == seq_sum(row@.take(k as int))
                                + m as int,
                    ;
                    assert(seq_sum(row@.take(k as int + 1)) <= MASS_MAX as int);
                    assert(acc as int + h2 as int <= MASS_MAX as int * (40 * 65536));
                }
                acc = acc + h2;
            } else {
                proof {
                    assert(seq_sum(row@.take(k as int + 1)) == seq_sum(row@.take(k as int)));
                }
            }
            k = k + 1;
        }
        proof {
            assert(row@.take(243) =~= row@);
        }
        acc
    }

    /// Every field the evaluation of guess `g` must carry.
    pub open spec fn evaluation_ok(
        self,
        e: GuessEvaluation,
        w: Word,
        remaining: Seq<usize>,
        status: Option<Seq<LetterStatus>>,
        two_level: bool,
    ) -> bool {
        let g = first_index(self.vocab(), w);
        &&& e.word == w
        &&& e.expected_bits as int == self.guess_entropy(g, remaining)
        &&& e.groups as int == count_pos(self.dist_row(g, remaining))
        &&& e.max_group_size as int == self.max_group(g, remaining)
        &&& e.n_remaining_before == remaining.len()
        &&& (match status {
            Some(st) => e.n_remaining_after matches Some(a) && a as int == self.bucket_count(
                g,
                remaining,
                spec_encode(st),
            ),
            None => e.n_remaining_after is None,
        })
        &&& (match status {
            Some(st) => {
                let after = self.bucket_count(g, remaining, spec_encode(st));
                if remaining.len() >= 1 && after >= 1 {
                    e.real_bits matches Some(rb) && rb as int == spec_lg(remaining.len() as int)
                        - spec_lg(after)
                } else {
                    e.real_bits is None
                }
            },
            None => e.real_bits is None,
        })
        &&& e.is_possible == remaining.contains(g as usize)
        &&& e.prior == self.priors_seq()[g]
        &&& (two_level ==> (e.two_level_bits matches Some(t) && t as int == self.two_level_total(
            g,
            remaining,
        )))
        &&& (!two_level ==> e.two_level_bits is None)
    }

    /// Evaluates a candidate guess against the candidate set: its expected
    /// information, how it splits the candidates into feedback groups, and,
    /// when the actually observed statuses are given, how much information
    /// they realized. With `two_level` the score of the best follow-up guess
    /// after each possible feedback is added. A word outside the vocabulary
    /// fails with `UnknownWord`.
    pub fn evalute_guess(
        &self,
        word: &Word,
        remaining_words: &Vec<usize>,
        status: Option<[LetterStatus; 5]>,
        two_level: bool,
    ) -> (r: Result<GuessEvaluation, SolverError>)
        requires
            self.wf(),
            self.valid_candidates(remaining_words@),
        ensures
            (r is Ok) <==> word_known(self.vocab(), *word),
            (r is Err ==> r->Err_0 == SolverError::UnknownWord),
            (r matches Ok(e) ==> self.evaluation_ok(
                e,
                *word,
                remaining_words@,
                (match status {
                    Some(st) => Some(st@),
                    None => None,
                }),
                two_level,
            )),
    {
        let g = match self.get_id_for_word(word) {
            Some(i) => i,
            None => {
                return Err(SolverError::UnknownWord);
            },
        };

        let row = self.distribution_row(g, remaining_words);
        proof {
            self.lemma_distribution_mass(g as int, remaining_words@);
            lemma_sum_at_increasing(self.priors_seq(), remaining_words@);
            lemma_sum_at_nonneg(self.priors_seq(), remaining_words@);
            crate::bits::lemma_entropy_mass_bound(row@);
            crate::bits::lemma_entropy_linear_bound(row@);
        }
        let expected_bits = entropy_weighted(&row);
        let groups = count_positive(&row);
        let max_group_size = self.max_group_size(g, remaining_words);
        let n_before = remaining_words.len();

        let n_remaining_after: Option<usize>;
        let real_bits: Option<u64>;
        match status {
            Some(st) => {
                let code = encode_status(&st);
                let after = self.count_bucket(g, remaining_words, code);
                n_remaining_after = Some(after);
                if n_before >= 1 && after >= 1 {
                    proof {
                        crate::bits::lemma_lg_mono(after as int, n_before as int);
                    }
                    real_bits = Some(
                        lg_fixed(n_before as u64) - lg_fixed(after as u64),
                    );
                } else {
                    real_bits = None;
                }
            },
            None => {
                n_remaining_after = None;
                real_bits = None;
            },
        }

        let is_possible = contains_idx(remaining_words, g);
        let prior = self.priors[g];

        let two_level_bits: Option<u64> = if two_level {
            let tail = self.two_level_tail(g, remaining_words, &row);
            proof {
                assert(expected_bits as int <= MASS_MAX as int * (40 * 65536));
                assert(tail as int <= MASS_MAX as int * (40 * 65536)) by (nonlinear_arith)
                    requires
                        tail as int <= seq_sum(row@) * (40 * 65536),
                        0 <= seq_sum(row@) <= MASS_MAX as int,
                ;
            }
            Some(expected_bits + tail)
        } else {
            None
        };

        Ok(
            GuessEvaluation {
                word: *word,
                expected_bits,
                real_bits,
                groups,
                max_group_size,
                n_remaining_before: n_before,
                n_remaining_after,
                is_possible,
                prior,
                two_level_bits,
            },
        )
    }
}


impl Solver {
    /// A candidate set of a single word is perfectly uninformative: every
    /// guess produces one non-empty feedback group, so its entropy is zero.
    pub proof fn lemma_single_candidate_entropy_zero(self, g: int, remaining: Seq<usize>)
        requires
            self.wf(),
            self.valid_candidates(remaining),
            remaining.len() == 1,
            self.priors_seq()[remaining[0] as int] > 0,
        ensures
            self.guess_entropy(g, remaining) == 0,
    {
        let c = remaining[0] as int;
        let k0 = self.code_at(g, c);
        lemma_code_bounds(self.vocab(), g, c);
        let dist = self.dist_row(g, remaining);
        assert(remaining.drop_last().len() == 0);
        assert forall|k: int| 0 <= k < 243 implies #[trigger] dist[k] as int == self.bucket_mass(
            g,
            remaining,
            k,
        ) by {
            self.lemma_bucket_mass_bounds(g, remaining, k);
            crate::bits::lemma_sum_at_increasing(self.priors_seq(), remaining);
        }
        assert(remaining.last() == remaining[0]);
        assert(self.bucket_mass(g, remaining.drop_last(), k0) == 0);
        assert(self.bucket_mass(g, remaining, k0) == self.priors_seq()[c] as int);
        assert(dist[k0] > 0);
        assert forall|k: int| 0 <= k < 243 && k != k0 implies dist[k] == 0 by {
            assert(self.bucket_mass(g, remaining.drop_last(), k) == 0);
            assert(self.bucket_mass(g, remaining, k) == 0);
        }
        crate::bits::lemma_count_pos_delta(dist, k0);
        self.lemma_distribution_mass(g, remaining);
        assert(sum_at(self.priors_seq(), remaining.drop_last()) == 0);
        assert(sum_at(self.priors_seq(), remaining) == self.priors_seq()[c] as int);
        assert(seq_sum(dist) == self.priors_seq()[c] as int);
        crate::bits::lemma_entropy_zero_iff(dist);
    }
}

} // verus!
