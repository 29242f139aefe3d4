use vstd::prelude::*;
use vstd::std_specs::cmp::PartialEqSpec;
use vstd::std_specs::iter::IteratorSpec;

verus! {

/// What feeding one symbol to a matcher did.
#[derive(Debug, Clone, Copy, PartialEq, Eq, Structural)]
pub enum MatchResult {
    /// The symbol completed the pattern.
    Match,
    /// The symbol extended a partial match.
    Progress,
    /// The symbol did not fit; the match attempt starts over.
    Reset,
}

/// A matcher as a mathematical value.
///
/// Symbols are compared with the symbol type's own equality, `eq_spec`, which
/// need not be `==`.
pub struct MatchState<T> {
    /// The pattern that is looked for.
    pub word: Seq<T>,
    /// How many leading symbols of the pattern the most recent input has
    /// matched, one after the other.
    pub matched_len: nat,
}

impl<T: PartialEq> MatchState<T> {
    /// The pattern is not empty and the count does not run past its end.
    pub open spec fn wf(self) -> bool {
        0 < self.word.len() && self.matched_len <= self.word.len()
    }

    /// The state of a matcher that has seen no input.
    pub open spec fn fresh(word: Seq<T>) -> Self {
        MatchState { word, matched_len: 0 }
    }

    /// Whether the most recent symbol completed the pattern.
    pub open spec fn is_complete(self) -> bool {
        self.matched_len == self.word.len()
    }

    /// Index of the pattern symbol that the next input is compared with. A
    /// completed match starts over at the first symbol.
    pub open spec fn cursor(self) -> int {
        if self.matched_len >= self.word.len() {
            0
        } else {
            self.matched_len as int
        }
    }

    /// Whether `symbol` is the one the matcher waits for.
    pub open spec fn accepts(self, symbol: T) -> bool {
        symbol.eq_spec(&self.word[self.cursor()])
    }

    /// The state after `symbol` was fed.
    pub open spec fn step(self, symbol: T) -> Self {
        MatchState {
            word: self.word,
            matched_len: if self.accepts(symbol) {
                (self.cursor() + 1) as nat
            } else {
                0
            },
        }
    }

    /// What feeding `symbol` reports.
    pub open spec fn verdict(self, symbol: T) -> MatchResult {
        if !self.accepts(symbol) {
            MatchResult::Reset
        } else if self.step(symbol).is_complete() {
            MatchResult::Match
        } else {
            MatchResult::Progress
        }
    }

    /// The state after all of `symbols` were fed, first to last.
    pub open spec fn run(self, symbols: Seq<T>) -> Self
        decreases symbols.len(),
    {
        if symbols.len() == 0 {
            self
        } else {
            self.run(symbols.drop_last()).step(symbols.last())
        }
    }

    /// Whether, as `symbols` are fed, the one at index `i` completes the
    /// pattern.
    pub open spec fn matches_at(self, symbols: Seq<T>, i: int) -> bool {
        &&& 0 <= i < symbols.len()
        &&& self.run(symbols.take(i)).verdict(symbols[i]) == MatchResult::Match
    }

    /// Whether some symbol of `symbols` completes the pattern.
    pub open spec fn finds(self, symbols: Seq<T>) -> bool {
        exists|i: int| self.matches_at(symbols, i)
    }

    /// Whether the symbol at index `i` is the first of `symbols` to complete
    /// the pattern.
    pub open spec fn first_match_at(self, symbols: Seq<T>, i: int) -> bool {
        &&& self.matches_at(symbols, i)
        &&& forall|j: int| 0 <= j < i ==> !self.matches_at(symbols, j)
    }

    /// How many symbols are fed until the pattern is complete for the first
    /// time, the completing symbol included; all of them if none completes
    /// it.
    pub open spec fn skipped(self, symbols: Seq<T>) -> int {
        if self.finds(symbols) {
            (choose|i: int| self.first_match_at(symbols, i)) + 1
        } else {
            symbols.len() as int
        }
    }
}

/// What holds of every matcher, proved from the definitions above.
impl<T: PartialEq> MatchState<T> {
    /// Feeding one symbol more is one step more.
    ///
    /// `run` is defined from the last symbol backwards; this is the same
    /// fact read forwards, over the prefixes of `symbols`.
    pub proof fn lemma_run_next(self, symbols: Seq<T>, n: int)
        requires
            0 <= n < symbols.len(),
        ensures
            self.run(symbols.take(n + 1)) == self.run(symbols.take(n)).step(symbols[n]),
    {
        assert(symbols.take(n + 1).drop_last() =~= symbols.take(n));
    }

    /// Whatever is fed, the pattern stays and the count stays within it.
    pub proof fn lemma_run_wf(self, symbols: Seq<T>)
        requires
            self.wf(),
        ensures
            self.run(symbols).wf(),
            self.run(symbols).word == self.word,
        decreases symbols.len(),
    {
        if symbols.len() > 0 {
            self.lemma_run_wf(symbols.drop_last());
        }
    }

    /// What the count means: after `symbols` were fed to a matcher that had
    /// seen no input, the last `matched_len` of them are the leading symbols
    /// of the pattern, each equal to its counterpart.
    pub proof fn lemma_count_is_suffix(word: Seq<T>, symbols: Seq<T>)
        requires
            word.len() > 0,
        ensures
            ({
                let end = Self::fresh(word).run(symbols);
                &&& end.matched_len <= symbols.len()
                &&& end.matched_len <= word.len()
                &&& forall|k: int|
                    0 <= k < end.matched_len ==> symbols[symbols.len() - end.matched_len + k].eq_spec(
                        &#[trigger] word[k],
                    )
            }),
        decreases symbols.len(),
    {
        if symbols.len() > 0 {
            Self::lemma_count_is_suffix(word, symbols.drop_last());
            Self::fresh(word).lemma_run_wf(symbols.drop_last());
        }
    }

    /// A match is an occurrence: where the symbol at index `i` completes the
    /// pattern for a matcher that had seen no input, the symbols that end at
    /// `i` are the pattern, each equal to its counterpart.
    pub proof fn lemma_match_is_occurrence(word: Seq<T>, symbols: Seq<T>, i: int)
        requires
            word.len() > 0,
            Self::fresh(word).matches_at(symbols, i),
        ensures
            word.len() <= i + 1,
            forall|k: int|
                0 <= k < word.len() ==> symbols[i + 1 - word.len() + k].eq_spec(
                    &#[trigger] word[k],
                ),
    {
        let start = Self::fresh(word);
        start.lemma_run_next(symbols, i);
        start.lemma_run_wf(symbols.take(i));
        Self::lemma_count_is_suffix(word, symbols.take(i + 1));
    }

    /// An occurrence is matched where the matcher starts over: a matcher
    /// that waits for the first symbol of the pattern and is fed symbols
    /// equal to the pattern's, one for one, reports progress on each but the
    /// last and a match on the last, and counts one more with each.
    pub proof fn lemma_occurrence_is_matched(self, symbols: Seq<T>, n: int)
        requires
            self.wf(),
            self.cursor() == 0,
            0 <= n < self.word.len(),
            n < symbols.len(),
            forall|k: int| 0 <= k <= n ==> symbols[k].eq_spec(&#[trigger] self.word[k]),
        ensures
            self.run(symbols.take(n)).cursor() == n,
            self.run(symbols.take(n)).verdict(symbols[n]) == if n + 1 == self.word.len() {
                MatchResult::Match
            } else {
                MatchResult::Progress
            },
            self.run(symbols.take(n + 1)).matched_len == n + 1,
            self.run(symbols.take(n + 1)).word == self.word,
        decreases n,
    {
        if n > 0 {
            self.lemma_occurrence_is_matched(symbols, n - 1);
        }
        self.lemma_run_next(symbols, n);
    }

    /// A matcher that has seen no input and is fed its own pattern reports
    /// progress on every symbol but the last and a match on the last, and
    /// counts one more with each: after the last it has counted the whole
    /// pattern. This holds where each symbol of the pattern equals itself.
    pub proof fn lemma_own_pattern(word: Seq<T>, n: int)
        requires
            0 <= n < word.len(),
            forall|i: int| 0 <= i < word.len() ==> (#[trigger] word[i]).eq_spec(&word[i]),
        ensures
            Self::fresh(word).run(word.take(n)).matched_len == n,
            Self::fresh(word).run(word.take(n)).verdict(word[n]) == if n + 1 == word.len() {
                MatchResult::Match
            } else {
                MatchResult::Progress
            },
            Self::fresh(word).run(word.take(n + 1)).matched_len == n + 1,
    {
        Self::fresh(word).lemma_occurrence_is_matched(word, n);
    }

    /// There is one first match at most, and `skipped` counts up to and
    /// including it.
    pub proof fn lemma_first_match(self, symbols: Seq<T>, i: int)
        requires
            self.first_match_at(symbols, i),
        ensures
            self.finds(symbols),
            self.skipped(symbols) == i + 1,
    {
    }
}

/// Finds a fixed, non-empty pattern in a stream of symbols that arrive one at
/// a time, in constant memory.
///
/// The matcher borrows the pattern and keeps one count beside it. A symbol
/// that fits extends the count; one that does not sets it back to zero and is
/// dropped: it is not tried again as the start of a new occurrence. So an
/// occurrence that overlaps a failed attempt is missed: `"aab"` is not found
/// in `"aaab"`.
///
/// The view of a matcher is its [`MatchState`], and every contract below is
/// stated over that view.
pub struct Match<'a, T> {
    word: &'a [T],
    matched_len: usize,
}

impl<'a, T> View for Match<'a, T> {
    type V = MatchState<T>;

    closed spec fn view(&self) -> MatchState<T> {
        MatchState { word: self.word@, matched_len: self.matched_len as nat }
    }
}

impl<'a, T> Match<'a, T> {
    #[verifier::type_invariant]
    spec fn inv(self) -> bool {
        0 < self.word@.len() && self.matched_len <= self.word@.len()
    }
}

impl<'a, T: PartialEq> Match<'a, T> {
    /// A matcher for `word` that has seen no input. The pattern must not be
    /// empty.
    pub fn new(word: &'a [T]) -> (m: Self)
        requires
            word@.len() > 0,
        ensures
            m@ == MatchState::fresh(word@),
    {
        Match { word, matched_len: 0 }
    }

    /// Forgets the input seen so far: the matcher is again as `new` made it,
    /// for the same pattern.
    pub fn reset(&mut self)
        ensures
            final(self)@ == MatchState::fresh(old(self)@.word),
    {
        proof {
            use_type_invariant(&*self);
        }
        self.matched_len = 0;
    }

    /// Feeds one symbol and says what it did.
    ///
    /// After a completed match the count starts over by itself, so the next
    /// symbol is compared with the first symbol of the pattern.
    ///
    /// The count after the call follows from the result alone. Which result
    /// it is follows from the model where the symbol type's `==` computes its
    /// `eq_spec`.
    pub fn add(&mut self, b: T) -> (r: MatchResult)
        ensures
            final(self)@.wf(),
            final(self)@.word == old(self)@.word,
            final(self)@.matched_len == if r == MatchResult::Reset {
                0
            } else {
                old(self)@.cursor() + 1
            },
            (r == MatchResult::Match) == final(self)@.is_complete(),
            T::obeys_eq_spec() ==> r == old(self)@.verdict(b),
            T::obeys_eq_spec() ==> final(self)@ == old(self)@.step(b),
    {
        proof {
            use_type_invariant(&*self);
        }
        if self.word.len() <= self.matched_len {
            self.matched_len = 0;
        }
        if b == self.word[self.matched_len] {
            self.matched_len += 1;
            if self.word.len() == self.matched_len {
                return MatchResult::Match;
            }
            return MatchResult::Progress;
        } else {
            self.matched_len = 0;
            return MatchResult::Reset;
        }
    }

    /// Feeds symbols from `input` until one completes the pattern or `input`
    /// is exhausted, and says whether the pattern was completed.
    ///
    /// No symbol is drawn after the one that completes the pattern: `input`
    /// is left right behind the match, and the matcher in its completed
    /// state. Where the pattern is not completed, `input` is exhausted.
    ///
    /// `input` must be a source that ends.
    pub fn skip_in<I: Iterator<Item = T>>(&mut self, input: &mut I) -> (found: bool)
        requires
            I::obeys_prophetic_iter_laws(old(input)),
            I::decrease(old(input)) is Some,
        ensures
            final(self)@.wf(),
            final(self)@.word == old(self)@.word,
            I::obeys_prophetic_iter_laws(final(input)),
            I::decrease(final(input)) is Some,
            found ==> final(self)@.is_complete(),
            !found ==> I::remaining(final(input)).len() == 0,
            T::obeys_eq_spec() ==> ({
                let symbols = I::remaining(old(input));
                let n = old(self)@.skipped(symbols);
                &&& found == old(self)@.finds(symbols)
                &&& final(self)@ == old(self)@.run(symbols.take(n))
                &&& I::remaining(final(input)) == symbols.skip(n)
            }),
    {
        proof {
            use_type_invariant(&*self);
        }
        let ghost start = self@;
        let ghost symbols = I::remaining(input);
        let ghost mut n: int = 0;
        loop
            invariant
                start == old(self)@,
                symbols == I::remaining(old(input)),
                I::obeys_prophetic_iter_laws(input),
                I::decrease(input) is Some,
                0 <= n <= symbols.len(),
                I::remaining(input) == symbols.skip(n),
                self@.word == start.word,
                self@.wf(),
                T::obeys_eq_spec() ==> self@ == start.run(symbols.take(n)),
                T::obeys_eq_spec() ==> forall|j: int| 0 <= j < n ==> !start.matches_at(symbols, j),
            decreases I::decrease(input)->0,
        {
            match input.next() {
                None => {
                    return false;
                },
                Some(b) => {
                    let r = self.add(b);
                    proof {
                        start.lemma_run_next(symbols, n);
                        if r == MatchResult::Match && T::obeys_eq_spec() {
                            start.lemma_first_match(symbols, n);
                        }
                        n = n + 1;
                    }
                    if r == MatchResult::Match {
                        return true;
                    }
                },
            }
        }
    }

    /// Feeds every symbol of `input`, and says whether one of them completed
    /// the pattern.
    ///
    /// A match does not end the scan: `input` is always exhausted, and the
    /// matcher is left as all of its symbols, fed one by one, leave it.
    ///
    /// `input` must be a source that ends.
    pub fn find_in<I: Iterator<Item = T>>(&mut self, input: &mut I) -> (found: bool)
        requires
            I::obeys_prophetic_iter_laws(old(input)),
            I::decrease(old(input)) is Some,
        ensures
            final(self)@.wf(),
            final(self)@.word == old(self)@.word,
            I::obeys_prophetic_iter_laws(final(input)),
            I::decrease(final(input)) is Some,
            I::remaining(final(input)).len() == 0,
            T::obeys_eq_spec() ==> ({
                let symbols = I::remaining(old(input));
                &&& found == old(self)@.finds(symbols)
                &&& final(self)@ == old(self)@.run(symbols)
            }),
    {
        proof {
            use_type_invariant(&*self);
        }
        let ghost start = self@;
        let ghost symbols = I::remaining(input);
        let ghost mut n: int = 0;
        let mut found = false;
        loop
            invariant
                start == old(self)@,
                symbols == I::remaining(old(input)),
                I::obeys_prophetic_iter_laws(input),
                I::decrease(input) is Some,
                0 <= n <= symbols.len(),
                I::remaining(input) == symbols.skip(n),
                self@.word == start.word,
                self@.wf(),
                T::obeys_eq_spec() ==> self@ == start.run(symbols.take(n)),
                T::obeys_eq_spec() ==> (found <==> exists|j: int|
                    0 <= j < n && start.matches_at(symbols, j)),
            decreases I::decrease(input)->0,
        {
            match input.next() {
                None => {
                    proof {
                        assert(symbols.take(n) =~= symbols);
                    }
                    return found;
                },
                Some(b) => {
                    let r = self.add(b);
                    proof {
                        start.lemma_run_next(symbols, n);
                        assert(T::obeys_eq_spec() ==> start.matches_at(symbols, n) == (r
                            == MatchResult::Match));
                        n = n + 1;
                    }
                    if r == MatchResult::Match {
                        found = true;
                    }
                },
            }
        }
    }
}

} // verus!
