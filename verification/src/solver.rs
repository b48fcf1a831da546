//! The candidate set of a game and the bookkeeping of the guess selector:
//! which words are still possible, which of them are to be scored, what each
//! hypothetical guess would reveal, and which scored word wins.

use crate::cache::FeedbackCache;
use crate::correctness::{feedback, is_word, Correctness};
use crate::dictionary::{all_words, entry_words, same_word, valid_word, Entry};
use crate::guess::{is_consistent, Guess};
use crate::pattern::{enumerate_mask, lemma_mask_index_injective, mask_index};
use vstd::prelude::*;
use vstd::string::StringExecFns;

verus! {

/// What is tuned by experience rather than derived: the first guess and how
/// many candidates are scored on a turn.
#[derive(Debug, Clone)]
pub struct Tuning {
    /// The word guessed before anything is known.
    pub opener: String,
    /// Of a large candidate set, one part in this many is scored.
    pub divisor: usize,
    /// At least this many candidates are scored, where there are that many.
    pub floor: usize,
}

impl Tuning {
    /// The opener is a word, the divisor is not zero and at least one
    /// candidate is scored.
    pub open spec fn wf(&self) -> bool {
        &&& is_word(self.opener@)
        &&& self.divisor >= 1
        &&& self.floor >= 1
    }

    /// How many of `len` candidates are scored: a `divisor`-th of them, but
    /// at least `floor`, and never more than there are.
    pub open spec fn limit(&self, len: nat) -> nat {
        let share = len / (self.divisor as nat);
        let wanted = if share < self.floor {
            self.floor as nat
        } else {
            share
        };
        if wanted < len {
            wanted
        } else {
            len
        }
    }

    /// Tells whether a solver can be made with this tuning.
    pub fn valid(&self) -> (valid: bool)
        ensures
            valid == self.wf(),
    {
        valid_word(self.opener.as_str()) && self.divisor >= 1 && self.floor >= 1
    }
}

impl Default for Tuning {
    /// Opens with "tares" and scores a third of the candidates, at least 20.
    fn default() -> (tuning: Tuning)
        ensures
            tuning.wf(),
            tuning.opener@ == "tares"@,
            tuning.divisor == 3,
            tuning.floor == 20,
    {
        proof {
            reveal_strlit("tares");
        }
        Tuning { opener: String::from_str("tares"), divisor: 3, floor: 20 }
    }
}

/// The sum of the counts of a list of entries.
pub open spec fn total_count(entries: Seq<Entry>) -> nat
    decreases entries.len(),
{
    if entries.len() == 0 {
        0
    } else {
        total_count(entries.drop_last()) + entries.last().count as nat
    }
}

/// No entry is used more often than one that stands before it.
pub open spec fn ranked(entries: Seq<Entry>) -> bool {
    forall|i: int, j: int|
        0 <= i <= j < entries.len() ==> (#[trigger] entries[i]).count >= (
        #[trigger] entries[j]).count
}

/// Every index is larger than the one before it.
pub open spec fn ascending(indices: Seq<usize>) -> bool {
    forall|i: int, j: int| 0 <= i < j < indices.len() ==> #[trigger] indices[i] < #[trigger] indices[j]
}

/// `<[T]>::sort_unstable_by_key`, keyed by the count in reverse: the entries
/// are rearranged so that no count is followed by a larger one. Which of two
/// entries with the same count comes first is left open.
#[verifier::external_body]
fn sort_by_count(entries: &mut Vec<Entry>)
    ensures
        final(entries)@.to_multiset() == old(entries)@.to_multiset(),
        ranked(final(entries)@),
{
    entries.sort_unstable_by_key(|entry| std::cmp::Reverse(entry.count));
}

/// A rearrangement of words holds words only, and as many as before.
proof fn lemma_rearranged_words(before: Seq<Entry>, after: Seq<Entry>)
    requires
        all_words(before),
        after.to_multiset() == before.to_multiset(),
    ensures
        all_words(after),
        after.len() == before.len(),
{
    before.to_multiset_ensures();
    after.to_multiset_ensures();
    assert forall|i: int| 0 <= i < after.len() implies is_word(#[trigger] after[i].word@) by {
        assert(after.contains(after[i]));
        assert(before.to_multiset().count(after[i]) > 0);
        assert(before.contains(after[i]));
        let k = choose|k: int| 0 <= k < before.len() && before[k] == after[i];
        assert(is_word(before[k].word@));
    }
}

/// The solver's view of one game: the dictionary by rank, and the ranks of
/// the words that every mask seen so far allows.
pub struct Solver {
    entries: Vec<Entry>,
    remaining: Vec<usize>,
    computes: FeedbackCache,
    total: u128,
    tuning: Tuning,
}

impl Solver {
    /// The dictionary, most used word first. The place of an entry in it is
    /// its stable index.
    pub closed spec fn dictionary(&self) -> Seq<Entry> {
        self.entries@
    }

    /// The stable indices of the words that are still possible, in rising
    /// order.
    pub closed spec fn candidates(&self) -> Seq<usize> {
        self.remaining@
    }

    /// The tuning that the solver was made with.
    pub closed spec fn tuning(&self) -> Tuning {
        self.tuning
    }

    /// The sum of the counts of the whole dictionary.
    pub closed spec fn total(&self) -> nat {
        self.total as nat
    }

    /// The word of the candidate at `pos`.
    pub open spec fn candidate_word(&self, pos: int) -> Seq<char> {
        self.dictionary()[self.candidates()[pos] as int].word@
    }

    /// The dictionary holds words, ranked by count; the candidates are
    /// entries of it, in rank order; the cache belongs to this dictionary.
    pub closed spec fn wf(&self) -> bool {
        &&& all_words(self.entries@)
        &&& ranked(self.entries@)
        &&& ascending(self.remaining@)
        &&& forall|i: int|
            0 <= i < self.remaining@.len() ==> #[trigger] self.remaining@[i] < self.entries@.len()
        &&& self.computes.wf(entry_words(self.entries@))
        &&& self.total == total_count(self.entries@)
        &&& self.tuning.wf()
    }

    /// What `wf` says of the candidates.
    pub proof fn lemma_candidates(&self)
        requires
            self.wf(),
        ensures
            all_words(self.dictionary()),
            ranked(self.dictionary()),
            ascending(self.candidates()),
            self.tuning().wf(),
            self.total() == total_count(self.dictionary()),
            forall|i: int|
                0 <= i < self.candidates().len() ==> #[trigger] self.candidates()[i]
                    < self.dictionary().len(),
    {
    }

    /// A solver for a new game over `dictionary`, with the standard tuning.
    pub fn new(dictionary: Vec<Entry>) -> (solver: Solver)
        requires
            all_words(dictionary@),
            dictionary@.len() * dictionary@.len() <= usize::MAX,
        ensures
            solver.wf(),
            solver.dictionary().to_multiset() == dictionary@.to_multiset(),
            solver.candidates() == Seq::new(dictionary@.len(), |i: int| i as usize),
            solver.tuning().opener@ == "tares"@,
            solver.tuning().divisor == 3,
            solver.tuning().floor == 20,
    {
        Solver::with_tuning(dictionary, Tuning::default())
    }

    /// A solver for a new game over `dictionary`: the entries are ranked by
    /// count, most used first, every one of them is a candidate, and no
    /// feedback has been computed yet.
    pub fn with_tuning(dictionary: Vec<Entry>, tuning: Tuning) -> (solver: Solver)
        requires
            all_words(dictionary@),
            dictionary@.len() * dictionary@.len() <= usize::MAX,
            tuning.wf(),
        ensures
            solver.wf(),
            solver.dictionary().to_multiset() == dictionary@.to_multiset(),
            solver.candidates() == Seq::new(dictionary@.len(), |i: int| i as usize),
            solver.tuning() == tuning,
    {
        let mut entries = dictionary;
        sort_by_count(&mut entries);
        proof {
            lemma_rearranged_words(dictionary@, entries@);
        }
        let dimension = entries.len();

        let mut total: u128 = 0;
        let mut remaining: Vec<usize> = Vec::with_capacity(dimension);
        let mut i: usize = 0;
        while i < dimension
            invariant
                i <= dimension,
                dimension == entries@.len(),
                total == total_count(entries@.take(i as int)),
                total <= i * 0xffff_ffff_ffff_ffff,
                remaining@ == Seq::new(i as nat, |k: int| k as usize),
            decreases dimension - i,
        {
            proof {
                assert(entries@.take(i + 1).drop_last() =~= entries@.take(i as int));
                assert(entries@.take(i + 1).last() == entries@[i as int]);
            }
            total = total + entries[i].count as u128;
            remaining.push(i);
            i += 1;
            assert(remaining@ =~= Seq::new(i as nat, |k: int| k as usize));
        }
        proof {
            assert(entries@.take(dimension as int) =~= entries@);
        }
        let computes = FeedbackCache::new(dimension);
        proof {
            assert(entry_words(entries@).len() == dimension);
            assert(computes.wf(entry_words(entries@)));
        }
        Solver { entries, remaining, computes, total, tuning }
    }

    /// Starts a new game over the same dictionary: every entry is a
    /// candidate again, and the feedback computed so far is kept.
    pub fn restart(&mut self)
        requires
            old(self).wf(),
        ensures
            final(self).wf(),
            final(self).dictionary() == old(self).dictionary(),
            final(self).tuning() == old(self).tuning(),
            final(self).total() == old(self).total(),
            final(self).candidates() == Seq::new(
                old(self).dictionary().len(),
                |i: int| i as usize,
            ),
    {
        let dimension = self.entries.len();
        let mut remaining: Vec<usize> = Vec::with_capacity(dimension);
        let mut i: usize = 0;
        while i < dimension
            invariant
                i <= dimension,
                remaining@ == Seq::new(i as nat, |k: int| k as usize),
            decreases dimension - i,
        {
            remaining.push(i);
            i += 1;
            assert(remaining@ =~= Seq::new(i as nat, |k: int| k as usize));
        }
        self.remaining = remaining;
    }

    /// The number of words that are still possible.
    pub fn len(&self) -> (len: usize)
        ensures
            len == self.candidates().len(),
    {
        self.remaining.len()
    }

    /// The sum of the counts of the whole dictionary, by which the weight of
    /// a word is taken from its count.
    pub fn total_count(&self) -> (total: u128)
        ensures
            total == self.total(),
    {
        self.total
    }

    /// The stable index of the candidate at `pos`.
    pub fn stable_index(&self, pos: usize) -> (index: usize)
        requires
            pos < self.candidates().len(),
        ensures
            index == self.candidates()[pos as int],
    {
        self.remaining[pos]
    }

    /// The entry of the candidate at `pos`.
    pub fn candidate(&self, pos: usize) -> (entry: &Entry)
        requires
            self.wf(),
            pos < self.candidates().len(),
        ensures
            *entry == self.dictionary()[self.candidates()[pos as int] as int],
            entry.word@ == self.candidate_word(pos as int),
            is_word(entry.word@),
    {
        &self.entries[self.remaining[pos]]
    }

    /// The word that is guessed before anything is known.
    pub fn opener(&self) -> (word: String)
        ensures
            word@ == self.tuning().opener@,
    {
        self.tuning.opener.clone()
    }

    /// The stable index of `word`: the place of the first entry of the
    /// dictionary that holds it, if there is one.
    pub fn find(&self, word: &str) -> (found: Option<usize>)
        requires
            self.wf(),
            is_word(word@),
        ensures
            match found {
                Some(index) => {
                    &&& index < self.dictionary().len()
                    &&& self.dictionary()[index as int].word@ == word@
                    &&& forall|k: int| 0 <= k < index ==> self.dictionary()[k].word@ != word@
                },
                None => forall|k: int|
                    0 <= k < self.dictionary().len() ==> self.dictionary()[k].word@ != word@,
            },
    {
        let mut i: usize = 0;
        while i < self.entries.len()
            invariant
                i <= self.entries@.len(),
                is_word(word@),
                all_words(self.entries@),
                forall|k: int| 0 <= k < i ==> self.entries@[k].word@ != word@,
            decreases self.entries@.len() - i,
        {
            if same_word(self.entries[i].word.as_str(), word) {
                return Some(i);
            }
            i += 1;
        }
        None
    }

    /// Drops every candidate that the newest record rules out: a word stays
    /// exactly if guessing `last.word` against it earns `last.mask`.
    ///
    /// For a guess from the dictionary the masks come from the cache, which
    /// is filled on the way; for any other guess each candidate is tested
    /// directly.
    pub fn narrow(&mut self, last: &Guess)
        requires
            old(self).wf(),
            is_word(last.word@),
        ensures
            final(self).wf(),
            final(self).dictionary() == old(self).dictionary(),
            final(self).tuning() == old(self).tuning(),
            final(self).total() == old(self).total(),
            final(self).candidates() == old(self).candidates().filter(
                allowed(old(self).dictionary(), last.word@, last.mask@),
            ),
    {
        let reference = enumerate_mask(&last.mask) as u8;
        let row = self.find(last.letters());
        let ghost keeps = allowed(self.entries@, last.word@, last.mask@);
        let mut kept: Vec<usize> = Vec::new();
        let mut k: usize = 0;
        while k < self.remaining.len()
            invariant
                self.wf(),
                self.entries@ == old(self).entries@,
                self.remaining@ == old(self).remaining@,
                self.tuning == old(self).tuning,
                self.total == old(self).total,
                is_word(last.word@),
                k <= self.remaining@.len(),
                keeps == allowed(self.entries@, last.word@, last.mask@),
                reference == mask_index(last.mask@),
                row matches Some(r) ==> r < self.entries@.len() && self.entries@[r as int].word@
                    == last.word@,
                kept@ == self.remaining@.take(k as int).filter(keeps),
                ascending(kept@),
                forall|i: int|
                    0 <= i < kept@.len() ==> #[trigger] kept@[i] < self.entries@.len() && (k
                        < self.remaining@.len() ==> kept@[i] < self.remaining@[k as int]),
            decreases self.remaining@.len() - k,
        {
            let index = self.remaining[k];
            let ghost word = self.entries@[index as int].word@;
            proof {
                assert(is_word(word));
                assert(entry_words(self.entries@)[index as int] == word);
            }
            let keep = match row {
                Some(last_index) => {
                    let seen = self.computes.enumeration(&self.entries, last_index, index);
                    proof {
                        if seen == reference {
                            lemma_mask_index_injective(feedback(word, last.word@), last.mask@);
                        }
                    }
                    reference == seen
                },
                None => last.matches(self.entries[index].word.as_str()),
            };
            proof {
                assert(keep == keeps(index));
                assert(self.remaining@.take(k + 1) =~= self.remaining@.take(k as int).push(index));
                self.remaining@.take(k as int).lemma_filter_push(index, keeps);
            }
            if keep {
                kept.push(index);
            }
            k += 1;
        }
        proof {
            assert(self.remaining@.take(k as int) =~= self.remaining@);
        }
        self.remaining = kept;
    }

    /// How many candidates, from the most used down, are scored on this
    /// turn.
    pub fn evaluation_limit(&self) -> (limit: usize)
        requires
            self.wf(),
        ensures
            limit == self.tuning().limit(self.candidates().len()),
            limit <= self.candidates().len(),
    {
        let len = self.remaining.len();
        let share = len / self.tuning.divisor;
        let wanted = if share < self.tuning.floor {
            self.tuning.floor
        } else {
            share
        };
        if wanted < len {
            wanted
        } else {
            len
        }
    }

    /// What guessing the candidate at `pos` would reveal: for each candidate,
    /// in order, the index of the mask that the guess would earn if that
    /// candidate were the answer. Candidates with the same index cannot be
    /// told apart by the guess.
    pub fn outcomes(&mut self, pos: usize) -> (row: Vec<u8>)
        requires
            old(self).wf(),
            pos < old(self).candidates().len(),
        ensures
            final(self).wf(),
            final(self).dictionary() == old(self).dictionary(),
            final(self).candidates() == old(self).candidates(),
            final(self).tuning() == old(self).tuning(),
            final(self).total() == old(self).total(),
            row@.len() == old(self).candidates().len(),
            forall|j: int|
                0 <= j < row@.len() ==> #[trigger] row@[j] == mask_index(
                    feedback(old(self).candidate_word(j), old(self).candidate_word(pos as int)),
                ),
    {
        let guess_index = self.remaining[pos];
        let mut row: Vec<u8> = Vec::with_capacity(self.remaining.len());
        let mut j: usize = 0;
        while j < self.remaining.len()
            invariant
                self.wf(),
                self.entries@ == old(self).entries@,
                self.remaining@ == old(self).remaining@,
                self.tuning == old(self).tuning,
                self.total == old(self).total,
                pos < self.remaining@.len(),
                guess_index == self.remaining@[pos as int],
                j <= self.remaining@.len(),
                row@.len() == j,
                forall|i: int|
                    0 <= i < j ==> #[trigger] row@[i] == mask_index(
                        feedback(
                            self.entries@[self.remaining@[i] as int].word@,
                            self.entries@[guess_index as int].word@,
                        ),
                    ),
            decreases self.remaining@.len() - j,
        {
            let index = self.remaining[j];
            let seen = self.computes.enumeration(&self.entries, guess_index, index);
            row.push(seen);
            j += 1;
        }
        row
    }

    /// The word that wins the turn: of the candidates that were scored, the
    /// first one with the least key. `keys` holds one key for each of the
    /// first candidates, in order; a smaller key stands for a better score.
    pub fn pick(&self, keys: &Vec<u64>) -> (word: Option<String>)
        requires
            self.wf(),
            keys@.len() <= self.candidates().len(),
        ensures
            word is None <==> keys@.len() == 0,
            word matches Some(w) ==> exists|best: int|
                is_first_minimum(keys@, best) && w@ == self.candidate_word(best),
    {
        match first_minimum(keys) {
            Some(best) => {
                let entry = self.candidate(best);
                Some(entry.word.clone())
            },
            None => None,
        }
    }

    /// Opens a turn. With no record yet nothing changes and the opener is
    /// the guess; otherwise the candidates are narrowed by the newest record
    /// and the guess is still to be chosen.
    pub fn begin_turn(&mut self, history: &[Guess]) -> (guess: Option<String>)
        requires
            old(self).wf(),
            history@.len() > 0 ==> is_word(history@.last().word@),
        ensures
            final(self).wf(),
            final(self).dictionary() == old(self).dictionary(),
            final(self).tuning() == old(self).tuning(),
            final(self).total() == old(self).total(),
            history@.len() == 0 ==> final(self).candidates() == old(self).candidates() && (
            guess matches Some(w) && w@ == old(self).tuning().opener@),
            history@.len() > 0 ==> guess is None && final(self).candidates() == old(
                self,
            ).candidates().filter(
                allowed(old(self).dictionary(), history@.last().word@, history@.last().mask@),
            ),
    {
        match history.last() {
            Some(last) => {
                self.narrow(last);
                None
            },
            None => Some(self.opener()),
        }
    }
}

/// The test that `narrow` puts to a stable index: the word that stands there
/// is consistent with `guess` having earned `mask`.
pub open spec fn allowed(dictionary: Seq<Entry>, guess: Seq<char>, mask: Seq<Correctness>)
    -> spec_fn(usize) -> bool {
    |index: usize| is_consistent(dictionary[index as int].word@, guess, mask)
}

/// The words that stand at the stable indices `candidates`.
pub open spec fn words_at(dictionary: Seq<Entry>, candidates: Seq<usize>) -> Set<Seq<char>> {
    Set::new(
        |word: Seq<char>|
            exists|pos: int|
                0 <= pos < candidates.len() && dictionary[candidates[pos] as int].word@ == word,
    )
}

/// Narrowing keeps exactly those candidate words against which the guess
/// earns the mask.
pub proof fn lemma_narrowed_words(
    dictionary: Seq<Entry>,
    candidates: Seq<usize>,
    guess: Seq<char>,
    mask: Seq<Correctness>,
)
    ensures
        words_at(dictionary, candidates.filter(allowed(dictionary, guess, mask))) == words_at(
            dictionary,
            candidates,
        ).intersect(Set::new(|word: Seq<char>| feedback(word, guess) == mask)),
{
    let keeps = allowed(dictionary, guess, mask);
    let kept = candidates.filter(keeps);
    let before = words_at(dictionary, candidates);
    let after = words_at(dictionary, kept);
    let fitting = Set::new(|word: Seq<char>| feedback(word, guess) == mask);
    assert forall|word: Seq<char>| after.contains(word) == before.intersect(fitting).contains(
        word,
    ) by {
        if after.contains(word) {
            let pos = choose|pos: int|
                0 <= pos < kept.len() && dictionary[kept[pos] as int].word@ == word;
            candidates.lemma_filter_pred(keeps, pos);
            assert(kept.contains(kept[pos]));
            candidates.lemma_filter_contains_rev(keeps, kept[pos]);
            let at = choose|at: int| 0 <= at < candidates.len() && candidates[at] == kept[pos];
            assert(dictionary[candidates[at] as int].word@ == word);
        }
        if before.intersect(fitting).contains(word) {
            let at = choose|at: int|
                0 <= at < candidates.len() && dictionary[candidates[at] as int].word@ == word;
            assert(keeps(candidates[at]));
            candidates.lemma_filter_contains(keeps, at);
            let pos = choose|pos: int| 0 <= pos < kept.len() && kept[pos] == candidates[at];
            assert(dictionary[kept[pos] as int].word@ == word);
        }
    }
    assert(after =~= before.intersect(fitting));
}

/// The candidates that are left of `candidates` when they have been narrowed
/// by each record of `history` in turn. A record is a guessed word and the
/// mask it was answered with.
pub open spec fn narrowed(
    dictionary: Seq<Entry>,
    candidates: Seq<usize>,
    history: Seq<(Seq<char>, Seq<Correctness>)>,
) -> Seq<usize>
    decreases history.len(),
{
    if history.len() == 0 {
        candidates
    } else {
        narrowed(dictionary, candidates, history.drop_last()).filter(
            allowed(dictionary, history.last().0, history.last().1),
        )
    }
}

/// After any number of turns the candidates are exactly the entries that
/// every record so far is consistent with.
pub proof fn lemma_narrowed_by_history(
    dictionary: Seq<Entry>,
    candidates: Seq<usize>,
    history: Seq<(Seq<char>, Seq<Correctness>)>,
    index: usize,
)
    ensures
        narrowed(dictionary, candidates, history).contains(index) <==> (candidates.contains(index)
            && forall|k: int|
            0 <= k < history.len() ==> is_consistent(
                dictionary[index as int].word@,
                (#[trigger] history[k]).0,
                history[k].1,
            )),
    decreases history.len(),
{
    if history.len() > 0 {
        let earlier = history.drop_last();
        let before = narrowed(dictionary, candidates, earlier);
        let keeps = allowed(dictionary, history.last().0, history.last().1);
        lemma_narrowed_by_history(dictionary, candidates, earlier, index);
        if before.filter(keeps).contains(index) {
            before.lemma_filter_contains_rev(keeps, index);
            let pos = choose|pos: int|
                0 <= pos < before.filter(keeps).len() && before.filter(keeps)[pos] == index;
            before.lemma_filter_pred(keeps, pos);
            assert forall|k: int| 0 <= k < history.len() implies is_consistent(
                dictionary[index as int].word@,
                (#[trigger] history[k]).0,
                history[k].1,
            ) by {
                if k < history.len() - 1 {
                    assert(history[k] == earlier[k]);
                }
            }
        }
        if candidates.contains(index) && forall|k: int|
            0 <= k < history.len() ==> is_consistent(
                dictionary[index as int].word@,
                (#[trigger] history[k]).0,
                history[k].1,
            ) {
            assert forall|k: int| 0 <= k < earlier.len() implies is_consistent(
                dictionary[index as int].word@,
                (#[trigger] earlier[k]).0,
                earlier[k].1,
            ) by {
                assert(earlier[k] == history[k]);
            }
            assert(before.contains(index));
            let at = choose|at: int| 0 <= at < before.len() && before[at] == index;
            assert(keeps(before[at])) by {
                assert(history[history.len() - 1] == history.last());
            }
            before.lemma_filter_contains(keeps, at);
        }
    }
}

/// `best` is the place of the least key, and the first place that holds it.
pub open spec fn is_first_minimum(keys: Seq<u64>, best: int) -> bool {
    &&& 0 <= best < keys.len()
    &&& forall|j: int| 0 <= j < keys.len() ==> keys[best] <= #[trigger] keys[j]
    &&& forall|j: int| 0 <= j < best ==> keys[best] < #[trigger] keys[j]
}

/// The place of the least key; of several places that hold it, the first.
/// There is none only among no keys at all.
pub fn first_minimum(keys: &Vec<u64>) -> (best: Option<usize>)
    ensures
        best is None <==> keys@.len() == 0,
        best matches Some(b) ==> is_first_minimum(keys@, b as int),
{
    if keys.len() == 0 {
        return None;
    }
    let mut best: usize = 0;
    let mut i: usize = 1;
    while i < keys.len()
        invariant
            1 <= i <= keys@.len(),
            is_first_minimum(keys@.take(i as int), best as int),
        decreases keys@.len() - i,
    {
        // Which one has the smaller key? The earlier one keeps a tie.
        if keys[i] < keys[best] {
            best = i;
        }
        i += 1;
    }
    proof {
        assert(keys@.take(i as int) =~= keys@);
    }
    Some(best)
}

} // verus!
