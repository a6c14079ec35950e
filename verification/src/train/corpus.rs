//! Corpus processing for training: the words of a corpus line, and word
//! frequencies.

use vstd::prelude::*;
use vstd::utf8::is_ascii_chars;
use crate::chars::views;
use crate::normalize::{nfc_of, normalize_nfc};
use crate::pre_tokenize::{pre_tokenize_bert, split_cjk};
use crate::pre_tokenize::bert::spec_pre_tokenize_bert;
use crate::pre_tokenize::unicode::spec_split_cjk;

verus! {

/// The words that a normalized corpus line contributes: BERT-style
/// pre-tokenization (optionally lowercased), then CJK splitting.
pub open spec fn spec_line_words(normalized: Seq<char>, lowercase: bool) -> Seq<Seq<char>> {
    spec_split_cjk(spec_pre_tokenize_bert(normalized, lowercase))
}

/// The words of a line that is already in NFC form.
pub fn words_of_normalized(text: &str, lowercase: bool) -> (r: Vec<String>)
    ensures
        views(r@) == spec_line_words(text@, lowercase),
{
    let tokens = pre_tokenize_bert(text, lowercase);
    split_cjk(tokens)
}

/// The words of a corpus line: NFC normalization, pre-tokenization,
/// CJK splitting.
pub fn corpus_line_words(line: &str, lowercase: bool) -> (r: Vec<String>)
    ensures
        views(r@) == spec_line_words(nfc_of(line@), lowercase),
        is_ascii_chars(line@) ==> views(r@) == spec_line_words(line@, lowercase),
{
    let normalized = normalize_nfc(line);
    words_of_normalized(normalized.as_str(), lowercase)
}

/// The count recorded for `w`, if any.
pub open spec fn spec_get(entries: Seq<(Seq<char>, usize)>, w: Seq<char>) -> Option<usize> {
    if exists|i: int| 0 <= i < entries.len() && entries[i].0 == w {
        Some(entries[choose|i: int| 0 <= i < entries.len() && entries[i].0 == w].1)
    } else {
        None
    }
}

/// The entries after setting the count of `w` to `n`: in place where `w`
/// is recorded, appended otherwise.
pub open spec fn spec_insert(entries: Seq<(Seq<char>, usize)>, w: Seq<char>, n: usize) -> Seq<
    (Seq<char>, usize),
> {
    if exists|i: int| 0 <= i < entries.len() && entries[i].0 == w {
        entries.update(choose|i: int| 0 <= i < entries.len() && entries[i].0 == w, (w, n))
    } else {
        entries.push((w, n))
    }
}

/// No word is recorded twice.
pub open spec fn distinct_words(entries: Seq<(Seq<char>, usize)>) -> bool {
    forall|i: int, j: int| 0 <= i < j < entries.len() ==> entries[i].0 != entries[j].0
}

/// Reading a count back after setting it: the word has the count that
/// was set, every other word keeps its count, and no word is recorded
/// twice.
pub proof fn lemma_get_after_insert(
    entries: Seq<(Seq<char>, usize)>,
    w: Seq<char>,
    n: usize,
    other: Seq<char>,
)
    requires
        distinct_words(entries),
    ensures
        spec_get(spec_insert(entries, w, n), w) == Some(n),
        other != w ==> spec_get(spec_insert(entries, w, n), other) == spec_get(entries, other),
        distinct_words(spec_insert(entries, w, n)),
{
    let r = spec_insert(entries, w, n);
    if exists|i: int| 0 <= i < entries.len() && entries[i].0 == w {
        let k = choose|i: int| 0 <= i < entries.len() && entries[i].0 == w;
        assert(r[k] == (w, n));
        let kw = choose|i: int| 0 <= i < r.len() && r[i].0 == w;
        assert(kw == k);
        if other != w && exists|i: int| 0 <= i < entries.len() && entries[i].0 == other {
            let ko = choose|i: int| 0 <= i < entries.len() && entries[i].0 == other;
            assert(r[ko] == entries[ko]);
            let ko2 = choose|i: int| 0 <= i < r.len() && r[i].0 == other;
            assert(ko2 == ko);
        }
        if other != w && exists|i: int| 0 <= i < r.len() && r[i].0 == other {
            let ko2 = choose|i: int| 0 <= i < r.len() && r[i].0 == other;
            assert(entries[ko2].0 == other);
        }
    } else {
        assert(r[entries.len() as int] == (w, n));
        let kw = choose|i: int| 0 <= i < r.len() && r[i].0 == w;
        if kw < entries.len() {
            assert(r[kw] == entries[kw]);
        }
        if other != w && exists|i: int| 0 <= i < entries.len() && entries[i].0 == other {
            let ko = choose|i: int| 0 <= i < entries.len() && entries[i].0 == other;
            assert(r[ko] == entries[ko]);
            let ko2 = choose|i: int| 0 <= i < r.len() && r[i].0 == other;
            if ko2 < entries.len() {
                assert(r[ko2] == entries[ko2]);
            }
        }
        if other != w && exists|i: int| 0 <= i < r.len() && r[i].0 == other {
            let ko2 = choose|i: int| 0 <= i < r.len() && r[i].0 == other;
            assert(entries[ko2].0 == other);
        }
    }
}

/// The count of `w`, zero where it is not recorded.
pub open spec fn count_or_zero(entries: Seq<(Seq<char>, usize)>, w: Seq<char>) -> nat {
    match spec_get(entries, w) {
        Some(n) => n as nat,
        None => 0,
    }
}

/// The entries after counting one more occurrence of `w`.
pub open spec fn spec_record(entries: Seq<(Seq<char>, usize)>, w: Seq<char>) -> Seq<
    (Seq<char>, usize),
> {
    spec_insert(entries, w, (count_or_zero(entries, w) + 1) as usize)
}

/// The entries after counting each of the words `ws`, in order.
pub open spec fn spec_record_all(entries: Seq<(Seq<char>, usize)>, ws: Seq<Seq<char>>) -> Seq<
    (Seq<char>, usize),
>
    decreases ws.len(),
{
    if ws.len() == 0 {
        entries
    } else {
        spec_record(spec_record_all(entries, ws.drop_last()), ws.last())
    }
}

/// How often `w` occurs among the words `ws`.
pub open spec fn word_occurrences(ws: Seq<Seq<char>>, w: Seq<char>) -> nat
    decreases ws.len(),
{
    if ws.len() == 0 {
        0
    } else {
        word_occurrences(ws.drop_last(), w) + if ws.last() == w {
            1nat
        } else {
            0nat
        }
    }
}

/// Counting the words `ws` keeps every count within `usize`.
pub open spec fn counts_fit(entries: Seq<(Seq<char>, usize)>, ws: Seq<Seq<char>>) -> bool {
    forall|w: Seq<char>| #[trigger] count_or_zero(entries, w) + word_occurrences(ws, w) <= usize::MAX
}

proof fn lemma_word_occurrences_take(ws: Seq<Seq<char>>, i: int, w: Seq<char>)
    requires
        0 <= i < ws.len(),
    ensures
        word_occurrences(ws.take(i + 1), w) == word_occurrences(ws.take(i), w) + if ws[i] == w {
            1nat
        } else {
            0nat
        },
        word_occurrences(ws.take(i + 1), w) <= word_occurrences(ws, w),
    decreases ws.len(),
{
    assert(ws.take(i + 1).drop_last() =~= ws.take(i));
    if i + 1 == ws.len() {
        assert(ws.take(i + 1) =~= ws);
    } else {
        lemma_word_occurrences_take(ws.drop_last(), i, w);
        assert(ws.drop_last().take(i + 1) =~= ws.take(i + 1));
        assert(ws.drop_last().take(i) =~= ws.take(i));
    }
}

proof fn lemma_word_occurrences_absent(ws: Seq<Seq<char>>, w: Seq<char>)
    requires
        forall|k: int| 0 <= k < ws.len() ==> ws[k] != w,
    ensures
        word_occurrences(ws, w) == 0,
    decreases ws.len(),
{
    if ws.len() > 0 {
        assert(ws[ws.len() - 1] != w);
        assert forall|k: int| 0 <= k < ws.drop_last().len() implies ws.drop_last()[k] != w by {
            assert(ws.drop_last()[k] == ws[k]);
        }
        lemma_word_occurrences_absent(ws.drop_last(), w);
    }
}

/// Counting words: every word's count rises by its number of occurrences,
/// and no word is recorded twice (given the counts fit).
pub proof fn lemma_record_all(entries: Seq<(Seq<char>, usize)>, ws: Seq<Seq<char>>, w: Seq<char>)
    requires
        distinct_words(entries),
        counts_fit(entries, ws),
    ensures
        count_or_zero(spec_record_all(entries, ws), w) == count_or_zero(entries, w)
            + word_occurrences(ws, w),
        distinct_words(spec_record_all(entries, ws)),
    decreases ws.len(),
{
    if ws.len() > 0 {
        let init = ws.drop_last();
        let x = ws.last();
        assert(counts_fit(entries, init)) by {
            assert forall|v: Seq<char>| #[trigger] count_or_zero(entries, v) + word_occurrences(init, v)
                <= usize::MAX by {
                assert(count_or_zero(entries, v) + word_occurrences(ws, v) <= usize::MAX);
            }
        }
        lemma_record_all(entries, init, w);
        lemma_record_all(entries, init, x);
        let prev = spec_record_all(entries, init);
        assert(count_or_zero(entries, x) + word_occurrences(ws, x) <= usize::MAX);
        let n = (count_or_zero(prev, x) + 1) as usize;
        lemma_get_after_insert(prev, x, n, w);
    }
}

/// The words (as characters) with their counts.
pub open spec fn entries_view(v: Seq<(String, usize)>) -> Seq<(Seq<char>, usize)> {
    v.map_values(|e: (String, usize)| (e.0@, e.1))
}

/// Word frequencies: each word with its count, in the order in which the
/// words were first recorded.
#[derive(Debug)]
pub struct WordCounts {
    entries: Vec<(String, usize)>,
}

impl View for WordCounts {
    type V = Seq<(Seq<char>, usize)>;

    /// The words with their counts, in first-recorded order.
    closed spec fn view(&self) -> Seq<(Seq<char>, usize)> {
        entries_view(self.entries@)
    }
}

impl WordCounts {
    #[verifier::type_invariant]
    closed spec fn inv(&self) -> bool {
        distinct_words(self@)
    }

    /// No word recorded.
    pub fn new() -> (r: Self)
        ensures
            r@ == Seq::<(Seq<char>, usize)>::empty(),
            distinct_words(r@),
    {
        let entries: Vec<(String, usize)> = Vec::new();
        assert(entries_view(entries@) =~= Seq::<(Seq<char>, usize)>::empty());
        WordCounts { entries }
    }

    /// Number of distinct words.
    pub fn len(&self) -> (r: usize)
        ensures
            r == self@.len(),
    {
        self.entries.len()
    }

    /// Whether no word is recorded.
    pub fn is_empty(&self) -> (r: bool)
        ensures
            r == (self@.len() == 0),
    {
        self.entries.len() == 0
    }

    /// The position of `w`, if recorded.
    fn position(&self, w: &String) -> (r: Option<usize>)
        ensures
            r matches Some(i) ==> i < self@.len() && self@[i as int].0 == w@,
            r is None ==> forall|i: int| 0 <= i < self@.len() ==> self@[i].0 != w@,
    {
        let mut i: usize = 0;
        while i < self.entries.len()
            invariant
                i <= self@.len(),
                self@.len() == self.entries@.len(),
                forall|j: int| 0 <= j < i ==> self@[j].0 != w@,
            decreases self@.len() - i,
        {
            if self.entries[i].0 == *w {
                return Some(i);
            }
            i = i + 1;
        }
        None
    }

    /// The count of `word`, if recorded.
    pub fn get(&self, word: &str) -> (r: Option<usize>)
        ensures
            r == spec_get(self@, word@),
    {
        proof {
            use_type_invariant(self);
        }
        let owned = word.to_owned();
        match self.position(&owned) {
            Some(i) => {
                let ghost k = choose|k: int| 0 <= k < self@.len() && self@[k].0 == word@;
                assert(k == i as int);
                Some(self.entries[i].1)
            },
            None => None,
        }
    }

    /// Sets the count of `word` to `count`, and returns the previous count.
    pub fn insert(&mut self, word: String, count: usize) -> (r: Option<usize>)
        ensures
            r == spec_get(old(self)@, word@),
            final(self)@ == spec_insert(old(self)@, word@, count),
            distinct_words(final(self)@),
    {
        proof {
            use_type_invariant(&*self);
        }
        let ghost w = word@;
        match self.position(&word) {
            Some(i) => {
                let ghost k = choose|k: int| 0 <= k < self@.len() && self@[k].0 == w;
                assert(k == i as int);
                let old_count = self.entries[i].1;
                let ghost before = self@;
                let mut entries: Vec<(String, usize)> = Vec::new();
                assert(entries_view(entries@) =~= Seq::<(Seq<char>, usize)>::empty());
                std::mem::swap(&mut entries, &mut self.entries);
                entries.set(i, (word, count));
                assert(entries_view(entries@) =~= before.update(i as int, (w, count)));
                std::mem::swap(&mut entries, &mut self.entries);
                Some(old_count)
            },
            None => {
                let ghost before = self@;
                let mut entries: Vec<(String, usize)> = Vec::new();
                assert(entries_view(entries@) =~= Seq::<(Seq<char>, usize)>::empty());
                std::mem::swap(&mut entries, &mut self.entries);
                entries.push((word, count));
                assert(entries_view(entries@) =~= before.push((w, count)));
                std::mem::swap(&mut entries, &mut self.entries);
                None
            },
        }
    }

    /// Counts one more occurrence of `word` (the count must not be at its
    /// maximum).
    pub fn record(&mut self, word: String)
        requires
            spec_get(old(self)@, word@) matches Some(n) ==> n < usize::MAX,
        ensures
            final(self)@ == spec_insert(
                old(self)@,
                word@,
                match spec_get(old(self)@, word@) {
                    Some(n) => (n + 1) as usize,
                    None => 1,
                },
            ),
            distinct_words(final(self)@),
    {
        let current = self.get(word.as_str());
        let next = match current {
            Some(n) => n + 1,
            None => 1,
        };
        self.insert(word, next);
    }

    /// Counts each of the words, in order (every count must stay within
    /// `usize`).
    pub fn record_words(&mut self, words: &Vec<String>)
        requires
            counts_fit(old(self)@, views(words@)),
        ensures
            final(self)@ == spec_record_all(old(self)@, views(words@)),
    {
        proof {
            use_type_invariant(&*self);
        }
        let ghost start = self@;
        let ghost ws = views(words@);
        let mut i: usize = 0;
        assert(ws.take(0) =~= Seq::<Seq<char>>::empty());
        while i < words.len()
            invariant
                i <= words@.len(),
                ws == views(words@),
                distinct_words(start),
                counts_fit(start, ws),
                self@ == spec_record_all(start, ws.take(i as int)),
            decreases words@.len() - i,
        {
            let ghost w = ws[i as int];
            proof {
                lemma_word_occurrences_take(ws, i as int, w);
                assert(counts_fit(start, ws.take(i as int))) by {
                    assert forall|v: Seq<char>| #[trigger] count_or_zero(start, v) + word_occurrences(
                        ws.take(i as int),
                        v,
                    ) <= usize::MAX by {
                        lemma_word_occurrences_take(ws, i as int, v);
                        assert(count_or_zero(start, v) + word_occurrences(ws, v) <= usize::MAX);
                    }
                }
                lemma_record_all(start, ws.take(i as int), w);
                assert(count_or_zero(start, w) + word_occurrences(ws, w) <= usize::MAX);
                assert(ws.take(i + 1).drop_last() =~= ws.take(i as int));
                assert(ws.take(i + 1).last() == w);
            }
            self.record(words[i].clone());
            i = i + 1;
        }
        assert(ws.take(words@.len() as int) =~= ws);
    }

    /// How often `w` occurs among `words`.
    fn count_word(words: &Vec<String>, w: &String) -> (n: usize)
        ensures
            n == word_occurrences(views(words@), w@),
    {
        let ghost ws = views(words@);
        let mut n: usize = 0;
        let mut j: usize = 0;
        assert(ws.take(0) =~= Seq::<Seq<char>>::empty());
        while j < words.len()
            invariant
                j <= words@.len(),
                ws == views(words@),
                n == word_occurrences(ws.take(j as int), w@),
                n <= j,
            decreases words@.len() - j,
        {
            proof {
                lemma_word_occurrences_take(ws, j as int, w@);
            }
            if words[j] == *w {
                n = n + 1;
            }
            j = j + 1;
        }
        assert(ws.take(words@.len() as int) =~= ws);
        n
    }

    /// Whether counting `words` keeps every count within `usize`.
    pub fn words_fit(&self, words: &Vec<String>) -> (r: bool)
        ensures
            r == counts_fit(self@, views(words@)),
    {
        let ghost ws = views(words@);
        let mut i: usize = 0;
        while i < words.len()
            invariant
                i <= words@.len(),
                ws == views(words@),
                forall|k: int| 0 <= k < i ==> count_or_zero(self@, #[trigger] ws[k]) + word_occurrences(ws, ws[k])
                    <= usize::MAX,
            decreases words@.len() - i,
        {
            let occ = Self::count_word(words, &words[i]);
            let cur = match self.get(words[i].as_str()) {
                Some(n) => n,
                None => 0,
            };
            if occ > usize::MAX - cur {
                assert(!(count_or_zero(self@, ws[i as int]) + word_occurrences(ws, ws[i as int])
                    <= usize::MAX));
                return false;
            }
            i = i + 1;
        }
        assert forall|w: Seq<char>| #[trigger] count_or_zero(self@, w) + word_occurrences(ws, w)
            <= usize::MAX by {
            if exists|k: int| 0 <= k < ws.len() && ws[k] == w {
                let k = choose|k: int| 0 <= k < ws.len() && ws[k] == w;
                assert(count_or_zero(self@, ws[k]) + word_occurrences(ws, ws[k]) <= usize::MAX);
            } else {
                lemma_word_occurrences_absent(ws, w);
            }
        }
        true
    }

    /// Counts the words of a corpus line (NFC normalization, pre-tokenization
    /// and CJK splitting, optionally lowercased). Where some count would
    /// exceed `usize::MAX`, nothing is counted and `false` is returned.
    pub fn record_line(&mut self, line: &str, lowercase: bool) -> (r: bool)
        ensures
            r == counts_fit(old(self)@, spec_line_words(nfc_of(line@), lowercase)),
            r ==> final(self)@ == spec_record_all(
                old(self)@,
                spec_line_words(nfc_of(line@), lowercase),
            ),
            !r ==> final(self)@ == old(self)@,
    {
        let words = corpus_line_words(line, lowercase);
        if self.words_fit(&words) {
            self.record_words(&words);
            true
        } else {
            false
        }
    }

    /// The words with their counts, in first-recorded order.
    pub fn entries(&self) -> (r: &[(String, usize)])
        ensures
            entries_view(r@) == self@,
            distinct_words(self@),
    {
        proof {
            use_type_invariant(self);
        }
        self.entries.as_slice()
    }
}

} // verus!
