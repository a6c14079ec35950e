//! Initial alphabet extraction for WordPiece training.
//!
//! The alphabet holds the characters of the special tokens first, then the
//! corpus characters from the most frequent down, without repeats and up to
//! a size limit.

use vstd::prelude::*;
use crate::chars::{contains_char, str_to_chars};
use crate::config::SpecialTokens;
use crate::pre_tokenize::concat_all;
use super::corpus::{entries_view, WordCounts};

verus! {

/// The distinct characters of `s`, in order of first occurrence.
pub open spec fn dedup(s: Seq<char>) -> Seq<char>
    decreases s.len(),
{
    if s.len() == 0 {
        Seq::empty()
    } else {
        let d = dedup(s.drop_last());
        if d.contains(s.last()) {
            d
        } else {
            d.push(s.last())
        }
    }
}

/// How often `c` occurs in `w`.
pub open spec fn occurrences(w: Seq<char>, c: char) -> nat
    decreases w.len(),
{
    if w.len() == 0 {
        0
    } else {
        occurrences(w.drop_last(), c) + if w.last() == c {
            1nat
        } else {
            0nat
        }
    }
}

/// How often `c` occurs in the corpus: each word's occurrences times the
/// word's count, summed over the words.
pub open spec fn char_total(entries: Seq<(Seq<char>, usize)>, c: char) -> int
    decreases entries.len(),
{
    if entries.len() == 0 {
        0
    } else {
        char_total(entries.drop_last(), c) + entries.last().1 * occurrences(entries.last().0, c)
    }
}

/// All characters of the corpus words, word after word.
pub open spec fn corpus_chars(entries: Seq<(Seq<char>, usize)>) -> Seq<char> {
    concat_all(entries.map_values(|e: (Seq<char>, usize)| e.0))
}

/// Where `x` goes in `s` (ordered by descending corpus frequency): before
/// the first character at or after `from` that is strictly less frequent.
pub open spec fn insert_pos(
    s: Seq<char>,
    entries: Seq<(Seq<char>, usize)>,
    x: char,
    from: int,
) -> int
    decreases s.len() - from,
{
    if from < 0 || from >= s.len() {
        s.len() as int
    } else if char_total(entries, s[from]) < char_total(entries, x) {
        from
    } else {
        insert_pos(s, entries, x, from + 1)
    }
}

/// `s` sorted by descending corpus frequency; equally frequent characters
/// keep their order in `s` (a stable sort).
pub open spec fn sort_by_count(s: Seq<char>, entries: Seq<(Seq<char>, usize)>) -> Seq<char>
    decreases s.len(),
{
    if s.len() == 0 {
        Seq::empty()
    } else {
        let t = sort_by_count(s.drop_last(), entries);
        t.insert(insert_pos(t, entries, s.last(), 0), s.last())
    }
}

/// The first `limit` distinct characters of `s` (all of them if fewer).
pub open spec fn first_distinct(s: Seq<char>, limit: usize) -> Seq<char> {
    let d = dedup(s);
    if d.len() <= limit {
        d
    } else {
        d.take(limit as int)
    }
}

/// The alphabet: the distinct characters of the special tokens, then the
/// corpus characters by descending frequency, at most `limit` in all.
pub open spec fn spec_extract_alphabet(
    entries: Seq<(Seq<char>, usize)>,
    limit: usize,
    special: SpecialTokens,
) -> Seq<char> {
    first_distinct(
        concat_all(special.spec_all()) + sort_by_count(dedup(corpus_chars(entries)), entries),
        limit,
    )
}

/// Every corpus character total fits in a `usize`.
pub open spec fn totals_fit(entries: Seq<(Seq<char>, usize)>) -> bool {
    forall|c: char| #[trigger] char_total(entries, c) <= usize::MAX
}

/// The characters kept while scanning `s` with a size limit: each new
/// character while fewer than `limit` are kept.
pub open spec fn limited_dedup(s: Seq<char>, limit: usize) -> Seq<char>
    decreases s.len(),
{
    if s.len() == 0 {
        Seq::empty()
    } else {
        let a = limited_dedup(s.drop_last(), limit);
        if a.len() >= limit || a.contains(s.last()) {
            a
        } else {
            a.push(s.last())
        }
    }
}

pub proof fn lemma_dedup_contains(s: Seq<char>, c: char)
    ensures
        dedup(s).contains(c) <==> s.contains(c),
    decreases s.len(),
{
    if s.len() > 0 {
        lemma_dedup_contains(s.drop_last(), c);
        let d = dedup(s.drop_last());
        if s.drop_last().contains(c) {
            let i = choose|i: int| 0 <= i < s.drop_last().len() && s.drop_last()[i] == c;
            assert(s[i] == c);
        }
        if s.contains(c) {
            let i = choose|i: int| 0 <= i < s.len() && s[i] == c;
            if i < s.len() - 1 {
                assert(s.drop_last()[i] == c);
            }
        }
        if !d.contains(s.last()) {
            assert(d.push(s.last())[d.len() as int] == s.last());
            if d.push(s.last()).contains(c) {
                let j = choose|j: int| 0 <= j < d.len() + 1 && d.push(s.last())[j] == c;
                if j < d.len() {
                    assert(d[j] == c);
                }
            }
            if d.contains(c) {
                let j = choose|j: int| 0 <= j < d.len() && d[j] == c;
                assert(d.push(s.last())[j] == c);
            }
        }
    }
}

pub proof fn lemma_dedup_no_duplicates(s: Seq<char>)
    ensures
        dedup(s).no_duplicates(),
    decreases s.len(),
{
    if s.len() > 0 {
        lemma_dedup_no_duplicates(s.drop_last());
        let d = dedup(s.drop_last());
        if !d.contains(s.last()) {
            let e = d.push(s.last());
            assert forall|i: int, j: int| 0 <= i < e.len() && 0 <= j < e.len() && i != j implies e[i]
                != e[j] by {
                if i == d.len() {
                    assert(d[j] == e[j]);
                } else if j == d.len() {
                    assert(d[i] == e[i]);
                }
            }
        }
    }
}

pub proof fn lemma_limited_dedup(s: Seq<char>, limit: usize)
    ensures
        limited_dedup(s, limit) == first_distinct(s, limit),
    decreases s.len(),
{
    if s.len() > 0 {
        let s2 = s.drop_last();
        let x = s.last();
        lemma_limited_dedup(s2, limit);
        let d2 = dedup(s2);
        if d2.len() >= limit {
            assert(d2.take(limit as int) =~= dedup(s).take(limit as int));
            if dedup(s).len() == limit {
                assert(d2.take(limit as int) =~= d2);
            }
        }
    }
}

pub proof fn lemma_occ_zero(w: Seq<char>, c: char)
    requires
        !w.contains(c),
    ensures
        occurrences(w, c) == 0,
    decreases w.len(),
{
    if w.len() > 0 {
        assert(w.last() == w[w.len() - 1]);
        assert forall|i: int| 0 <= i < w.drop_last().len() implies w.drop_last()[i] != c by {
            assert(w.drop_last()[i] == w[i]);
        }
        lemma_occ_zero(w.drop_last(), c);
    }
}

pub proof fn lemma_occ_le_take(w: Seq<char>, j: int, c: char)
    requires
        0 <= j <= w.len(),
    ensures
        occurrences(w.take(j), c) <= occurrences(w, c),
    decreases w.len(),
{
    if j == w.len() {
        assert(w.take(j) =~= w);
    } else {
        lemma_occ_le_take(w.drop_last(), j, c);
        assert(w.drop_last().take(j) =~= w.take(j));
    }
}

pub proof fn lemma_occ_push(w: Seq<char>, x: char, c: char)
    ensures
        occurrences(w.push(x), c) == occurrences(w, c) + if x == c {
            1nat
        } else {
            0nat
        },
{
    assert(w.push(x).drop_last() =~= w);
}

pub proof fn lemma_total_push(es: Seq<(Seq<char>, usize)>, e: (Seq<char>, usize), c: char)
    ensures
        char_total(es.push(e), c) == char_total(es, c) + e.1 * occurrences(e.0, c),
{
    assert(es.push(e).drop_last() =~= es);
}

pub proof fn lemma_corpus_push(es: Seq<(Seq<char>, usize)>, e: (Seq<char>, usize))
    ensures
        corpus_chars(es.push(e)) == corpus_chars(es) + e.0,
{
    let f = |e: (Seq<char>, usize)| e.0;
    assert(es.push(e).map_values(f).drop_last() =~= es.map_values(f));
}

pub proof fn lemma_total_nonneg(es: Seq<(Seq<char>, usize)>, c: char)
    ensures
        char_total(es, c) >= 0,
    decreases es.len(),
{
    if es.len() > 0 {
        lemma_total_nonneg(es.drop_last(), c);
        vstd::arithmetic::mul::lemma_mul_nonnegative(
            es.last().1 as int,
            occurrences(es.last().0, c) as int,
        );
    }
}

pub proof fn lemma_total_take_mono(es: Seq<(Seq<char>, usize)>, i: int, c: char)
    requires
        0 <= i <= es.len(),
    ensures
        char_total(es.take(i), c) <= char_total(es, c),
    decreases es.len(),
{
    if i == es.len() {
        assert(es.take(i) =~= es);
    } else {
        lemma_total_take_mono(es.drop_last(), i, c);
        assert(es.drop_last().take(i) =~= es.take(i));
        vstd::arithmetic::mul::lemma_mul_nonnegative(
            es.last().1 as int,
            occurrences(es.last().0, c) as int,
        );
    }
}

pub proof fn lemma_total_zero(es: Seq<(Seq<char>, usize)>, c: char)
    requires
        !corpus_chars(es).contains(c),
    ensures
        char_total(es, c) == 0,
    decreases es.len(),
{
    if es.len() > 0 {
        let es2 = es.drop_last();
        lemma_total_push(es2, es.last(), c);
        lemma_corpus_push(es2, es.last());
        assert(es2.push(es.last()) =~= es);
        let a = corpus_chars(es2);
        let b = es.last().0;
        assert forall|i: int| 0 <= i < a.len() implies a[i] != c by {
            assert((a + b)[i] == a[i]);
        }
        assert forall|i: int| 0 <= i < b.len() implies b[i] != c by {
            assert((a + b)[a.len() + i] == b[i]);
        }
        lemma_total_zero(es2, c);
        lemma_occ_zero(b, c);
    }
}

/// Starting a word adds nothing to the corpus characters or totals.
proof fn lemma_model_start(base: Seq<(Seq<char>, usize)>, w: Seq<char>, cnt: usize)
    ensures
        corpus_chars(base.push((w.take(0), cnt))) == corpus_chars(base),
        forall|c: char|
            #![trigger char_total(base.push((w.take(0), cnt)), c)]
            char_total(base.push((w.take(0), cnt)), c) == char_total(base, c),
{
    assert forall|c: char|
        #![trigger char_total(base.push((w.take(0), cnt)), c)]
        char_total(base.push((w.take(0), cnt)), c) == char_total(base, c) by {
        lemma_total_push(base, (w.take(0), cnt), c);
        assert(occurrences(w.take(0), c) == 0);
        let o = occurrences(w.take(0), c);
        assert(cnt * o == 0) by (nonlinear_arith)
            requires
                o == 0,
        ;
    }
    lemma_corpus_push(base, (w.take(0), cnt));
    assert(corpus_chars(base) + w.take(0) =~= corpus_chars(base));
}

/// The characters of a frequency table.
pub open spec fn table_chars(t: Seq<(char, usize)>) -> Seq<char> {
    t.map_values(|p: (char, usize)| p.0)
}

/// `t` holds the distinct characters of the corpus `model` in order of
/// first occurrence, each with its total.
pub open spec fn table_models(t: Seq<(char, usize)>, model: Seq<(Seq<char>, usize)>) -> bool {
    &&& table_chars(t) == dedup(corpus_chars(model))
    &&& forall|k: int| #![trigger t[k]] 0 <= k < t.len() ==> t[k].1 == char_total(model, t[k].0)
}

/// The position of `ch` in the table, if any.
fn find_char(table: &Vec<(char, usize)>, ch: char) -> (r: Option<usize>)
    ensures
        r matches Some(k) ==> k < table@.len() && table@[k as int].0 == ch,
        r is None ==> forall|k: int| 0 <= k < table@.len() ==> table@[k].0 != ch,
{
    let mut k: usize = 0;
    while k < table.len()
        invariant
            k <= table@.len(),
            forall|j: int| 0 <= j < k ==> table@[j].0 != ch,
        decreases table@.len() - k,
    {
        if table[k].0 == ch {
            return Some(k);
        }
        k = k + 1;
    }
    None
}

/// One more character `ch` of a word with count `cnt` changes the corpus
/// characters and totals as expected.
proof fn lemma_model_step(
    base: Seq<(Seq<char>, usize)>,
    w: Seq<char>,
    j: int,
    cnt: usize,
)
    requires
        0 <= j < w.len(),
    ensures
        corpus_chars(base.push((w.take(j + 1), cnt))) == corpus_chars(base.push((w.take(j), cnt))).push(
            w[j],
        ),
        forall|c: char|
            #![trigger char_total(base.push((w.take(j + 1), cnt)), c)]
            char_total(base.push((w.take(j + 1), cnt)), c) == char_total(base.push((w.take(j), cnt)), c)
                + if c == w[j] {
                cnt as int
            } else {
                0
            },
{
    let e0 = (w.take(j), cnt);
    let e1 = (w.take(j + 1), cnt);
    assert(w.take(j + 1) =~= w.take(j).push(w[j]));
    assert forall|c: char|
        #![trigger char_total(base.push((w.take(j + 1), cnt)), c)]
        char_total(base.push((w.take(j + 1), cnt)), c) == char_total(base.push((w.take(j), cnt)), c)
            + if c == w[j] {
            cnt as int
        } else {
            0
        } by {
        lemma_total_push(base, e0, c);
        lemma_total_push(base, e1, c);
        lemma_occ_push(w.take(j), w[j], c);
        vstd::arithmetic::mul::lemma_mul_is_distributive_add(
            cnt as int,
            occurrences(w.take(j), c) as int,
            1,
        );
    }
    lemma_corpus_push(base, e0);
    lemma_corpus_push(base, e1);
    assert(corpus_chars(base) + w.take(j + 1) =~= (corpus_chars(base) + w.take(j)).push(w[j]));
}

/// The totals of a partly read corpus are bounded by the full totals.
proof fn lemma_partial_bound(es: Seq<(Seq<char>, usize)>, i: int, j: int, c: char)
    requires
        0 <= i < es.len(),
        0 <= j <= es[i].0.len(),
    ensures
        char_total(es.take(i).push((es[i].0.take(j), es[i].1)), c) <= char_total(es, c),
{
    let base = es.take(i);
    lemma_total_push(base, (es[i].0.take(j), es[i].1), c);
    lemma_total_push(base, es[i], c);
    lemma_occ_le_take(es[i].0, j, c);
    let a = occurrences(es[i].0.take(j), c) as int;
    let b = occurrences(es[i].0, c) as int;
    let n = es[i].1 as int;
    assert(n * a <= n * b) by (nonlinear_arith)
        requires
            a <= b,
            n >= 0,
    ;
    assert(es.take(i + 1) =~= base.push(es[i]));
    lemma_total_take_mono(es, i + 1, c);
}

/// Counts every character of the corpus, weighted by word counts.
fn count_chars(word_counts: &WordCounts) -> (table: Vec<(char, usize)>)
    requires
        totals_fit(word_counts@),
    ensures
        table_models(table@, word_counts@),
{
    let entries = word_counts.entries();
    let ghost es = word_counts@;
    let mut table: Vec<(char, usize)> = Vec::new();
    let mut i: usize = 0;
    assert(es.take(0) =~= Seq::<(Seq<char>, usize)>::empty());
    assert(table_chars(table@) =~= Seq::<char>::empty());
    assert(corpus_chars(Seq::<(Seq<char>, usize)>::empty()) =~= Seq::<char>::empty());
    while i < entries.len()
        invariant
            i <= entries@.len(),
            entries_view(entries@) == es,
            totals_fit(es),
            table_models(table@, es.take(i as int)),
        decreases entries@.len() - i,
    {
        let word_chars = str_to_chars(entries[i].0.as_str());
        let cnt = entries[i].1;
        let ghost base = es.take(i as int);
        let ghost w = word_chars@;
        assert(es[i as int] == (w, cnt));
        proof {
            lemma_model_start(base, w, cnt);
        }
        let mut j: usize = 0;
        while j < word_chars.len()
            invariant
                j <= w.len(),
                word_chars@ == w,
                i < es.len(),
                es[i as int] == (w, cnt),
                base == es.take(i as int),
                totals_fit(es),
                table_models(table@, base.push((w.take(j as int), cnt))),
            decreases w.len() - j,
        {
            let ch = word_chars[j];
            let ghost model = base.push((w.take(j as int), cnt));
            let ghost next = base.push((w.take(j + 1), cnt));
            proof {
                lemma_model_step(base, w, j as int, cnt);
                lemma_partial_bound(es, i as int, j + 1, ch);
                assert(char_total(es, ch) <= usize::MAX);
                lemma_dedup_contains(corpus_chars(model), ch);
                lemma_dedup_no_duplicates(corpus_chars(model));
                assert(corpus_chars(model).push(ch).drop_last() =~= corpus_chars(model));
            }
            let ghost old_table = table@;
            match find_char(&table, ch) {
                Some(k) => {
                    let v = table[k].1;
                    assert(table_chars(old_table)[k as int] == ch);
                    table.set(k, (ch, v + cnt));
                    assert(table_chars(table@) =~= table_chars(old_table));
                    assert(dedup(corpus_chars(model)).contains(ch));
                    assert(table_chars(table@) == dedup(corpus_chars(next)));
                    assert forall|q: int| #![trigger table@[q]] 0 <= q < table@.len() implies table@[q].1
                        == char_total(next, table@[q].0) by {
                        if q != k {
                            assert(table_chars(old_table)[q] != table_chars(old_table)[k as int]);
                        }
                    }
                },
                None => {
                    assert(!table_chars(old_table).contains(ch)) by {
                        if table_chars(old_table).contains(ch) {
                            let q = choose|q: int| 0 <= q < table_chars(old_table).len() && table_chars(old_table)[q] == ch;
                            assert(old_table[q].0 == ch);
                        }
                    }
                    proof {
                        lemma_total_zero(model, ch);
                    }
                    table.push((ch, cnt));
                    assert(table_chars(table@) =~= table_chars(old_table).push(ch));
                    assert(table_chars(table@) == dedup(corpus_chars(next)));
                    assert forall|q: int| #![trigger table@[q]] 0 <= q < table@.len() implies table@[q].1
                        == char_total(next, table@[q].0) by {
                        if q < old_table.len() {
                            assert(table@[q] == old_table[q]);
                            assert(old_table[q].0 != ch) by {
                                assert(table_chars(old_table)[q] == old_table[q].0);
                            }
                        }
                    }
                },
            }
            j = j + 1;
        }
        proof {
            assert(w.take(w.len() as int) =~= w);
            assert(es.take(i + 1) =~= base.push(es[i as int]));
        }
        i = i + 1;
    }
    assert(es.take(es.len() as int) =~= es);
    table
}

/// Sorts a frequency table by descending total, keeping the order of
/// equal totals.
fn sort_table(table: &Vec<(char, usize)>, Ghost(es): Ghost<Seq<(Seq<char>, usize)>>) -> (sorted: Vec<
    (char, usize),
>)
    requires
        forall|k: int| #![trigger table@[k]] 0 <= k < table@.len() ==> table@[k].1 == char_total(es, table@[k].0),
    ensures
        table_chars(sorted@) == sort_by_count(table_chars(table@), es),
{
    let mut sorted: Vec<(char, usize)> = Vec::new();
    let mut m: usize = 0;
    assert(table_chars(table@).take(0) =~= Seq::<char>::empty());
    assert(table_chars(sorted@) =~= Seq::<char>::empty());
    while m < table.len()
        invariant
            m <= table@.len(),
            forall|k: int| #![trigger table@[k]] 0 <= k < table@.len() ==> table@[k].1 == char_total(es, table@[k].0),
            table_chars(sorted@) == sort_by_count(table_chars(table@).take(m as int), es),
            forall|k: int| #![trigger sorted@[k]] 0 <= k < sorted@.len() ==> sorted@[k].1 == char_total(es, sorted@[k].0),
        decreases table@.len() - m,
    {
        let x = table[m];
        let ghost t = table_chars(sorted@);
        let mut k: usize = 0;
        while k < sorted.len() && sorted[k].1 >= x.1
            invariant
                k <= sorted@.len(),
                t == table_chars(sorted@),
                x.1 == char_total(es, x.0),
                forall|q: int| #![trigger sorted@[q]] 0 <= q < sorted@.len() ==> sorted@[q].1 == char_total(es, sorted@[q].0),
                insert_pos(t, es, x.0, 0) == insert_pos(t, es, x.0, k as int),
            decreases sorted@.len() - k,
        {
            assert(t[k as int] == sorted@[k as int].0);
            k = k + 1;
        }
        proof {
            if k < sorted@.len() {
                assert(t[k as int] == sorted@[k as int].0);
            }
            let s = table_chars(table@).take(m + 1);
            assert(s.drop_last() =~= table_chars(table@).take(m as int));
            assert(s.last() == x.0);
        }
        let ghost old_sorted = sorted@;
        sorted.insert(k, x);
        assert(table_chars(sorted@) =~= t.insert(k as int, x.0));
        assert forall|q: int| #![trigger sorted@[q]] 0 <= q < sorted@.len() implies sorted@[q].1 == char_total(es, sorted@[q].0) by {
            if q < k {
                assert(sorted@[q] == old_sorted[q]);
            } else if q > k {
                assert(sorted@[q] == old_sorted[q - 1]);
            }
        }
        m = m + 1;
    }
    assert(table_chars(table@).take(table@.len() as int) =~= table_chars(table@));
    sorted
}

/// Extracts the initial alphabet from word frequencies.
///
/// The alphabet consists of the characters of the special tokens (which
/// come first), then the individual corpus characters sorted by descending
/// frequency, each once, limited to `limit_alphabet` characters.
pub fn extract_alphabet(
    word_counts: &WordCounts,
    limit_alphabet: usize,
    special_tokens: &SpecialTokens,
) -> (alphabet: Vec<char>)
    requires
        totals_fit(word_counts@),
    ensures
        alphabet@ == spec_extract_alphabet(word_counts@, limit_alphabet, *special_tokens),
{
    let table = count_chars(word_counts);
    let sorted = sort_table(&table, Ghost(word_counts@));
    let ghost all = special_tokens.spec_all();
    let specials = special_tokens.all_tokens();
    let mut candidates: Vec<char> = Vec::new();
    let mut t: usize = 0;
    assert(all.take(0) =~= Seq::<Seq<char>>::empty());
    while t < specials.len()
        invariant
            t <= specials@.len(),
            specials@.len() == 5,
            all.len() == 5,
            forall|i: int| 0 <= i < 5 ==> #[trigger] specials@[i]@ == all[i],
            candidates@ == concat_all(all.take(t as int)),
        decreases specials@.len() - t,
    {
        let mut cs = str_to_chars(specials[t]);
        candidates.append(&mut cs);
        assert(all.take(t + 1).drop_last() =~= all.take(t as int));
        t = t + 1;
    }
    assert(all.take(5) =~= all);
    let ghost head = candidates@;
    let mut m: usize = 0;
    while m < sorted.len()
        invariant
            m <= sorted@.len(),
            candidates@ == head + table_chars(sorted@).take(m as int),
        decreases sorted@.len() - m,
    {
        candidates.push(sorted[m].0);
        assert(table_chars(sorted@).take(m + 1) =~= table_chars(sorted@).take(m as int).push(sorted@[m as int].0));
        m = m + 1;
    }
    assert(table_chars(sorted@).take(sorted@.len() as int) =~= table_chars(sorted@));
    let mut alphabet: Vec<char> = Vec::new();
    let mut n: usize = 0;
    assert(candidates@.take(0) =~= Seq::<char>::empty());
    while n < candidates.len()
        invariant
            n <= candidates@.len(),
            alphabet@ == limited_dedup(candidates@.take(n as int), limit_alphabet),
        decreases candidates@.len() - n,
    {
        let c = candidates[n];
        assert(candidates@.take(n + 1).drop_last() =~= candidates@.take(n as int));
        if alphabet.len() < limit_alphabet && !contains_char(&alphabet, c) {
            alphabet.push(c);
        }
        n = n + 1;
    }
    assert(candidates@.take(candidates@.len() as int) =~= candidates@);
    proof {
        lemma_limited_dedup(candidates@, limit_alphabet);
    }
    alphabet
}

/// `s` is ordered by descending corpus frequency.
pub open spec fn is_desc(s: Seq<char>, entries: Seq<(Seq<char>, usize)>) -> bool {
    forall|i: int, j: int|
        0 <= i < j < s.len() ==> char_total(entries, #[trigger] s[i]) >= char_total(
            entries,
            #[trigger] s[j],
        )
}

/// `s` is ordered by descending corpus frequency, leaving out the
/// characters of `excluded`.
pub open spec fn is_desc_except(
    s: Seq<char>,
    excluded: Seq<char>,
    entries: Seq<(Seq<char>, usize)>,
) -> bool {
    forall|i: int, j: int|
        0 <= i < j < s.len() && !excluded.contains(#[trigger] s[i]) && !excluded.contains(
            #[trigger] s[j],
        ) ==> char_total(entries, s[i]) >= char_total(entries, s[j])
}

proof fn lemma_insert_pos(s: Seq<char>, entries: Seq<(Seq<char>, usize)>, x: char, from: int)
    requires
        0 <= from <= s.len(),
    ensures
        from <= insert_pos(s, entries, x, from) <= s.len(),
        forall|q: int|
            from <= q < insert_pos(s, entries, x, from) ==> char_total(entries, #[trigger] s[q])
                >= char_total(entries, x),
        insert_pos(s, entries, x, from) < s.len() ==> char_total(
            entries,
            s[insert_pos(s, entries, x, from)],
        ) < char_total(entries, x),
    decreases s.len() - from,
{
    if from < s.len() && char_total(entries, s[from]) >= char_total(entries, x) {
        lemma_insert_pos(s, entries, x, from + 1);
    }
}

/// Sorting keeps the characters and orders them by descending frequency.
pub proof fn lemma_sort_by_count(s: Seq<char>, entries: Seq<(Seq<char>, usize)>)
    ensures
        is_desc(sort_by_count(s, entries), entries),
        sort_by_count(s, entries).len() == s.len(),
        forall|c: char| sort_by_count(s, entries).contains(c) <==> s.contains(c),
    decreases s.len(),
{
    if s.len() > 0 {
        let t = sort_by_count(s.drop_last(), entries);
        let x = s.last();
        lemma_sort_by_count(s.drop_last(), entries);
        lemma_insert_pos(t, entries, x, 0);
        let p = insert_pos(t, entries, x, 0);
        let r = t.insert(p, x);
        assert forall|i: int, j: int| 0 <= i < j < r.len() implies char_total(
            entries,
            #[trigger] r[i],
        ) >= char_total(entries, #[trigger] r[j]) by {
            if j < p {
                assert(r[i] == t[i] && r[j] == t[j]);
            } else if j == p {
                assert(r[i] == t[i]);
            } else if i < p {
                assert(r[i] == t[i] && r[j] == t[j - 1]);
            } else if i == p {
                assert(r[j] == t[j - 1]);
                if p < t.len() && j - 1 > p {
                    assert(char_total(entries, t[p]) >= char_total(entries, t[j - 1]));
                }
            } else {
                assert(r[i] == t[i - 1] && r[j] == t[j - 1]);
            }
        }
        assert forall|c: char| r.contains(c) <==> s.contains(c) by {
            assert(t.contains(c) <==> s.drop_last().contains(c));
            if r.contains(c) {
                let k = choose|k: int| 0 <= k < r.len() && r[k] == c;
                if k < p {
                    assert(t[k] == c);
                } else if k > p {
                    assert(t[k - 1] == c);
                }
                if c != x {
                    assert(t.contains(c));
                    let q = choose|q: int| 0 <= q < s.drop_last().len() && s.drop_last()[q] == c;
                    assert(s[q] == c);
                } else {
                    assert(s[s.len() - 1] == c);
                }
            }
            if s.contains(c) {
                let k = choose|k: int| 0 <= k < s.len() && s[k] == c;
                if k == s.len() - 1 {
                    assert(r[p] == c);
                } else {
                    assert(s.drop_last()[k] == c);
                    assert(t.contains(c));
                    let q = choose|q: int| 0 <= q < t.len() && t[q] == c;
                    if q < p {
                        assert(r[q] == c);
                    } else {
                        assert(r[q + 1] == c);
                    }
                }
            }
        }
    }
}

/// The distinct characters of `a` come first in those of `a + b`.
pub proof fn lemma_dedup_prefix(a: Seq<char>, b: Seq<char>)
    ensures
        dedup(a).is_prefix_of(dedup(a + b)),
    decreases b.len(),
{
    if b.len() == 0 {
        assert(a + b =~= a);
        assert(dedup(a) =~= dedup(a + b).subrange(0, dedup(a).len() as int));
    } else {
        lemma_dedup_prefix(a, b.drop_last());
        assert((a + b).drop_last() =~= a + b.drop_last());
        let d = dedup(a + b.drop_last());
        assert(d.push((a + b).last()).subrange(0, dedup(a).len() as int) =~= d.subrange(
            0,
            dedup(a).len() as int,
        ));
    }
}

proof fn lemma_dedup_desc_except(
    a: Seq<char>,
    b: Seq<char>,
    entries: Seq<(Seq<char>, usize)>,
)
    requires
        is_desc(b, entries),
    ensures
        is_desc_except(dedup(a + b), a, entries),
    decreases b.len(),
{
    if b.len() == 0 {
        assert(a + b =~= a);
        let d = dedup(a);
        assert forall|i: int, j: int|
            0 <= i < j < d.len() && !a.contains(#[trigger] d[i]) && !a.contains(#[trigger] d[j])
            implies char_total(entries, d[i]) >= char_total(entries, d[j]) by {
            lemma_dedup_contains(a, d[i]);
        }
    } else {
        let b2 = b.drop_last();
        let x = b.last();
        assert(is_desc(b2, entries)) by {
            assert forall|i: int, j: int| 0 <= i < j < b2.len() implies char_total(
                entries,
                #[trigger] b2[i],
            ) >= char_total(entries, #[trigger] b2[j]) by {
                assert(b2[i] == b[i] && b2[j] == b[j]);
            }
        }
        lemma_dedup_desc_except(a, b2, entries);
        assert((a + b).drop_last() =~= a + b2);
        assert((a + b).last() == x);
        let d = dedup(a + b2);
        if !d.contains(x) {
            let e = d.push(x);
            assert forall|i: int, j: int|
                0 <= i < j < e.len() && !a.contains(#[trigger] e[i]) && !a.contains(#[trigger] e[j])
                implies char_total(entries, e[i]) >= char_total(entries, e[j]) by {
                if j < d.len() {
                    assert(e[i] == d[i] && e[j] == d[j]);
                } else {
                    assert(e[i] == d[i]);
                    lemma_dedup_contains(a + b2, d[i]);
                    let k = choose|k: int| 0 <= k < (a + b2).len() && (a + b2)[k] == d[i];
                    if k < a.len() {
                        assert(a[k] == d[i]);
                    } else {
                        assert(b[k - a.len()] == d[i]);
                        assert(b[b.len() - 1] == x);
                    }
                }
            }
        }
    }
}

/// Two sequences with the same characters have equally many distinct ones.
proof fn lemma_dedup_len_same_chars(s: Seq<char>, t: Seq<char>)
    requires
        forall|c: char| s.contains(c) <==> t.contains(c),
    ensures
        dedup(s).len() == dedup(t).len(),
{
    lemma_dedup_no_duplicates(s);
    lemma_dedup_no_duplicates(t);
    dedup(s).unique_seq_to_set();
    dedup(t).unique_seq_to_set();
    assert forall|c: char| dedup(s).to_set().contains(c) <==> dedup(t).to_set().contains(c) by {
        lemma_dedup_contains(s, c);
        lemma_dedup_contains(t, c);
    }
    assert(dedup(s).to_set() =~= dedup(t).to_set());
}

/// The special characters followed by the sorted corpus characters have
/// as many distinct characters as the special characters followed by the
/// corpus text.
proof fn lemma_dedup_len_same(sp: Seq<char>, corpus: Seq<char>, sorted: Seq<char>)
    requires
        forall|c: char| sorted.contains(c) <==> dedup(corpus).contains(c),
    ensures
        dedup(sp + sorted).len() == dedup(sp + corpus).len(),
{
    assert forall|c: char| (sp + sorted).contains(c) <==> (sp + corpus).contains(c) by {
        lemma_dedup_contains(corpus, c);
        if (sp + sorted).contains(c) {
            let k = choose|k: int| 0 <= k < (sp + sorted).len() && (sp + sorted)[k] == c;
            if k < sp.len() {
                assert((sp + corpus)[k] == c);
            } else {
                assert(sorted[k - sp.len()] == c);
                assert(sorted.contains(c));
                assert(dedup(corpus).contains(c));
                let q = choose|q: int| 0 <= q < corpus.len() && corpus[q] == c;
                assert((sp + corpus)[sp.len() + q] == c);
            }
        }
        if (sp + corpus).contains(c) {
            let k = choose|k: int| 0 <= k < (sp + corpus).len() && (sp + corpus)[k] == c;
            if k < sp.len() {
                assert((sp + sorted)[k] == c);
            } else {
                assert(corpus[k - sp.len()] == c);
                assert(corpus.contains(c));
                assert(dedup(corpus).contains(c));
                assert(sorted.contains(c));
                let q = choose|q: int| 0 <= q < sorted.len() && sorted[q] == c;
                assert((sp + sorted)[sp.len() + q] == c);
            }
        }
    }
    lemma_dedup_len_same_chars(sp + sorted, sp + corpus);
}

/// The alphabet has no repeated character and at most `limit` characters;
/// it starts with the distinct characters of the special tokens (as many as
/// fit); if everything fits, it holds every character of the special tokens
/// and of the corpus; and the corpus characters that are not special come in
/// order of descending frequency.
pub proof fn lemma_alphabet(
    entries: Seq<(Seq<char>, usize)>,
    limit: usize,
    special: SpecialTokens,
)
    ensures
        spec_extract_alphabet(entries, limit, special).no_duplicates(),
        spec_extract_alphabet(entries, limit, special).len() <= limit,
        forall|i: int|
            0 <= i < spec_extract_alphabet(entries, limit, special).len() && i < dedup(
                concat_all(special.spec_all()),
            ).len() ==> #[trigger] spec_extract_alphabet(entries, limit, special)[i] == dedup(
                concat_all(special.spec_all()),
            )[i],
        dedup(concat_all(special.spec_all()) + corpus_chars(entries)).len() <= limit ==> forall|
            c: char,
        |
            (concat_all(special.spec_all()).contains(c) || corpus_chars(entries).contains(c))
                ==> #[trigger] spec_extract_alphabet(entries, limit, special).contains(c),
        is_desc_except(
            spec_extract_alphabet(entries, limit, special),
            concat_all(special.spec_all()),
            entries,
        ),
{
    let sp = concat_all(special.spec_all());
    let cs = dedup(corpus_chars(entries));
    let sorted = sort_by_count(cs, entries);
    let all = sp + sorted;
    let d = dedup(all);
    let r = spec_extract_alphabet(entries, limit, special);
    lemma_dedup_no_duplicates(all);
    lemma_sort_by_count(cs, entries);
    lemma_dedup_prefix(sp, sorted);
    lemma_dedup_desc_except(sp, sorted, entries);
    assert(r.no_duplicates()) by {
        if d.len() > limit {
            assert forall|i: int, j: int| 0 <= i < r.len() && 0 <= j < r.len() && i != j implies r[i]
                != r[j] by {
                assert(r[i] == d[i] && r[j] == d[j]);
            }
        }
    }
    assert forall|i: int| 0 <= i < r.len() && i < dedup(sp).len() implies #[trigger] r[i] == dedup(sp)[i] by {
        assert(r[i] == d[i]);
        assert(dedup(sp)[i] == d.subrange(0, dedup(sp).len() as int)[i]);
    }
    assert(is_desc_except(r, sp, entries)) by {
        assert forall|i: int, j: int|
            0 <= i < j < r.len() && !sp.contains(#[trigger] r[i]) && !sp.contains(#[trigger] r[j])
            implies char_total(entries, r[i]) >= char_total(entries, r[j]) by {
            assert(r[i] == d[i] && r[j] == d[j]);
        }
    }
    if dedup(sp + corpus_chars(entries)).len() <= limit {
        assert forall|c: char| (sp.contains(c) || corpus_chars(entries).contains(c)) implies #[trigger] r.contains(c) by {
            lemma_dedup_contains(corpus_chars(entries), c);
            lemma_dedup_contains(all, c);
            lemma_dedup_contains(sp + corpus_chars(entries), c);
            lemma_dedup_no_duplicates(sp + corpus_chars(entries));
            lemma_dedup_len_same(sp, corpus_chars(entries), sorted);
            assert(d.len() <= limit);
            if sp.contains(c) {
                let k = choose|k: int| 0 <= k < sp.len() && sp[k] == c;
                assert(all[k] == c);
            } else {
                assert(cs.contains(c));
                assert(sorted.contains(c));
                let k = choose|k: int| 0 <= k < sorted.len() && sorted[k] == c;
                assert(all[sp.len() + k] == c);
            }
        }
    }
}

} // verus!
