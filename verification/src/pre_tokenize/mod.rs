//! Pre-tokenization: splitting text into words before subword encoding.
//!
//! Both pre-tokenizers of this crate (the BERT-style whitespace and
//! punctuation splitter, and the CJK splitter) are instances of one
//! segmentation scheme: every character is either a separator (dropped,
//! it ends the current word), an isolated character (it ends the current
//! word and forms a word of its own) or a word character (appended to the
//! current word).

pub mod bert;
pub mod unicode;

pub use bert::pre_tokenize_bert;
pub use unicode::{is_cjk_character, is_hiragana, is_katakana, split_cjk};

use vstd::prelude::*;
use crate::chars::{push_char, str_to_chars, views};

verus! {

/// How a segmentation rule treats one character.
#[derive(PartialEq, Eq, Structural, Clone, Copy, Debug)]
pub enum CharClass {
    /// Dropped; ends the current word.
    Separator,
    /// Ends the current word and forms a one-character word.
    Isolated,
    /// Appended to the current word.
    Word,
}

/// The segmentation rules of the crate.
#[derive(PartialEq, Eq, Structural, Clone, Copy, Debug)]
pub enum SplitRule {
    /// Whitespace separates, punctuation is isolated.
    Bert,
    /// CJK ideographs are isolated, nothing separates.
    Cjk,
}

/// Appends the current word, if it is not empty.
pub open spec fn flush(words: Seq<Seq<char>>, cur: Seq<char>) -> Seq<Seq<char>> {
    if cur.len() == 0 {
        words
    } else {
        words.push(cur)
    }
}

/// The state after one more character: finished words and the current word.
pub open spec fn segment_step(
    state: (Seq<Seq<char>>, Seq<char>),
    c: char,
    class: CharClass,
) -> (Seq<Seq<char>>, Seq<char>) {
    match class {
        CharClass::Separator => (flush(state.0, state.1), Seq::empty()),
        CharClass::Isolated => (flush(state.0, state.1).push(seq![c]), Seq::empty()),
        CharClass::Word => (state.0, state.1.push(c)),
    }
}

/// The state after reading all of `text`.
pub open spec fn segment_state(text: Seq<char>, rule: SplitRule) -> (Seq<Seq<char>>, Seq<char>)
    decreases text.len(),
{
    if text.len() == 0 {
        (Seq::empty(), Seq::empty())
    } else {
        segment_step(
            segment_state(text.drop_last(), rule),
            text.last(),
            spec_classify(rule, text.last()),
        )
    }
}

/// The words of `text` under `rule`.
pub open spec fn spec_segment(text: Seq<char>, rule: SplitRule) -> Seq<Seq<char>> {
    flush(segment_state(text, rule).0, segment_state(text, rule).1)
}

/// The characters of `text` that are not separators, in order.
pub open spec fn kept_chars(text: Seq<char>, rule: SplitRule) -> Seq<char>
    decreases text.len(),
{
    if text.len() == 0 {
        Seq::empty()
    } else if spec_classify(rule, text.last()) == CharClass::Separator {
        kept_chars(text.drop_last(), rule)
    } else {
        kept_chars(text.drop_last(), rule).push(text.last())
    }
}

/// The concatenation of a sequence of sequences.
pub open spec fn concat_all<A>(s: Seq<Seq<A>>) -> Seq<A>
    decreases s.len(),
{
    if s.len() == 0 {
        Seq::empty()
    } else {
        concat_all(s.drop_last()) + s.last()
    }
}

/// How `rule` classifies `c`.
pub open spec fn spec_classify(rule: SplitRule, c: char) -> CharClass {
    match rule {
        SplitRule::Bert => if crate::chars::unicode_white_space(c) {
            CharClass::Separator
        } else if bert::spec_is_punctuation(c) {
            CharClass::Isolated
        } else {
            CharClass::Word
        },
        SplitRule::Cjk => if unicode::spec_is_cjk_character(c) {
            CharClass::Isolated
        } else {
            CharClass::Word
        },
    }
}

/// Classifies one character under `rule`.
pub fn classify(rule: SplitRule, c: char) -> (r: CharClass)
    ensures
        r == spec_classify(rule, c),
{
    match rule {
        SplitRule::Bert => {
            if bert::is_whitespace(c) {
                CharClass::Separator
            } else if bert::is_punctuation(c) {
                CharClass::Isolated
            } else {
                CharClass::Word
            }
        },
        SplitRule::Cjk => {
            if unicode::is_cjk_character(c) {
                CharClass::Isolated
            } else {
                CharClass::Word
            }
        },
    }
}

/// Splits `text` into words under `rule`.
pub fn segment(text: &str, rule: SplitRule) -> (r: Vec<String>)
    ensures
        views(r@) == spec_segment(text@, rule),
{
    let chars = str_to_chars(text);
    let mut words: Vec<String> = Vec::new();
    let mut current = String::new();
    let mut i: usize = 0;
    while i < chars.len()
        invariant
            i <= chars@.len(),
            chars@ == text@,
            (views(words@), current@) == segment_state(chars@.take(i as int), rule),
        decreases chars@.len() - i,
    {
        let c = chars[i];
        let ghost before = (views(words@), current@);
        assert(chars@.take(i + 1).drop_last() =~= chars@.take(i as int));
        match classify(rule, c) {
            CharClass::Separator => {
                if !current.as_str().is_empty() {
                    words.push(current);
                    current = String::new();
                }
            },
            CharClass::Isolated => {
                if !current.as_str().is_empty() {
                    words.push(current);
                    current = String::new();
                }
                let mut single = String::new();
                push_char(&mut single, c);
                words.push(single);
            },
            CharClass::Word => {
                push_char(&mut current, c);
            },
        }
        assert((views(words@), current@) == segment_step(before, c, spec_classify(rule, c)));
        i = i + 1;
    }
    assert(chars@.take(chars@.len() as int) =~= chars@);
    if !current.as_str().is_empty() {
        words.push(current);
    }
    words
}

/// The words `ws` are well formed under `rule`: none is empty, none holds
/// a separator, and an isolated character only ever forms a word alone.
pub open spec fn words_well_formed(ws: Seq<Seq<char>>, rule: SplitRule) -> bool {
    &&& forall|i: int| 0 <= i < ws.len() ==> (#[trigger] ws[i]).len() > 0
    &&& forall|i: int, j: int|
        0 <= i < ws.len() && 0 <= j < ws[i].len() ==> spec_classify(rule, #[trigger] ws[i][j])
            != CharClass::Separator
    &&& forall|i: int, j: int|
        0 <= i < ws.len() && 0 <= j < ws[i].len() && spec_classify(rule, #[trigger] ws[i][j])
            == CharClass::Isolated ==> ws[i].len() == 1
}

/// The current word holds only word characters.
pub open spec fn only_word_chars(cur: Seq<char>, rule: SplitRule) -> bool {
    forall|j: int| 0 <= j < cur.len() ==> spec_classify(rule, #[trigger] cur[j]) == CharClass::Word
}

proof fn lemma_flush(ws: Seq<Seq<char>>, cur: Seq<char>, rule: SplitRule)
    requires
        words_well_formed(ws, rule),
        only_word_chars(cur, rule),
    ensures
        words_well_formed(flush(ws, cur), rule),
        concat_all(flush(ws, cur)) == concat_all(ws) + cur,
{
    if cur.len() == 0 {
        assert(concat_all(ws) + cur =~= concat_all(ws));
    } else {
        let f = ws.push(cur);
        assert(f.drop_last() =~= ws);
        assert forall|i: int, j: int| 0 <= i < f.len() && 0 <= j < f[i].len() implies spec_classify(
            rule,
            #[trigger] f[i][j],
        ) != CharClass::Separator && (spec_classify(rule, f[i][j]) == CharClass::Isolated
            ==> f[i].len() == 1) by {
            if i < ws.len() {
                assert(f[i] == ws[i]);
            }
        }
    }
}

proof fn lemma_segment_state(text: Seq<char>, rule: SplitRule)
    ensures
        words_well_formed(segment_state(text, rule).0, rule),
        only_word_chars(segment_state(text, rule).1, rule),
        concat_all(segment_state(text, rule).0) + segment_state(text, rule).1 == kept_chars(
            text,
            rule,
        ),
    decreases text.len(),
{
    if text.len() == 0 {
        assert(concat_all(Seq::<Seq<char>>::empty()) + Seq::<char>::empty() =~= Seq::<char>::empty());
    } else {
        let prev = segment_state(text.drop_last(), rule);
        let c = text.last();
        lemma_segment_state(text.drop_last(), rule);
        lemma_flush(prev.0, prev.1, rule);
        let fl = flush(prev.0, prev.1);
        match spec_classify(rule, c) {
            CharClass::Separator => {
                assert(concat_all(fl) + Seq::<char>::empty() =~= concat_all(fl));
            },
            CharClass::Isolated => {
                let ws = fl.push(seq![c]);
                assert(ws.drop_last() =~= fl);
                assert forall|i: int, j: int| 0 <= i < ws.len() && 0 <= j < ws[i].len() implies spec_classify(
                    rule,
                    #[trigger] ws[i][j],
                ) != CharClass::Separator && (spec_classify(rule, ws[i][j]) == CharClass::Isolated
                    ==> ws[i].len() == 1) by {
                    if i < fl.len() {
                        assert(ws[i] == fl[i]);
                    }
                }
                assert(concat_all(ws) + Seq::<char>::empty() =~= (concat_all(prev.0) + prev.1).push(c));
            },
            CharClass::Word => {
                assert forall|j: int| 0 <= j < prev.1.push(c).len() implies spec_classify(
                    rule,
                    #[trigger] prev.1.push(c)[j],
                ) == CharClass::Word by {
                    if j < prev.1.len() {
                        assert(prev.1.push(c)[j] == prev.1[j]);
                    }
                }
                assert(concat_all(prev.0) + prev.1.push(c) =~= (concat_all(prev.0) + prev.1).push(c));
            },
        }
    }
}

/// The words of a segmentation are well formed (not empty, without
/// separators, isolated characters alone), and together they spell out the
/// text without its separators.
pub proof fn lemma_segment(text: Seq<char>, rule: SplitRule)
    ensures
        words_well_formed(spec_segment(text, rule), rule),
        concat_all(spec_segment(text, rule)) == kept_chars(text, rule),
{
    lemma_segment_state(text, rule);
    let st = segment_state(text, rule);
    lemma_flush(st.0, st.1, rule);
}

/// Without separators, nothing of the text is dropped.
pub proof fn lemma_kept_all(text: Seq<char>, rule: SplitRule)
    requires
        forall|i: int| 0 <= i < text.len() ==> spec_classify(rule, #[trigger] text[i]) != CharClass::Separator,
    ensures
        kept_chars(text, rule) == text,
    decreases text.len(),
{
    if text.len() > 0 {
        assert forall|i: int| 0 <= i < text.drop_last().len() implies spec_classify(
            rule,
            #[trigger] text.drop_last()[i],
        ) != CharClass::Separator by {
            assert(text.drop_last()[i] == text[i]);
        }
        lemma_kept_all(text.drop_last(), rule);
        assert(spec_classify(rule, text[text.len() - 1]) != CharClass::Separator);
        assert(text.drop_last().push(text.last()) =~= text);
    }
}

/// Concatenation distributes over appending lists.
pub proof fn lemma_concat_all_append<A>(a: Seq<Seq<A>>, b: Seq<Seq<A>>)
    ensures
        concat_all(a + b) == concat_all(a) + concat_all(b),
    decreases b.len(),
{
    if b.len() == 0 {
        assert(a + b =~= a);
        assert(concat_all(a) + concat_all(b) =~= concat_all(a));
    } else {
        lemma_concat_all_append(a, b.drop_last());
        assert((a + b).drop_last() =~= a + b.drop_last());
        assert((a + b).last() == b.last());
        assert(concat_all(a) + concat_all(b.drop_last()) + b.last() =~= concat_all(a) + (concat_all(
            b.drop_last(),
        ) + b.last()));
    }
}

/// Appending well-formed word lists gives a well-formed word list.
pub proof fn lemma_well_formed_append(a: Seq<Seq<char>>, b: Seq<Seq<char>>, rule: SplitRule)
    requires
        words_well_formed(a, rule),
        words_well_formed(b, rule),
    ensures
        words_well_formed(a + b, rule),
{
    let ab = a + b;
    assert forall|i: int| 0 <= i < ab.len() implies (#[trigger] ab[i]).len() > 0 by {
        if i < a.len() {
            assert(ab[i] == a[i]);
        } else {
            assert(ab[i] == b[i - a.len()]);
        }
    }
    assert forall|i: int, j: int| 0 <= i < ab.len() && 0 <= j < ab[i].len() implies spec_classify(
        rule,
        #[trigger] ab[i][j],
    ) != CharClass::Separator && (spec_classify(rule, ab[i][j]) == CharClass::Isolated
        ==> ab[i].len() == 1) by {
        if i < a.len() {
            assert(ab[i] == a[i]);
        } else {
            assert(ab[i] == b[i - a.len()]);
        }
    }
}

/// Words joined by single spaces.
pub open spec fn join_words(ws: Seq<Seq<char>>) -> Seq<char>
    decreases ws.len(),
{
    if ws.len() == 0 {
        Seq::empty()
    } else if ws.len() == 1 {
        ws[0]
    } else {
        join_words(ws.drop_last()).push(' ') + ws.last()
    }
}

/// Reading the characters `b` on from the state `st`.
pub open spec fn segment_from(
    st: (Seq<Seq<char>>, Seq<char>),
    b: Seq<char>,
    rule: SplitRule,
) -> (Seq<Seq<char>>, Seq<char>)
    decreases b.len(),
{
    if b.len() == 0 {
        st
    } else {
        segment_step(segment_from(st, b.drop_last(), rule), b.last(), spec_classify(rule, b.last()))
    }
}

proof fn lemma_segment_append(a: Seq<char>, b: Seq<char>, rule: SplitRule)
    ensures
        segment_state(a + b, rule) == segment_from(segment_state(a, rule), b, rule),
    decreases b.len(),
{
    if b.len() == 0 {
        assert(a + b =~= a);
    } else {
        lemma_segment_append(a, b.drop_last(), rule);
        assert((a + b).drop_last() =~= a + b.drop_last());
        assert((a + b).last() == b.last());
    }
}

/// Reading `b` after finished words `w` and no current word gives `w`
/// followed by what reading `b` alone gives.
proof fn lemma_segment_from_fresh(w: Seq<Seq<char>>, b: Seq<char>, rule: SplitRule)
    ensures
        segment_from((w, Seq::empty()), b, rule) == (
            w + segment_state(b, rule).0,
            segment_state(b, rule).1,
        ),
    decreases b.len(),
{
    if b.len() == 0 {
        assert(w + Seq::<Seq<char>>::empty() =~= w);
    } else {
        lemma_segment_from_fresh(w, b.drop_last(), rule);
        let st = segment_state(b.drop_last(), rule);
        let c = b.last();
        assert(flush(w + st.0, st.1) =~= w + flush(st.0, st.1));
        assert((w + flush(st.0, st.1)).push(seq![c]) =~= w + flush(st.0, st.1).push(seq![c]));
    }
}

/// Segmentation splits at a character that ends words: where `rule`
/// isolates `c`, the words of `a + [c] + b` are the words of `a`, then `c`
/// alone, then the words of `b`; where `c` separates, they are the words
/// of `a` followed by those of `b`.
pub proof fn lemma_segment_split_at(a: Seq<char>, c: char, b: Seq<char>, rule: SplitRule)
    ensures
        spec_classify(rule, c) == CharClass::Isolated ==> spec_segment(a + seq![c] + b, rule)
            == spec_segment(a, rule).push(seq![c]) + spec_segment(b, rule),
        spec_classify(rule, c) == CharClass::Separator ==> spec_segment(a + seq![c] + b, rule)
            == spec_segment(a, rule) + spec_segment(b, rule),
{
    let ac = a + seq![c];
    assert(ac.drop_last() =~= a);
    assert(ac.last() == c);
    lemma_segment_append(ac, b, rule);
    let sb = segment_state(b, rule);
    if spec_classify(rule, c) == CharClass::Isolated {
        let w = spec_segment(a, rule).push(seq![c]);
        lemma_segment_from_fresh(w, b, rule);
        assert(flush(w + sb.0, sb.1) =~= w + flush(sb.0, sb.1));
    } else if spec_classify(rule, c) == CharClass::Separator {
        let w = spec_segment(a, rule);
        lemma_segment_from_fresh(w, b, rule);
        assert(flush(w + sb.0, sb.1) =~= w + flush(sb.0, sb.1));
    }
}

proof fn lemma_segment_word_chars(st: (Seq<Seq<char>>, Seq<char>), w: Seq<char>, rule: SplitRule)
    requires
        only_word_chars(w, rule),
    ensures
        segment_from(st, w, rule) == (st.0, st.1 + w),
    decreases w.len(),
{
    if w.len() == 0 {
        assert(st.1 + w =~= st.1);
    } else {
        assert(only_word_chars(w.drop_last(), rule)) by {
            assert forall|j: int| 0 <= j < w.drop_last().len() implies spec_classify(
                rule,
                #[trigger] w.drop_last()[j],
            ) == CharClass::Word by {
                assert(w.drop_last()[j] == w[j]);
            }
        }
        lemma_segment_word_chars(st, w.drop_last(), rule);
        assert(spec_classify(rule, w[w.len() - 1]) == CharClass::Word);
        assert((st.1 + w.drop_last()).push(w.last()) =~= st.1 + w);
    }
}

/// A single word of word characters is its own segmentation.
pub proof fn lemma_segment_single(w: Seq<char>, rule: SplitRule)
    requires
        w.len() > 0,
        only_word_chars(w, rule),
    ensures
        spec_segment(w, rule) == seq![w],
{
    let e: Seq<char> = Seq::empty();
    lemma_segment_append(e, w, rule);
    assert(e + w =~= w);
    lemma_segment_word_chars((Seq::<Seq<char>>::empty(), e), w, rule);
    assert(e + w =~= w);
    assert(Seq::<Seq<char>>::empty().push(w) =~= seq![w]);
}

proof fn lemma_segment_join_state(ws: Seq<Seq<char>>, rule: SplitRule)
    requires
        ws.len() > 0,
        forall|i: int| 0 <= i < ws.len() ==> (#[trigger] ws[i]).len() > 0,
        forall|i: int| 0 <= i < ws.len() ==> only_word_chars(#[trigger] ws[i], rule),
        spec_classify(rule, ' ') == CharClass::Separator,
    ensures
        segment_state(join_words(ws), rule) == (ws.drop_last(), ws.last()),
    decreases ws.len(),
{
    let e: Seq<char> = Seq::empty();
    if ws.len() == 1 {
        lemma_segment_append(e, ws[0], rule);
        assert(e + ws[0] =~= ws[0]);
        assert(only_word_chars(ws[0], rule));
        lemma_segment_word_chars((Seq::<Seq<char>>::empty(), e), ws[0], rule);
        assert(e + ws[0] =~= ws[0]);
        assert(ws.drop_last() =~= Seq::<Seq<char>>::empty());
    } else {
        let init = ws.drop_last();
        let w = ws.last();
        assert forall|i: int| 0 <= i < init.len() implies (#[trigger] init[i]).len() > 0
            && only_word_chars(init[i], rule) by {
            assert(init[i] == ws[i]);
        }
        lemma_segment_join_state(init, rule);
        let j = join_words(init);
        assert(j.push(' ').drop_last() =~= j);
        assert(segment_state(j.push(' '), rule) == (init, Seq::<char>::empty())) by {
            assert(init.drop_last().push(init.last()) =~= init);
        }
        lemma_segment_append(j.push(' '), w, rule);
        assert(only_word_chars(ws[ws.len() - 1], rule));
        lemma_segment_word_chars((init, Seq::<char>::empty()), w, rule);
        assert(Seq::<char>::empty() + w =~= w);
    }
}

/// Words of word characters joined by spaces split back into those words,
/// under a rule where the space separates.
pub proof fn lemma_segment_join(ws: Seq<Seq<char>>, rule: SplitRule)
    requires
        forall|i: int| 0 <= i < ws.len() ==> (#[trigger] ws[i]).len() > 0,
        forall|i: int| 0 <= i < ws.len() ==> only_word_chars(#[trigger] ws[i], rule),
        spec_classify(rule, ' ') == CharClass::Separator,
    ensures
        spec_segment(join_words(ws), rule) == ws,
{
    if ws.len() > 0 {
        lemma_segment_join_state(ws, rule);
        assert(ws.last() == ws[ws.len() - 1]);
        assert(ws.drop_last().push(ws.last()) =~= ws);
    }
}

} // verus!
