//! Unicode-aware pre-tokenization utilities.
//!
//! Handles CJK characters and the Japanese kana blocks.

use vstd::prelude::*;
use crate::chars::views;
use super::{
    concat_all, lemma_concat_all_append, lemma_kept_all, lemma_segment, lemma_segment_split_at,
    lemma_well_formed_append, segment, spec_classify, spec_segment, words_well_formed, CharClass,
    SplitRule,
};

verus! {

/// CJK Unified Ideographs (with extensions A to E) and the CJK
/// Compatibility Ideographs blocks.
pub open spec fn spec_is_cjk_character(c: char) -> bool {
    ||| ('\u{4E00}' <= c && c <= '\u{9FFF}')
    ||| ('\u{3400}' <= c && c <= '\u{4DBF}')
    ||| ('\u{20000}' <= c && c <= '\u{2A6DF}')
    ||| ('\u{2A700}' <= c && c <= '\u{2B73F}')
    ||| ('\u{2B740}' <= c && c <= '\u{2B81F}')
    ||| ('\u{2B820}' <= c && c <= '\u{2CEAF}')
    ||| ('\u{F900}' <= c && c <= '\u{FAFF}')
    ||| ('\u{2F800}' <= c && c <= '\u{2FA1F}')
}

/// Checks if a character is a CJK (Chinese, Japanese, Korean) character.
///
/// CJK characters are tokenized individually (each character = one token).
pub fn is_cjk_character(c: char) -> (r: bool)
    ensures
        r == spec_is_cjk_character(c),
{
    ('\u{4E00}' <= c && c <= '\u{9FFF}')        // CJK Unified Ideographs
    || ('\u{3400}' <= c && c <= '\u{4DBF}')     // Extension A
    || ('\u{20000}' <= c && c <= '\u{2A6DF}')   // Extension B
    || ('\u{2A700}' <= c && c <= '\u{2B73F}')   // Extension C
    || ('\u{2B740}' <= c && c <= '\u{2B81F}')   // Extension D
    || ('\u{2B820}' <= c && c <= '\u{2CEAF}')   // Extension E
    || ('\u{F900}' <= c && c <= '\u{FAFF}')     // CJK Compatibility Ideographs
    || ('\u{2F800}' <= c && c <= '\u{2FA1F}')   // Compatibility Ideographs Supplement
}

/// Checks if a character is a Japanese Hiragana character.
pub fn is_hiragana(c: char) -> (r: bool)
    ensures
        r == ('\u{3040}' <= c && c <= '\u{309F}'),
{
    '\u{3040}' <= c && c <= '\u{309F}'
}

/// Checks if a character is a Japanese Katakana character.
pub fn is_katakana(c: char) -> (r: bool)
    ensures
        r == (('\u{30A0}' <= c && c <= '\u{30FF}') || ('\u{31F0}' <= c && c <= '\u{31FF}')),
{
    ('\u{30A0}' <= c && c <= '\u{30FF}') || ('\u{31F0}' <= c && c <= '\u{31FF}')
}

/// The words that `split_cjk` gives for `tokens`.
pub open spec fn spec_split_cjk(tokens: Seq<Seq<char>>) -> Seq<Seq<char>> {
    concat_all(tokens.map_values(|t: Seq<char>| spec_segment(t, SplitRule::Cjk)))
}

/// Splits every token so that each CJK character stands alone; runs of
/// other characters stay together.
pub fn split_cjk(tokens: Vec<String>) -> (r: Vec<String>)
    ensures
        views(r@) == spec_split_cjk(views(tokens@)),
{
    let mut out: Vec<String> = Vec::new();
    let mut i: usize = 0;
    while i < tokens.len()
        invariant
            i <= tokens@.len(),
            views(out@) == spec_split_cjk(views(tokens@).take(i as int)),
        decreases tokens@.len() - i,
    {
        let pieces = segment(tokens[i].as_str(), SplitRule::Cjk);
        let ghost before = views(out@);
        let mut j: usize = 0;
        while j < pieces.len()
            invariant
                j <= pieces@.len(),
                views(out@) == before + views(pieces@).take(j as int),
            decreases pieces@.len() - j,
        {
            let ghost old_out = out@;
            out.push(pieces[j].clone());
            assert(views(out@) =~= views(old_out).push(pieces@[j as int]@));
            assert(views(pieces@).take(j + 1) =~= views(pieces@).take(j as int).push(pieces@[j as int]@));
            j = j + 1;
        }
        proof {
            let f = |t: Seq<char>| spec_segment(t, SplitRule::Cjk);
            let s = views(tokens@).take(i + 1);
            assert(s.drop_last() =~= views(tokens@).take(i as int));
            assert(s.map_values(f).drop_last() =~= views(tokens@).take(i as int).map_values(f));
            assert(views(pieces@).take(pieces@.len() as int) =~= views(pieces@));
        }
        i = i + 1;
    }
    assert(views(tokens@).take(tokens@.len() as int) =~= views(tokens@));
    out
}

/// CJK splitting keeps every character, in order; no resulting word is
/// empty, and a CJK character is always a word of its own.
pub proof fn lemma_split_cjk(tokens: Seq<Seq<char>>)
    ensures
        concat_all(spec_split_cjk(tokens)) == concat_all(tokens),
        words_well_formed(spec_split_cjk(tokens), SplitRule::Cjk),
        forall|i: int, j: int|
            0 <= i < spec_split_cjk(tokens).len() && 0 <= j < spec_split_cjk(tokens)[i].len()
                && spec_is_cjk_character(#[trigger] spec_split_cjk(tokens)[i][j])
                ==> spec_split_cjk(tokens)[i].len() == 1,
    decreases tokens.len(),
{
    let f = |t: Seq<char>| spec_segment(t, SplitRule::Cjk);
    if tokens.len() == 0 {
        assert(tokens.map_values(f) =~= Seq::<Seq<Seq<char>>>::empty());
    } else {
        let init = tokens.drop_last();
        let t = tokens.last();
        lemma_split_cjk(init);
        assert(tokens.map_values(f).drop_last() =~= init.map_values(f));
        assert(spec_split_cjk(tokens) == spec_split_cjk(init) + spec_segment(t, SplitRule::Cjk));
        lemma_segment(t, SplitRule::Cjk);
        lemma_kept_all(t, SplitRule::Cjk);
        lemma_concat_all_append(spec_split_cjk(init), spec_segment(t, SplitRule::Cjk));
        lemma_well_formed_append(spec_split_cjk(init), spec_segment(t, SplitRule::Cjk), SplitRule::Cjk);
    }
    let ws = spec_split_cjk(tokens);
    assert forall|i: int, j: int|
        0 <= i < ws.len() && 0 <= j < ws[i].len() && spec_is_cjk_character(#[trigger] ws[i][j])
        implies ws[i].len() == 1 by {
        assert(spec_classify(SplitRule::Cjk, ws[i][j]) == CharClass::Isolated);
    }
}

/// CJK splitting of one word is the segmentation of that word.
proof fn lemma_split_cjk_one(w: Seq<char>)
    ensures
        spec_split_cjk(seq![w]) == spec_segment(w, SplitRule::Cjk),
{
    let f = |t: Seq<char>| spec_segment(t, SplitRule::Cjk);
    let m = seq![w].map_values(f);
    assert(m.drop_last() =~= Seq::<Seq<Seq<char>>>::empty());
    assert(concat_all(m.drop_last()) == Seq::<Seq<char>>::empty());
    assert(Seq::<Seq<char>>::empty() + spec_segment(w, SplitRule::Cjk) =~= spec_segment(
        w,
        SplitRule::Cjk,
    ));
}

/// CJK splitting sets apart exactly the characters of the CJK Unified
/// Ideographs block (U+4E00 to U+9FFF), its extensions A (U+3400 to
/// U+4DBF), B (U+20000 to U+2A6DF), C (U+2A700 to U+2B73F), D (U+2B740 to
/// U+2B81F) and E (U+2B820 to U+2CEAF), and the CJK Compatibility
/// Ideographs blocks (U+F900 to U+FAFF, U+2F800 to U+2FA1F): such a
/// character in a word becomes a word of its own between the pieces of
/// the word before and after it; every other character stays in its piece.
pub proof fn lemma_split_cjk_at(a: Seq<char>, c: char, b: Seq<char>)
    ensures
        (spec_classify(SplitRule::Cjk, c) == CharClass::Isolated) == (('\u{4E00}' <= c && c
            <= '\u{9FFF}') || ('\u{3400}' <= c && c <= '\u{4DBF}') || ('\u{20000}' <= c && c
            <= '\u{2A6DF}') || ('\u{2A700}' <= c && c <= '\u{2B73F}') || ('\u{2B740}' <= c && c
            <= '\u{2B81F}') || ('\u{2B820}' <= c && c <= '\u{2CEAF}') || ('\u{F900}' <= c && c
            <= '\u{FAFF}') || ('\u{2F800}' <= c && c <= '\u{2FA1F}')),
        spec_classify(SplitRule::Cjk, c) != CharClass::Separator,
        spec_classify(SplitRule::Cjk, c) == CharClass::Isolated ==> spec_split_cjk(
            seq![a + seq![c] + b],
        ) == spec_split_cjk(seq![a]).push(seq![c]) + spec_split_cjk(seq![b]),
{
    lemma_segment_split_at(a, c, b, SplitRule::Cjk);
    lemma_split_cjk_one(a + seq![c] + b);
    lemma_split_cjk_one(a);
    lemma_split_cjk_one(b);
}

} // verus!
