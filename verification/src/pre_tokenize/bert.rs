//! BERT-style pre-tokenization.
//!
//! Splits text on whitespace and punctuation, following the original
//! BERT tokenizer's approach.

use vstd::prelude::*;
use crate::chars::{char_is_whitespace, str_to_lowercase, unicode_lowercase, unicode_white_space, views};
use super::{
    concat_all, kept_chars, lemma_segment, lemma_segment_split_at, segment, spec_classify, spec_segment,
    CharClass, SplitRule,
};

verus! {

/// ASCII punctuation: `!`..=`/`, `:`..=`@`, `[`..=`` ` ``, `{`..=`~`.
pub open spec fn spec_is_ascii_punctuation(c: char) -> bool {
    ||| ('!' <= c && c <= '/')
    ||| (':' <= c && c <= '@')
    ||| ('[' <= c && c <= '`')
    ||| ('{' <= c && c <= '~')
}

/// ASCII punctuation, or a character of the Latin-1 punctuation, General
/// Punctuation, Supplemental Punctuation or CJK Symbols and Punctuation blocks.
pub open spec fn spec_is_punctuation(c: char) -> bool {
    ||| spec_is_ascii_punctuation(c)
    ||| ('\u{00A1}' <= c && c <= '\u{00BF}')
    ||| ('\u{2000}' <= c && c <= '\u{206F}')
    ||| ('\u{2E00}' <= c && c <= '\u{2E7F}')
    ||| ('\u{3000}' <= c && c <= '\u{303F}')
}

/// Checks if a character is a punctuation character.
///
/// Uses a simple heuristic: ASCII punctuation plus Unicode punctuation blocks.
pub fn is_punctuation(c: char) -> (r: bool)
    ensures
        r == spec_is_punctuation(c),
{
    // ASCII punctuation
    if ('!' <= c && c <= '/') || (':' <= c && c <= '@') || ('[' <= c && c <= '`') || ('{' <= c
        && c <= '~') {
        return true;
    }
    // Latin-1, General, Supplemental and CJK punctuation blocks
    ('\u{00A1}' <= c && c <= '\u{00BF}') || ('\u{2000}' <= c && c <= '\u{206F}') || ('\u{2E00}'
        <= c && c <= '\u{2E7F}') || ('\u{3000}' <= c && c <= '\u{303F}')
}

/// Checks if a character is a whitespace character (Unicode `White_Space`).
pub fn is_whitespace(c: char) -> (r: bool)
    ensures
        r == unicode_white_space(c),
{
    char_is_whitespace(c)
}

/// The words that `pre_tokenize_bert` gives for `text`.
pub open spec fn spec_pre_tokenize_bert(text: Seq<char>, lowercase: bool) -> Seq<Seq<char>> {
    if lowercase {
        spec_segment(text, SplitRule::Bert).map_values(|w: Seq<char>| unicode_lowercase(w))
    } else {
        spec_segment(text, SplitRule::Bert)
    }
}

/// Pre-tokenizes text using BERT-style rules.
///
/// 1. Splits on whitespace (whitespace is dropped)
/// 2. Splits punctuation into separate one-character tokens
/// 3. Optionally lowercases each token
pub fn pre_tokenize_bert(text: &str, lowercase: bool) -> (r: Vec<String>)
    ensures
        views(r@) == spec_pre_tokenize_bert(text@, lowercase),
{
    let tokens = segment(text, SplitRule::Bert);
    if lowercase {
        let mut lowered: Vec<String> = Vec::new();
        let mut i: usize = 0;
        while i < tokens.len()
            invariant
                i <= tokens@.len(),
                views(tokens@) == spec_segment(text@, SplitRule::Bert),
                views(lowered@) =~= views(tokens@).take(i as int).map_values(
                    |w: Seq<char>| unicode_lowercase(w),
                ),
            decreases tokens@.len() - i,
        {
            let ghost old_lowered = lowered@;
            lowered.push(str_to_lowercase(tokens[i].as_str()));
            assert(views(lowered@) =~= views(old_lowered).push(unicode_lowercase(tokens@[i as int]@)));
            assert(views(tokens@).take(i + 1) =~= views(tokens@).take(i as int).push(tokens@[i as int]@));
            i = i + 1;
        }
        assert(views(tokens@).take(tokens@.len() as int) =~= views(tokens@));
        lowered
    } else {
        tokens
    }
}

/// BERT pre-tokenization without lowercasing: no word is empty or holds
/// whitespace, a punctuation character is always a word of its own, and
/// the words spell out the text without its whitespace.
pub proof fn lemma_pre_tokenize_bert(text: Seq<char>)
    ensures
        forall|i: int|
            0 <= i < spec_pre_tokenize_bert(text, false).len() ==> (#[trigger] spec_pre_tokenize_bert(
                text,
                false,
            )[i]).len() > 0,
        forall|i: int, j: int|
            0 <= i < spec_pre_tokenize_bert(text, false).len() && 0 <= j < spec_pre_tokenize_bert(
                text,
                false,
            )[i].len() ==> !unicode_white_space(#[trigger] spec_pre_tokenize_bert(text, false)[i][j]),
        forall|i: int, j: int|
            0 <= i < spec_pre_tokenize_bert(text, false).len() && 0 <= j < spec_pre_tokenize_bert(
                text,
                false,
            )[i].len() && spec_is_punctuation(#[trigger] spec_pre_tokenize_bert(text, false)[i][j])
                ==> spec_pre_tokenize_bert(text, false)[i].len() == 1,
        concat_all(spec_pre_tokenize_bert(text, false)) == kept_chars(text, SplitRule::Bert),
{
    lemma_segment(text, SplitRule::Bert);
    let ws = spec_pre_tokenize_bert(text, false);
    assert forall|i: int, j: int| 0 <= i < ws.len() && 0 <= j < ws[i].len() implies !unicode_white_space(
        #[trigger] ws[i][j],
    ) && (spec_is_punctuation(ws[i][j]) ==> ws[i].len() == 1) by {
        assert(spec_classify(SplitRule::Bert, ws[i][j]) != CharClass::Separator);
    }
}

/// A printable ASCII character (`!` to `~`) that is neither a letter nor a
/// digit.
pub open spec fn is_ascii_symbol(c: char) -> bool {
    &&& '!' <= c && c <= '~'
    &&& !('0' <= c && c <= '9')
    &&& !('A' <= c && c <= 'Z')
    &&& !('a' <= c && c <= 'z')
}

/// The characters that BERT pre-tokenization sets apart as words of their
/// own are exactly the non-whitespace characters that are printable ASCII
/// symbols or lie in the Latin-1 punctuation range (U+00A1 to U+00BF) or
/// in the General Punctuation, Supplemental Punctuation or CJK Symbols and
/// Punctuation blocks; the characters it drops are exactly the whitespace.
pub proof fn lemma_bert_classes(c: char)
    ensures
        spec_classify(SplitRule::Bert, c) == CharClass::Isolated <==> !unicode_white_space(c) && (
        is_ascii_symbol(c) || ('\u{00A1}' <= c && c <= '\u{00BF}') || ('\u{2000}' <= c && c
            <= '\u{206F}') || ('\u{2E00}' <= c && c <= '\u{2E7F}') || ('\u{3000}' <= c && c
            <= '\u{303F}')),
        spec_classify(SplitRule::Bert, c) == CharClass::Separator <==> unicode_white_space(c),
{
}

/// BERT pre-tokenization (without lowercasing) around one character: a
/// printable ASCII symbol, or a non-whitespace character of the Unicode
/// punctuation ranges, becomes a word of its own between the words of the
/// text before it and those of the text after it; whitespace is dropped
/// and splits the text there.
pub proof fn lemma_pre_tokenize_bert_at(a: Seq<char>, c: char, b: Seq<char>)
    ensures
        !unicode_white_space(c) && (is_ascii_symbol(c) || ('\u{00A1}' <= c && c <= '\u{00BF}') || (
        '\u{2000}' <= c && c <= '\u{206F}') || ('\u{2E00}' <= c && c <= '\u{2E7F}') || (
        '\u{3000}' <= c && c <= '\u{303F}')) ==> spec_pre_tokenize_bert(a + seq![c] + b, false)
            == spec_pre_tokenize_bert(a, false).push(seq![c]) + spec_pre_tokenize_bert(b, false),
        unicode_white_space(c) ==> spec_pre_tokenize_bert(a + seq![c] + b, false)
            == spec_pre_tokenize_bert(a, false) + spec_pre_tokenize_bert(b, false),
{
    lemma_bert_classes(c);
    lemma_segment_split_at(a, c, b, SplitRule::Bert);
}

} // verus!
