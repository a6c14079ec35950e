//! WordPiece tokenizer for encoding and decoding text.

use vstd::prelude::*;
use vstd::utf8::is_ascii_chars;
use crate::chars::{push_char, push_chars_from, starts_with_chars, str_to_chars, views};
use crate::config::TokenizerConfig;
use crate::normalize::{nfc_of, normalize_nfc};
use crate::pre_tokenize::{
    concat_all, join_words, kept_chars, lemma_concat_all_append, lemma_segment_join, lemma_segment_single, only_word_chars,
    pre_tokenize_bert, spec_segment, split_cjk, SplitRule,
};
use crate::pre_tokenize::bert::{lemma_pre_tokenize_bert, spec_pre_tokenize_bert};
use crate::pre_tokenize::unicode::{lemma_split_cjk, spec_split_cjk};
use crate::vocab::{as_index, lemma_lookup, spec_lookup, Vocab};

verus! {

/// A sequence of IDs seen as integers.
pub open spec fn as_ints(v: Seq<usize>) -> Seq<int> {
    v.map_values(|x: usize| x as int)
}

/// The words that encoding splits a (normalized) text into: BERT-style
/// pre-tokenization without lowercasing, then CJK splitting.
pub open spec fn spec_pre_tokens(text: Seq<char>) -> Seq<Seq<char>> {
    spec_split_cjk(spec_pre_tokenize_bert(text, false))
}

/// The candidate token for the characters `start..end` of `word`: with the
/// continuation prefix unless it starts the word.
pub open spec fn piece(word: Seq<char>, start: int, end: int, prefix: Seq<char>) -> Seq<char> {
    if start > 0 {
        prefix + word.subrange(start, end)
    } else {
        word.subrange(start, end)
    }
}

/// The longest piece starting at `start` and ending at or before `end` that
/// is in the vocabulary: its ID and its end.
pub open spec fn longest_match(
    toks: Seq<Seq<char>>,
    word: Seq<char>,
    prefix: Seq<char>,
    start: int,
    end: int,
) -> Option<(int, int)>
    decreases end - start,
{
    if end <= start {
        None
    } else {
        match spec_lookup(toks, piece(word, start, end, prefix)) {
            Some(id) => Some((id, end)),
            None => longest_match(toks, word, prefix, start, end - 1),
        }
    }
}

/// Greedy longest-match WordPiece IDs of `word` from position `start` on;
/// a position where no piece matches gives `unk` and moves one character.
pub open spec fn wordpiece_from(
    toks: Seq<Seq<char>>,
    word: Seq<char>,
    prefix: Seq<char>,
    unk: int,
    start: int,
) -> Seq<int>
    decreases word.len() - start,
{
    if start < 0 || start >= word.len() {
        Seq::empty()
    } else {
        match longest_match(toks, word, prefix, start, word.len() as int) {
            Some((id, end)) => if start < end <= word.len() {
                seq![id] + wordpiece_from(toks, word, prefix, unk, end)
            } else {
                Seq::empty()
            },
            None => seq![unk] + wordpiece_from(toks, word, prefix, unk, start + 1),
        }
    }
}

/// Greedy longest-match WordPiece IDs of a whole word.
pub open spec fn spec_wordpiece(
    toks: Seq<Seq<char>>,
    word: Seq<char>,
    prefix: Seq<char>,
    unk: int,
) -> Seq<int> {
    wordpiece_from(toks, word, prefix, unk, 0)
}

/// `ids` with `cls` in front and `sep` behind, each where present.
pub open spec fn spec_wrap(ids: Seq<int>, cls: Option<int>, sep: Option<int>) -> Seq<int> {
    let with_cls = match cls {
        Some(c) => seq![c] + ids,
        None => ids,
    };
    match sep {
        Some(s) => with_cls.push(s),
        None => with_cls,
    }
}

/// The first `max` IDs, where a limit is given.
pub open spec fn spec_truncate(ids: Seq<int>, max: Option<usize>) -> Seq<int> {
    match max {
        Some(m) => if ids.len() > m {
            ids.take(m as int)
        } else {
            ids
        },
        None => ids,
    }
}

/// The tokens of the valid IDs among `ids`, in order; invalid IDs are dropped.
pub open spec fn spec_ids_to_tokens(toks: Seq<Seq<char>>, ids: Seq<int>) -> Seq<Seq<char>>
    decreases ids.len(),
{
    if ids.len() == 0 {
        Seq::empty()
    } else {
        let rest = spec_ids_to_tokens(toks, ids.drop_last());
        let id = ids.last();
        if 0 <= id < toks.len() {
            rest.push(toks[id])
        } else {
            rest
        }
    }
}

/// Turning IDs into tokens: each ID that names a token gives that token,
/// in order, and the others are dropped; so IDs that all name tokens give
/// one token per ID.
pub proof fn lemma_ids_to_tokens(toks: Seq<Seq<char>>, ids: Seq<int>)
    ensures
        spec_ids_to_tokens(toks, ids) == valid_only(toks, ids).map_values(|id: int| toks[id]),
        all_below(ids, toks.len() as int) ==> spec_ids_to_tokens(toks, ids).len() == ids.len()
            && forall|i: int| 0 <= i < ids.len() ==> #[trigger] spec_ids_to_tokens(toks, ids)[i]
            == toks[ids[i]],
    decreases ids.len(),
{
    if ids.len() > 0 {
        lemma_ids_to_tokens(toks, ids.drop_last());
        let f = |id: int| toks[id];
        let v = valid_only(toks, ids.drop_last());
        assert(v.push(ids.last()).map_values(f) =~= v.map_values(f).push(toks[ids.last()]));
        if all_below(ids, toks.len() as int) {
            assert(all_below(ids.drop_last(), toks.len() as int)) by {
                assert forall|i: int| 0 <= i < ids.drop_last().len() implies 0 <= #[trigger] ids.drop_last()[i]
                    < toks.len() by {
                    assert(ids.drop_last()[i] == ids[i]);
                }
            }
            assert(0 <= ids[ids.len() - 1] < toks.len());
            let r = spec_ids_to_tokens(toks, ids);
            assert forall|i: int| 0 <= i < ids.len() implies #[trigger] r[i] == toks[ids[i]] by {
                if i < ids.len() - 1 {
                    assert(ids.drop_last()[i] == ids[i]);
                }
            }
        }
    } else {
        assert(valid_only(toks, ids).map_values(|id: int| toks[id]) =~= Seq::<Seq<char>>::empty());
    }
}

/// Decoding state after the IDs `ids`: the text so far, and whether no
/// token has been written yet.
pub open spec fn decode_state(
    toks: Seq<Seq<char>>,
    specials: Seq<Seq<char>>,
    prefix: Seq<char>,
    ids: Seq<int>,
    skip_special: bool,
) -> (Seq<char>, bool)
    decreases ids.len(),
{
    if ids.len() == 0 {
        (Seq::empty(), true)
    } else {
        let prev = decode_state(toks, specials, prefix, ids.drop_last(), skip_special);
        let id = ids.last();
        if id < 0 || id >= toks.len() {
            prev
        } else if skip_special && specials.contains(toks[id]) {
            prev
        } else if prefix.is_prefix_of(toks[id]) {
            (prev.0 + toks[id].skip(prefix.len() as int), false)
        } else if prev.1 {
            (prev.0 + toks[id], false)
        } else {
            (prev.0.push(' ') + toks[id], false)
        }
    }
}

/// The text that decoding `ids` gives.
pub open spec fn spec_decode(
    toks: Seq<Seq<char>>,
    specials: Seq<Seq<char>>,
    prefix: Seq<char>,
    ids: Seq<int>,
    skip_special: bool,
) -> Seq<char> {
    decode_state(toks, specials, prefix, ids, skip_special).0
}

/// `ids` without the IDs of special tokens.
pub open spec fn without_special(
    toks: Seq<Seq<char>>,
    specials: Seq<Seq<char>>,
    ids: Seq<int>,
) -> Seq<int>
    decreases ids.len(),
{
    if ids.len() == 0 {
        Seq::empty()
    } else {
        let rest = without_special(toks, specials, ids.drop_last());
        let id = ids.last();
        if 0 <= id < toks.len() && specials.contains(toks[id]) {
            rest
        } else {
            rest.push(id)
        }
    }
}

/// Decoding with special tokens skipped is decoding after removing the IDs
/// of special tokens.
pub proof fn lemma_decode_skip_special(
    toks: Seq<Seq<char>>,
    specials: Seq<Seq<char>>,
    prefix: Seq<char>,
    ids: Seq<int>,
)
    ensures
        decode_state(toks, specials, prefix, ids, true) == decode_state(
            toks,
            specials,
            prefix,
            without_special(toks, specials, ids),
            false,
        ),
    decreases ids.len(),
{
    if ids.len() > 0 {
        lemma_decode_skip_special(toks, specials, prefix, ids.drop_last());
        let rest = without_special(toks, specials, ids.drop_last());
        assert(rest.push(ids.last()).drop_last() =~= rest);
    }
}

/// `ids` without the IDs that name no token of `toks`.
pub open spec fn valid_only(toks: Seq<Seq<char>>, ids: Seq<int>) -> Seq<int>
    decreases ids.len(),
{
    if ids.len() == 0 {
        Seq::empty()
    } else {
        let rest = valid_only(toks, ids.drop_last());
        let id = ids.last();
        if 0 <= id < toks.len() {
            rest.push(id)
        } else {
            rest
        }
    }
}

/// Decoding ignores the IDs that name no token: it gives what decoding
/// the remaining IDs gives.
pub proof fn lemma_decode_valid_only(
    toks: Seq<Seq<char>>,
    specials: Seq<Seq<char>>,
    prefix: Seq<char>,
    ids: Seq<int>,
    skip_special: bool,
)
    ensures
        decode_state(toks, specials, prefix, ids, skip_special) == decode_state(
            toks,
            specials,
            prefix,
            valid_only(toks, ids),
            skip_special,
        ),
    decreases ids.len(),
{
    if ids.len() > 0 {
        lemma_decode_valid_only(toks, specials, prefix, ids.drop_last(), skip_special);
        let rest = valid_only(toks, ids.drop_last());
        assert(rest.push(ids.last()).drop_last() =~= rest);
    }
}

/// Whether decoding writes something for `id`: it names a token, and that
/// token is not a special one being skipped.
pub open spec fn decode_writes(
    toks: Seq<Seq<char>>,
    specials: Seq<Seq<char>>,
    id: int,
    skip_special: bool,
) -> bool {
    0 <= id < toks.len() && !(skip_special && specials.contains(toks[id]))
}

/// After `ids`, no token has been written exactly when decoding writes
/// nothing for any of them, and then the text is empty.
proof fn lemma_decode_nothing_written(
    toks: Seq<Seq<char>>,
    specials: Seq<Seq<char>>,
    prefix: Seq<char>,
    ids: Seq<int>,
    skip_special: bool,
)
    ensures
        decode_state(toks, specials, prefix, ids, skip_special).1 == (forall|k: int|
            0 <= k < ids.len() ==> !decode_writes(toks, specials, #[trigger] ids[k], skip_special)),
        decode_state(toks, specials, prefix, ids, skip_special).1 ==> decode_state(
            toks,
            specials,
            prefix,
            ids,
            skip_special,
        ).0 == Seq::<char>::empty(),
    decreases ids.len(),
{
    if ids.len() > 0 {
        let init = ids.drop_last();
        lemma_decode_nothing_written(toks, specials, prefix, init, skip_special);
        assert forall|k: int| 0 <= k < init.len() implies init[k] == ids[k] by {}
        assert(ids.last() == ids[ids.len() - 1]);
    }
}

/// Decoding, one ID more at a time. No IDs give the empty text. An ID
/// that names no token, or names a special token while special tokens are
/// skipped, adds nothing. Otherwise a token that starts with the
/// continuing subword prefix is glued on without the prefix, and any other
/// token is written out whole: alone if nothing was written before it,
/// else after a space.
pub proof fn lemma_decode_push(
    toks: Seq<Seq<char>>,
    specials: Seq<Seq<char>>,
    prefix: Seq<char>,
    ids: Seq<int>,
    id: int,
    skip_special: bool,
)
    ensures
        spec_decode(toks, specials, prefix, Seq::empty(), skip_special) == Seq::<char>::empty(),
        !decode_writes(toks, specials, id, skip_special) ==> spec_decode(
            toks,
            specials,
            prefix,
            ids.push(id),
            skip_special,
        ) == spec_decode(toks, specials, prefix, ids, skip_special),
        decode_writes(toks, specials, id, skip_special) && prefix.is_prefix_of(toks[id])
            ==> spec_decode(toks, specials, prefix, ids.push(id), skip_special) == spec_decode(
            toks,
            specials,
            prefix,
            ids,
            skip_special,
        ) + toks[id].skip(prefix.len() as int),
        decode_writes(toks, specials, id, skip_special) && !prefix.is_prefix_of(toks[id]) && (
        forall|k: int| 0 <= k < ids.len() ==> !decode_writes(toks, specials, #[trigger] ids[k], skip_special))
            ==> spec_decode(toks, specials, prefix, ids.push(id), skip_special) == toks[id],
        decode_writes(toks, specials, id, skip_special) && !prefix.is_prefix_of(toks[id]) && (
        exists|k: int| 0 <= k < ids.len() && decode_writes(toks, specials, #[trigger] ids[k], skip_special))
            ==> spec_decode(toks, specials, prefix, ids.push(id), skip_special) == spec_decode(
            toks,
            specials,
            prefix,
            ids,
            skip_special,
        ).push(' ') + toks[id],
{
    assert(ids.push(id).drop_last() =~= ids);
    assert(ids.push(id).last() == id);
    lemma_decode_nothing_written(toks, specials, prefix, ids, skip_special);
    assert(Seq::<char>::empty() + toks[id] =~= toks[id]);
}

/// A longest-match result seen as integers.
pub open spec fn as_match(r: Option<(usize, usize)>) -> Option<(int, int)> {
    match r {
        Some((id, end)) => Some((id as int, end as int)),
        None => None,
    }
}

/// A longest match ends after its start and no later than the search bound.
pub proof fn lemma_longest_match_bounds(
    toks: Seq<Seq<char>>,
    word: Seq<char>,
    prefix: Seq<char>,
    start: int,
    end: int,
)
    ensures
        longest_match(toks, word, prefix, start, end) matches Some((id, e)) ==> start < e <= end
            && spec_lookup(toks, piece(word, start, e, prefix)) == Some(id),
    decreases end - start,
{
    if end > start {
        lemma_longest_match_bounds(toks, word, prefix, start, end - 1);
    }
}

/// The words that encoding works on are never empty and together spell
/// out the text without its whitespace; so there are none exactly when the
/// text is all whitespace.
pub proof fn lemma_pre_tokens(text: Seq<char>)
    ensures
        forall|i: int| 0 <= i < spec_pre_tokens(text).len() ==> (#[trigger] spec_pre_tokens(text)[i]).len() > 0,
        concat_all(spec_pre_tokens(text)) == kept_chars(text, SplitRule::Bert),
        spec_pre_tokens(text).len() == 0 <==> kept_chars(text, SplitRule::Bert).len() == 0,
{
    lemma_pre_tokenize_bert(text);
    lemma_split_cjk(spec_pre_tokenize_bert(text, false));
    let ws = spec_pre_tokens(text);
    if ws.len() > 0 {
        lemma_concat_len(ws);
    }
}

proof fn lemma_concat_len(ws: Seq<Seq<char>>)
    requires
        ws.len() > 0,
        forall|i: int| 0 <= i < ws.len() ==> (#[trigger] ws[i]).len() > 0,
    ensures
        concat_all(ws).len() > 0,
    decreases ws.len(),
{
    assert(ws[ws.len() - 1].len() > 0);
}

/// All IDs of `ids` are below `n`.
pub open spec fn all_below(ids: Seq<int>, n: int) -> bool {
    forall|i: int| 0 <= i < ids.len() ==> 0 <= #[trigger] ids[i] < n
}

/// WordPiece gives valid IDs (given a valid unknown ID), and at most one
/// ID per character.
pub proof fn lemma_wordpiece_valid(
    toks: Seq<Seq<char>>,
    word: Seq<char>,
    prefix: Seq<char>,
    unk: int,
    start: int,
)
    requires
        0 <= unk < toks.len(),
        0 <= start,
    ensures
        all_below(wordpiece_from(toks, word, prefix, unk, start), toks.len() as int),
        wordpiece_from(toks, word, prefix, unk, start).len() <= if start <= word.len() {
            word.len() - start
        } else {
            0
        },
    decreases word.len() - start,
{
    if start < word.len() {
        lemma_longest_match_bounds(toks, word, prefix, start, word.len() as int);
        match longest_match(toks, word, prefix, start, word.len() as int) {
            Some((id, end)) => {
                lemma_lookup(toks, piece(word, start, end, prefix));
                lemma_wordpiece_valid(toks, word, prefix, unk, end);
                let rest = wordpiece_from(toks, word, prefix, unk, end);
                assert(wordpiece_from(toks, word, prefix, unk, start) == seq![id] + rest);
                assert forall|i: int| 0 <= i < (seq![id] + rest).len() implies 0 <= #[trigger] (seq![id] + rest)[i] < toks.len() by {
                    if i > 0 {
                        assert((seq![id] + rest)[i] == rest[i - 1]);
                    }
                }
            },
            None => {
                lemma_wordpiece_valid(toks, word, prefix, unk, start + 1);
                let rest = wordpiece_from(toks, word, prefix, unk, start + 1);
                assert forall|i: int| 0 <= i < (seq![unk] + rest).len() implies 0 <= #[trigger] (seq![unk] + rest)[i] < toks.len() by {
                    if i > 0 {
                        assert((seq![unk] + rest)[i] == rest[i - 1]);
                    }
                }
            },
        }
    }
}

/// A word that is itself a vocabulary token is encoded as that one token.
pub proof fn lemma_wordpiece_whole_word(
    toks: Seq<Seq<char>>,
    word: Seq<char>,
    prefix: Seq<char>,
    unk: int,
)
    requires
        word.len() > 0,
        spec_lookup(toks, word) is Some,
    ensures
        spec_wordpiece(toks, word, prefix, unk) == seq![spec_lookup(toks, word)->0],
{
    assert(piece(word, 0, word.len() as int, prefix) =~= word);
    assert(wordpiece_from(toks, word, prefix, unk, word.len() as int) == Seq::<int>::empty());
    assert(seq![spec_lookup(toks, word)->0] + Seq::<int>::empty() =~= seq![spec_lookup(toks, word)->0]);
}

proof fn lemma_concat_valid(s: Seq<Seq<int>>, n: int)
    requires
        forall|i: int| 0 <= i < s.len() ==> all_below(#[trigger] s[i], n),
    ensures
        all_below(concat_all(s), n),
    decreases s.len(),
{
    if s.len() > 0 {
        assert forall|i: int| 0 <= i < s.drop_last().len() implies all_below(#[trigger] s.drop_last()[i], n) by {
            assert(s.drop_last()[i] == s[i]);
        }
        lemma_concat_valid(s.drop_last(), n);
        let a = concat_all(s.drop_last());
        let b = s.last();
        assert(all_below(s[s.len() - 1], n));
        assert forall|i: int| 0 <= i < (a + b).len() implies 0 <= #[trigger] (a + b)[i] < n by {
            if i >= a.len() {
                assert((a + b)[i] == b[i - a.len()]);
            }
        }
    }
}

/// Greedy longest match: the piece chosen at `start` is in the vocabulary,
/// and no longer piece (ending after it, up to `end`) is; when nothing is
/// chosen, no piece at all is in the vocabulary.
pub proof fn lemma_longest_match_is_longest(
    toks: Seq<Seq<char>>,
    word: Seq<char>,
    prefix: Seq<char>,
    start: int,
    end: int,
)
    ensures
        longest_match(toks, word, prefix, start, end) matches Some((id, e)) ==> toks[id] == piece(
            word,
            start,
            e,
            prefix,
        ) && forall|e2: int|
            e < e2 <= end ==> #[trigger] spec_lookup(toks, piece(word, start, e2, prefix)) is None,
        longest_match(toks, word, prefix, start, end) is None ==> forall|e2: int|
            start < e2 <= end ==> #[trigger] spec_lookup(toks, piece(word, start, e2, prefix)) is None,
    decreases end - start,
{
    if end > start {
        lemma_longest_match_is_longest(toks, word, prefix, start, end - 1);
        lemma_longest_match_bounds(toks, word, prefix, start, end);
        lemma_lookup(toks, piece(word, start, end, prefix));
        if let Some((id, e)) = longest_match(toks, word, prefix, start, end) {
            lemma_lookup(toks, piece(word, start, e, prefix));
        }
    }
}

/// No piece from `s` ending after `c` and at or before `end` is a token:
/// then the longest match up to `end` is the one up to `c`.
proof fn lemma_longest_match_none_after(
    toks: Seq<Seq<char>>,
    word: Seq<char>,
    prefix: Seq<char>,
    s: int,
    c: int,
    end: int,
)
    requires
        s <= c <= end,
        forall|e: int| c < e <= end ==> #[trigger] spec_lookup(toks, piece(word, s, e, prefix)) is None,
    ensures
        longest_match(toks, word, prefix, s, end) == longest_match(toks, word, prefix, s, c),
    decreases end - c,
{
    if end > c {
        assert(spec_lookup(toks, piece(word, s, end, prefix)) is None);
        lemma_longest_match_none_after(toks, word, prefix, s, c, end - 1);
    }
}

/// The cut points `cuts` split `word` the way greedy longest-match
/// WordPiece does, giving the IDs `ids`. They run from 0 up to the word's
/// length. The candidate from a cut is the characters from that cut on,
/// as they stand for the first piece and with `prefix` in front for every
/// later one. Each piece either is the token with its ID, or, where the
/// one-character candidate is no token, is one character with the ID
/// `unk`; and no longer candidate from the same cut is a token.
pub open spec fn greedy_cuts(
    toks: Seq<Seq<char>>,
    word: Seq<char>,
    prefix: Seq<char>,
    unk: int,
    cuts: Seq<int>,
    ids: Seq<int>,
) -> bool {
    &&& cuts.len() == ids.len() + 1
    &&& cuts[0] == 0
    &&& cuts[ids.len() as int] == word.len()
    &&& forall|i: int, j: int| 0 <= i < j <= ids.len() ==> #[trigger] cuts[i] < #[trigger] cuts[j]
    &&& ids.len() > 0 ==> {
        ||| spec_lookup(toks, word.subrange(0, cuts[1])) == Some(ids[0])
        ||| (spec_lookup(toks, word.subrange(0, cuts[1])) is None && cuts[1] == 1 && ids[0] == unk)
    }
    &&& forall|i: int|
        0 < i < ids.len() ==> {
            ||| spec_lookup(toks, prefix + word.subrange(cuts[i], cuts[i + 1])) == Some(
                #[trigger] ids[i],
            )
            ||| (spec_lookup(toks, prefix + word.subrange(cuts[i], cuts[i + 1])) is None && cuts[i
                + 1] == cuts[i] + 1 && ids[i] == unk)
        }
    &&& ids.len() > 0 ==> forall|e: int|
        cuts[1] < e <= word.len() ==> #[trigger] spec_lookup(toks, word.subrange(0, e)) is None
    &&& forall|i: int, e: int|
        0 < i < ids.len() && cuts[i + 1] < e <= word.len() ==> #[trigger] spec_lookup(
            toks,
            prefix + word.subrange(cuts[i], e),
        ) is None
}

proof fn lemma_greedy_cuts_from(
    toks: Seq<Seq<char>>,
    word: Seq<char>,
    prefix: Seq<char>,
    unk: int,
    cuts: Seq<int>,
    ids: Seq<int>,
    j: int,
)
    requires
        greedy_cuts(toks, word, prefix, unk, cuts, ids),
        0 <= j <= ids.len(),
    ensures
        wordpiece_from(toks, word, prefix, unk, cuts[j]) == ids.subrange(j, ids.len() as int),
    decreases ids.len() - j,
{
    let n = ids.len() as int;
    if j == n {
        assert(ids.subrange(j, n) =~= Seq::<int>::empty());
    } else {
        let s = cuts[j];
        let c = cuts[j + 1];
        assert(cuts[0] <= s) by {
            if j > 0 {
                assert(cuts[0] < cuts[j]);
            }
        }
        assert(s < c);
        assert(c <= word.len()) by {
            if j + 1 < n {
                assert(cuts[j + 1] < cuts[n]);
            }
        }
        let found = spec_lookup(toks, piece(word, s, c, prefix));
        if j == 0 {
            assert(found == spec_lookup(toks, word.subrange(0, cuts[1])));
            assert forall|e: int| c < e <= word.len() implies #[trigger] spec_lookup(
                toks,
                piece(word, s, e, prefix),
            ) is None by {
                assert(spec_lookup(toks, word.subrange(0, e)) is None);
            }
        } else {
            assert(cuts[0] < cuts[j]);
            assert(found == spec_lookup(toks, prefix + word.subrange(cuts[j], cuts[j + 1])));
            assert(found == Some(ids[j]) || (found is None && c == s + 1 && ids[j] == unk));
            assert forall|e: int| c < e <= word.len() implies #[trigger] spec_lookup(
                toks,
                piece(word, s, e, prefix),
            ) is None by {
                assert(spec_lookup(toks, prefix + word.subrange(cuts[j], e)) is None);
            }
        }
        lemma_longest_match_none_after(toks, word, prefix, s, c, word.len() as int);
        lemma_greedy_cuts_from(toks, word, prefix, unk, cuts, ids, j + 1);
        assert(seq![ids[j]] + ids.subrange(j + 1, n) =~= ids.subrange(j, n));
        if found != Some(ids[j]) {
            assert(longest_match(toks, word, prefix, s, c - 1) is None);
        }
    }
}

/// Greedy longest-match WordPiece, stated by where a word is cut: when the
/// cut points split the word into pieces, the first a token as it stands
/// and each later one a token with the continuing subword prefix in front,
/// each the longest such token from its start, or else a single character
/// for which no candidate is a token, the word encodes to the IDs of those
/// pieces in order, the unknown ID for each unmatched character. So a word
/// made of a token `t0` and continuation tokens `##t1` .. `##tk`, chosen
/// longest first, gives the IDs of `t0`, `##t1`, .., `##tk`.
pub proof fn lemma_wordpiece_greedy_cuts(
    toks: Seq<Seq<char>>,
    word: Seq<char>,
    prefix: Seq<char>,
    unk: int,
    cuts: Seq<int>,
    ids: Seq<int>,
)
    requires
        greedy_cuts(toks, word, prefix, unk, cuts, ids),
    ensures
        spec_wordpiece(toks, word, prefix, unk) == ids,
{
    lemma_greedy_cuts_from(toks, word, prefix, unk, cuts, ids, 0);
    assert(ids.subrange(0, ids.len() as int) =~= ids);
}

/// An ASCII letter or digit.
pub open spec fn is_ascii_alnum(c: char) -> bool {
    ||| ('a' <= c && c <= 'z')
    ||| ('A' <= c && c <= 'Z')
    ||| ('0' <= c && c <= '9')
}

/// A non-empty word of ASCII letters and digits.
pub open spec fn is_plain_word(w: Seq<char>) -> bool {
    w.len() > 0 && forall|j: int| 0 <= j < w.len() ==> is_ascii_alnum(#[trigger] w[j])
}

/// The vocabulary IDs of the words (each looked up).
pub open spec fn lookup_ids(toks: Seq<Seq<char>>, ws: Seq<Seq<char>>) -> Seq<int> {
    ws.map_values(|w: Seq<char>| spec_lookup(toks, w)->0)
}

proof fn lemma_plain_word_chars(w: Seq<char>)
    requires
        is_plain_word(w),
    ensures
        only_word_chars(w, SplitRule::Bert),
        only_word_chars(w, SplitRule::Cjk),
        is_ascii_chars(w),
{
    assert forall|j: int| 0 <= j < w.len() implies crate::pre_tokenize::spec_classify(
        SplitRule::Bert,
        #[trigger] w[j],
    ) == crate::pre_tokenize::CharClass::Word && crate::pre_tokenize::spec_classify(
        SplitRule::Cjk,
        w[j],
    ) == crate::pre_tokenize::CharClass::Word && '\0' <= w[j] <= '\u{7f}' by {
        assert(is_ascii_alnum(w[j]));
    }
}

proof fn lemma_join_ascii(ws: Seq<Seq<char>>)
    requires
        forall|i: int| 0 <= i < ws.len() ==> is_plain_word(#[trigger] ws[i]),
    ensures
        is_ascii_chars(join_words(ws)),
    decreases ws.len(),
{
    if ws.len() == 1 {
        lemma_plain_word_chars(ws[0]);
    } else if ws.len() > 1 {
        let init = ws.drop_last();
        assert forall|i: int| 0 <= i < init.len() implies is_plain_word(#[trigger] init[i]) by {
            assert(init[i] == ws[i]);
        }
        lemma_join_ascii(init);
        assert(is_plain_word(ws[ws.len() - 1]));
        lemma_plain_word_chars(ws.last());
        let j = join_words(init).push(' ') + ws.last();
        assert forall|k: int| 0 <= k < j.len() implies '\0' <= #[trigger] j[k] <= '\u{7f}' by {
            if k < join_words(init).len() {
                assert(j[k] == join_words(init)[k]);
            } else if k > join_words(init).len() {
                assert(j[k] == ws.last()[k - join_words(init).len() - 1]);
            }
        }
    }
}

proof fn lemma_split_cjk_plain(ws: Seq<Seq<char>>)
    requires
        forall|i: int| 0 <= i < ws.len() ==> is_plain_word(#[trigger] ws[i]),
    ensures
        spec_split_cjk(ws) == ws,
    decreases ws.len(),
{
    let f = |t: Seq<char>| spec_segment(t, SplitRule::Cjk);
    if ws.len() == 0 {
        assert(ws.map_values(f) =~= Seq::<Seq<Seq<char>>>::empty());
    } else {
        let init = ws.drop_last();
        assert forall|i: int| 0 <= i < init.len() implies is_plain_word(#[trigger] init[i]) by {
            assert(init[i] == ws[i]);
        }
        lemma_split_cjk_plain(init);
        assert(ws.map_values(f).drop_last() =~= init.map_values(f));
        assert(is_plain_word(ws[ws.len() - 1]));
        lemma_plain_word_chars(ws.last());
        lemma_segment_single(ws.last(), SplitRule::Cjk);
        assert(ws.map_values(f).last() == seq![ws.last()]);
        assert(init + seq![ws.last()] =~= ws);
    }
}

/// Plain words joined by spaces form an ASCII text whose words, for
/// encoding, are exactly those words.
pub proof fn lemma_pre_tokens_join(ws: Seq<Seq<char>>)
    requires
        forall|i: int| 0 <= i < ws.len() ==> is_plain_word(#[trigger] ws[i]),
    ensures
        is_ascii_chars(join_words(ws)),
        spec_pre_tokens(join_words(ws)) == ws,
{
    lemma_join_ascii(ws);
    assert forall|i: int| 0 <= i < ws.len() implies (#[trigger] ws[i]).len() > 0 && only_word_chars(
        ws[i],
        SplitRule::Bert,
    ) by {
        lemma_plain_word_chars(ws[i]);
    }
    lemma_segment_join(ws, SplitRule::Bert);
    lemma_split_cjk_plain(ws);
}

proof fn lemma_without_special_append(
    toks: Seq<Seq<char>>,
    specials: Seq<Seq<char>>,
    a: Seq<int>,
    b: Seq<int>,
)
    ensures
        without_special(toks, specials, a + b) == without_special(toks, specials, a) + without_special(
            toks,
            specials,
            b,
        ),
    decreases b.len(),
{
    if b.len() == 0 {
        assert(a + b =~= a);
        assert(without_special(toks, specials, a) + without_special(toks, specials, b)
            =~= without_special(toks, specials, a));
    } else {
        lemma_without_special_append(toks, specials, a, b.drop_last());
        assert((a + b).drop_last() =~= a + b.drop_last());
        assert((a + b).last() == b.last());
        let wa = without_special(toks, specials, a);
        let wb = without_special(toks, specials, b.drop_last());
        assert((wa + wb).push(b.last()) =~= wa + wb.push(b.last()));
    }
}

/// The main tokenizer: a vocabulary and a configuration, converting text
/// to token IDs and back.
#[derive(Debug, Clone)]
pub struct Tokenizer {
    /// The vocabulary for token-ID mappings
    vocab: Vocab,
    /// Configuration for encoding behavior
    config: TokenizerConfig,
    /// Prefix for continuing subwords (e.g., "##")
    continuing_subword_prefix: String,
}

impl Tokenizer {
    /// The vocabulary.
    pub closed spec fn spec_vocab(&self) -> Vocab {
        self.vocab
    }

    /// The configuration.
    pub closed spec fn spec_config(&self) -> TokenizerConfig {
        self.config
    }

    /// The continuing subword prefix.
    pub closed spec fn spec_prefix(&self) -> Seq<char> {
        self.continuing_subword_prefix@
    }

    /// The ID of the unknown token (meaningful where it is in the vocabulary).
    pub open spec fn spec_unk(&self) -> int {
        self.spec_vocab().spec_unk_id()->0
    }

    /// Whether the words `words` can be encoded: every word needs the
    /// unknown token to be in the vocabulary, in case no piece matches.
    pub open spec fn can_encode(&self, words: Seq<Seq<char>>) -> bool {
        self.spec_vocab().spec_unk_id() is Some || words.len() == 0
    }

    /// WordPiece IDs of one word.
    pub open spec fn spec_word_ids(&self, word: Seq<char>) -> Seq<int> {
        spec_wordpiece(self.spec_vocab()@, word, self.spec_prefix(), self.spec_unk())
    }

    /// The IDs of the words, each encoded, before wrapping and truncation.
    pub open spec fn spec_words_ids(&self, words: Seq<Seq<char>>) -> Seq<int> {
        concat_all(words.map_values(|w: Seq<char>| self.spec_word_ids(w)))
    }

    /// The IDs that encoding the words `words` gives: WordPiece IDs of each
    /// word, wrapped in [CLS]/[SEP] if configured, truncated if configured.
    pub open spec fn spec_encode_words(&self, words: Seq<Seq<char>>) -> Seq<int> {
        let ids = self.spec_words_ids(words);
        let wrapped = if self.spec_config().wrap_with_cls_sep {
            spec_wrap(ids, self.spec_vocab().spec_cls_id(), self.spec_vocab().spec_sep_id())
        } else {
            ids
        };
        spec_truncate(wrapped, self.spec_config().max_length)
    }

    /// The IDs that encoding an already normalized text gives.
    pub open spec fn spec_encode_normalized(&self, text: Seq<char>) -> Seq<int> {
        self.spec_encode_words(spec_pre_tokens(text))
    }

    /// The text that decoding `ids` gives.
    pub open spec fn spec_decode_ids(&self, ids: Seq<int>, skip_special: bool) -> Seq<char> {
        spec_decode(
            self.spec_vocab()@,
            self.spec_vocab().special().spec_all(),
            self.spec_prefix(),
            ids,
            skip_special,
        )
    }

    /// Creates a new tokenizer with the given vocabulary and default configuration.
    pub fn new(vocab: Vocab) -> (t: Self)
        ensures
            t.spec_vocab() == vocab,
            t.spec_config().wrap_with_cls_sep,
            t.spec_config().max_length is None,
            t.spec_prefix() == "##"@,
    {
        let config = TokenizerConfig::default();
        let continuing_subword_prefix = String::from_str("##");
        Tokenizer { vocab, config, continuing_subword_prefix }
    }

    /// Creates a new tokenizer with custom configuration.
    pub fn with_config(vocab: Vocab, config: TokenizerConfig) -> (t: Self)
        ensures
            t.spec_vocab() == vocab,
            t.spec_config() == config,
            t.spec_prefix() == "##"@,
    {
        let continuing_subword_prefix = String::from_str("##");
        Tokenizer { vocab, config, continuing_subword_prefix }
    }

    /// Creates a new tokenizer with the given vocabulary, configuration and prefix.
    pub fn from(vocab: Vocab, config: TokenizerConfig, prefix: &str) -> (t: Self)
        ensures
            t.spec_vocab() == vocab,
            t.spec_config() == config,
            t.spec_prefix() == prefix@,
    {
        let continuing_subword_prefix = String::from_str(prefix);
        Tokenizer { vocab, config, continuing_subword_prefix }
    }

    /// The words of a normalized text that encoding works on.
    pub fn pre_tokens(text: &str) -> (r: Vec<String>)
        ensures
            views(r@) == spec_pre_tokens(text@),
    {
        let words = pre_tokenize_bert(text, false);
        split_cjk(words)
    }

    /// Encodes text into token IDs.
    ///
    /// 1. Unicode normalization (NFC)
    /// 2. Pre-tokenization (whitespace + punctuation splitting)
    /// 3. CJK character splitting
    /// 4. WordPiece tokenization
    /// 5. Add special tokens (if configured)
    /// 6. Truncation (if configured)
    ///
    /// A text with a word needs the unknown token in the vocabulary.
    pub fn encode(&self, text: &str) -> (r: Vec<usize>)
        requires
            self.can_encode(spec_pre_tokens(nfc_of(text@))),
        ensures
            as_ints(r@) == self.spec_encode_normalized(nfc_of(text@)),
            is_ascii_chars(text@) ==> as_ints(r@) == self.spec_encode_normalized(text@),
    {
        let normalized = normalize_nfc(text);
        self.encode_normalized(normalized.as_str())
    }

    /// Encodes text as `encode` does, where that is possible: `None` exactly
    /// when the text has a word and the vocabulary lacks the unknown token.
    pub fn try_encode(&self, text: &str) -> (r: Option<Vec<usize>>)
        ensures
            r is Some <==> self.can_encode(spec_pre_tokens(nfc_of(text@))),
            r matches Some(v) ==> as_ints(v@) == self.spec_encode_normalized(nfc_of(text@)),
            is_ascii_chars(text@) ==> (r is Some <==> self.can_encode(spec_pre_tokens(text@))),
            is_ascii_chars(text@) ==> (r matches Some(v) ==> as_ints(v@)
                == self.spec_encode_normalized(text@)),
    {
        let normalized = normalize_nfc(text);
        let words = Self::pre_tokens(normalized.as_str());
        if words.len() > 0 && self.vocab.unk_id().is_none() {
            None
        } else {
            Some(self.encode(text))
        }
    }

    /// Encodes a text that is already in NFC form (steps 2 to 6 of `encode`).
    pub fn encode_normalized(&self, text: &str) -> (r: Vec<usize>)
        requires
            self.can_encode(spec_pre_tokens(text@)),
        ensures
            as_ints(r@) == self.spec_encode_normalized(text@),
    {
        let words = Self::pre_tokens(text);
        self.encode_words(&words)
    }

    /// Encodes pre-tokenized words (steps 4 to 6 of `encode`).
    pub fn encode_words(&self, words: &Vec<String>) -> (r: Vec<usize>)
        requires
            self.can_encode(views(words@)),
        ensures
            as_ints(r@) == self.spec_encode_words(views(words@)),
    {
        let ghost f = |w: Seq<char>| self.spec_word_ids(w);
        let mut token_ids: Vec<usize> = Vec::new();
        let mut i: usize = 0;
        while i < words.len()
            invariant
                i <= words@.len(),
                self.can_encode(views(words@)),
                f == (|w: Seq<char>| self.spec_word_ids(w)),
                as_ints(token_ids@) == concat_all(views(words@).take(i as int).map_values(f)),
            decreases words@.len() - i,
        {
            let ghost before = as_ints(token_ids@);
            let mut ids = self.tokenize_word(words[i].as_str());
            let ghost word_ids = as_ints(ids@);
            token_ids.append(&mut ids);
            proof {
                let s = views(words@).take(i + 1);
                assert(s.drop_last() =~= views(words@).take(i as int));
                assert(s.map_values(f).drop_last() =~= views(words@).take(i as int).map_values(f));
                assert(s.map_values(f).last() == word_ids);
                assert(as_ints(token_ids@) =~= before + word_ids);
            }
            i = i + 1;
        }
        assert(views(words@).take(words@.len() as int) =~= views(words@));
        if self.config.wrap_with_cls_sep {
            token_ids = self.wrap_with_cls_sep(token_ids);
        }
        if let Some(max_len) = self.config.max_length {
            let ghost before = as_ints(token_ids@);
            token_ids.truncate(max_len);
            assert(as_ints(token_ids@) =~= spec_truncate(before, Some(max_len)));
        }
        token_ids
    }

    /// Encodes text into token strings (useful for debugging): the tokens of
    /// the IDs that `encode` gives.
    pub fn encode_to_tokens(&self, text: &str) -> (r: Vec<String>)
        requires
            self.can_encode(spec_pre_tokens(nfc_of(text@))),
        ensures
            views(r@) == spec_ids_to_tokens(
                self.spec_vocab()@,
                self.spec_encode_normalized(nfc_of(text@)),
            ),
            is_ascii_chars(text@) ==> views(r@) == spec_ids_to_tokens(
                self.spec_vocab()@,
                self.spec_encode_normalized(text@),
            ),
    {
        let ids = self.encode(text);
        let mut out: Vec<String> = Vec::new();
        let mut i: usize = 0;
        while i < ids.len()
            invariant
                i <= ids@.len(),
                views(out@) == spec_ids_to_tokens(self.spec_vocab()@, as_ints(ids@).take(i as int)),
            decreases ids@.len() - i,
        {
            let ghost before = views(out@);
            assert(as_ints(ids@).take(i + 1).drop_last() =~= as_ints(ids@).take(i as int));
            match self.vocab.get_token(ids[i]) {
                Some(token) => {
                    out.push(token.to_owned());
                    assert(views(out@) =~= before.push(token@));
                },
                None => {},
            }
            i = i + 1;
        }
        assert(as_ints(ids@).take(ids@.len() as int) =~= as_ints(ids@));
        out
    }

    /// Encodes text into token strings as `encode_to_tokens` does, where that
    /// is possible: `None` exactly when the text has a word and the
    /// vocabulary lacks the unknown token.
    pub fn try_encode_to_tokens(&self, text: &str) -> (r: Option<Vec<String>>)
        ensures
            r is Some <==> self.can_encode(spec_pre_tokens(nfc_of(text@))),
            r matches Some(v) ==> views(v@) == spec_ids_to_tokens(
                self.spec_vocab()@,
                self.spec_encode_normalized(nfc_of(text@)),
            ),
    {
        let normalized = normalize_nfc(text);
        let words = Self::pre_tokens(normalized.as_str());
        if words.len() > 0 && self.vocab.unk_id().is_none() {
            None
        } else {
            Some(self.encode_to_tokens(text))
        }
    }

    /// Whether `token` is one of the vocabulary's special tokens.
    fn is_special(&self, token: &String) -> (r: bool)
        ensures
            r == self.spec_vocab().special().spec_all().contains(token@),
    {
        let sp = self.vocab.special_tokens();
        let ghost all = sp.spec_all();
        assert(all[0] == sp.pad@ && all[1] == sp.unk@ && all[2] == sp.cls@ && all[3] == sp.sep@
            && all[4] == sp.mask@);
        *token == sp.pad || *token == sp.unk || *token == sp.cls || *token == sp.sep || *token
            == sp.mask
    }

    /// Decodes token IDs back to text.
    ///
    /// Unknown IDs are skipped; special tokens are skipped if
    /// `skip_special_tokens`. A token that starts with the continuing subword
    /// prefix is appended without the prefix and without a space; any other
    /// token is appended after a space, except the first.
    pub fn decode(&self, ids: &[usize], skip_special_tokens: bool) -> (r: String)
        ensures
            r@ == self.spec_decode_ids(as_ints(ids@), skip_special_tokens),
    {
        let prefix_chars = str_to_chars(self.continuing_subword_prefix.as_str());
        let mut s = String::new();
        let mut first_token = true;
        let mut i: usize = 0;
        while i < ids.len()
            invariant
                i <= ids@.len(),
                prefix_chars@ == self.spec_prefix(),
                (s@, first_token) == decode_state(
                    self.spec_vocab()@,
                    self.spec_vocab().special().spec_all(),
                    self.spec_prefix(),
                    as_ints(ids@).take(i as int),
                    skip_special_tokens,
                ),
            decreases ids@.len() - i,
        {
            assert(as_ints(ids@).take(i + 1).drop_last() =~= as_ints(ids@).take(i as int));
            assert(as_ints(ids@).take(i + 1).last() == ids@[i as int] as int);
            match self.vocab.get_token(ids[i]) {
                None => {},
                Some(token) => {
                    let owned = token.to_owned();
                    if skip_special_tokens && self.is_special(&owned) {
                    } else {
                        let token_chars = str_to_chars(token);
                        if starts_with_chars(&token_chars, &prefix_chars) {
                            push_chars_from(&mut s, &token_chars, prefix_chars.len());
                        } else {
                            if !first_token {
                                push_char(&mut s, ' ');
                            }
                            push_chars_from(&mut s, &token_chars, 0);
                            assert(token_chars@.skip(0) =~= token_chars@);
                        }
                        first_token = false;
                    }
                },
            }
            i = i + 1;
        }
        assert(as_ints(ids@).take(ids@.len() as int) =~= as_ints(ids@));
        s
    }

    /// The candidate token for characters `start..end` of a word.
    fn candidate(&self, chars: &Vec<char>, start: usize, end: usize) -> (r: String)
        requires
            start < end <= chars@.len(),
        ensures
            r@ == piece(chars@, start as int, end as int, self.spec_prefix()),
    {
        let mut buffer = String::new();
        if start > 0 {
            buffer.append(self.continuing_subword_prefix.as_str());
        }
        let ghost head = buffer@;
        let mut k: usize = start;
        while k < end
            invariant
                start <= k <= end <= chars@.len(),
                buffer@ == head + chars@.subrange(start as int, k as int),
            decreases end - k,
        {
            push_char(&mut buffer, chars[k]);
            assert(chars@.subrange(start as int, k + 1) =~= chars@.subrange(start as int, k as int).push(chars@[k as int]));
            k = k + 1;
        }
        assert(start == 0 ==> head + chars@.subrange(start as int, end as int) =~= chars@.subrange(start as int, end as int));
        buffer
    }

    /// The longest vocabulary piece starting at `start`: its ID and end.
    fn find_longest_match(&self, chars: &Vec<char>, start: usize) -> (r: Option<(usize, usize)>)
        requires
            start < chars@.len(),
        ensures
            as_match(r) == longest_match(self.spec_vocab()@, chars@, self.spec_prefix(), start as int, chars@.len() as int),
    {
        let mut end = chars.len();
        while end > start
            invariant
                start <= end <= chars@.len(),
                longest_match(self.spec_vocab()@, chars@, self.spec_prefix(), start as int, chars@.len() as int)
                    == longest_match(self.spec_vocab()@, chars@, self.spec_prefix(), start as int, end as int),
            decreases end,
        {
            let buffer = self.candidate(chars, start, end);
            match self.vocab.lookup(&buffer) {
                Some(id) => {
                    return Some((id, end));
                },
                None => {},
            }
            end = end - 1;
        }
        None
    }

    /// Tokenizes a single word with the WordPiece algorithm: repeatedly
    /// takes the longest vocabulary piece at the current position (with the
    /// continuation prefix after the first piece); where none matches, emits
    /// the unknown token and moves one character.
    fn tokenize_word(&self, word: &str) -> (r: Vec<usize>)
        requires
            word@.len() == 0 || self.spec_vocab().spec_unk_id() is Some,
        ensures
            as_ints(r@) == self.spec_word_ids(word@),
    {
        let mut tokens: Vec<usize> = Vec::new();
        if word.is_empty() {
            assert(as_ints(tokens@) =~= Seq::<int>::empty());
            return tokens;
        }
        let unk_id = match self.vocab.unk_id() {
            Some(u) => u,
            None => {
                return tokens;
            },
        };
        let chars = str_to_chars(word);
        let ghost toks = self.spec_vocab()@;
        let ghost prefix = self.spec_prefix();
        let ghost unk = self.spec_unk();
        let mut start: usize = 0;
        assert(as_ints(tokens@) =~= Seq::<int>::empty());
        assert(Seq::<int>::empty() + wordpiece_from(toks, chars@, prefix, unk, 0) =~= wordpiece_from(toks, chars@, prefix, unk, 0));
        while start < chars.len()
            invariant
                start <= chars@.len(),
                chars@ == word@,
                unk_id as int == unk,
                toks == self.spec_vocab()@,
                prefix == self.spec_prefix(),
                as_ints(tokens@) + wordpiece_from(toks, chars@, prefix, unk, start as int)
                    == wordpiece_from(toks, chars@, prefix, unk, 0),
            decreases chars@.len() - start,
        {
            let ghost before = as_ints(tokens@);
            proof {
                lemma_longest_match_bounds(toks, chars@, prefix, start as int, chars@.len() as int);
            }
            match self.find_longest_match(&chars, start) {
                Some((id, end)) => {
                    tokens.push(id);
                    assert(as_ints(tokens@) =~= before.push(id as int));
                    assert(before + wordpiece_from(toks, chars@, prefix, unk, start as int)
                        =~= as_ints(tokens@) + wordpiece_from(toks, chars@, prefix, unk, end as int));
                    start = end;
                },
                None => {
                    tokens.push(unk_id);
                    assert(as_ints(tokens@) =~= before.push(unk_id as int));
                    assert(before + wordpiece_from(toks, chars@, prefix, unk, start as int)
                        =~= as_ints(tokens@) + wordpiece_from(toks, chars@, prefix, unk, start + 1));
                    start = start + 1;
                },
            }
        }
        assert(as_ints(tokens@) + wordpiece_from(toks, chars@, prefix, unk, start as int) =~= as_ints(tokens@));
        tokens
    }

    /// Adds the [CLS] ID in front and the [SEP] ID behind, each where the
    /// vocabulary has it.
    fn wrap_with_cls_sep(&self, token_ids: Vec<usize>) -> (r: Vec<usize>)
        ensures
            as_ints(r@) == spec_wrap(as_ints(token_ids@), self.spec_vocab().spec_cls_id(), self.spec_vocab().spec_sep_id()),
    {
        let mut token_ids = token_ids;
        let ghost original = as_ints(token_ids@);
        let cls_id = self.vocab.cls_id();
        let sep_id = self.vocab.sep_id();
        if let Some(cls) = cls_id {
            token_ids.insert(0, cls);
            assert(as_ints(token_ids@) =~= seq![cls as int] + original);
        }
        let ghost with_cls = as_ints(token_ids@);
        if let Some(sep) = sep_id {
            token_ids.push(sep);
            assert(as_ints(token_ids@) =~= with_cls.push(sep as int));
        }
        token_ids
    }

    /// Sets the continuing subword prefix.
    pub fn set_continuing_subword_prefix(&mut self, prefix: &str)
        ensures
            final(self).spec_prefix() == prefix@,
            final(self).spec_vocab() == old(self).spec_vocab(),
            final(self).spec_config() == old(self).spec_config(),
    {
        self.continuing_subword_prefix = String::from_str(prefix);
    }

    /// Returns a reference to the vocabulary.
    pub fn vocab(&self) -> (r: &Vocab)
        ensures
            *r == self.spec_vocab(),
    {
        &self.vocab
    }

    /// Returns a reference to the configuration.
    pub fn config(&self) -> (r: &TokenizerConfig)
        ensures
            *r == self.spec_config(),
    {
        &self.config
    }

    /// Returns the continuing subword prefix.
    pub fn continuing_subword_prefix(&self) -> (r: &str)
        ensures
            r@ == self.spec_prefix(),
    {
        self.continuing_subword_prefix.as_str()
    }

    /// Returns the continuing subword prefix.
    pub fn get_continuing_subword_prefix(&self) -> (r: &str)
        ensures
            r@ == self.spec_prefix(),
    {
        self.continuing_subword_prefix.as_str()
    }

    /// Every ID that encoding gives is a vocabulary ID (the token of each
    /// can be looked up).
    pub proof fn lemma_encode_valid(&self, words: Seq<Seq<char>>)
        requires
            self.can_encode(words),
        ensures
            all_below(self.spec_encode_words(words), self.spec_vocab()@.len() as int),
    {
        let toks = self.spec_vocab()@;
        let n = toks.len() as int;
        let f = |w: Seq<char>| self.spec_word_ids(w);
        let m = words.map_values(f);
        if self.spec_vocab().spec_unk_id() is Some {
            lemma_lookup(toks, self.spec_vocab().special().unk@);
            assert forall|i: int| 0 <= i < m.len() implies all_below(#[trigger] m[i], n) by {
                lemma_wordpiece_valid(toks, words[i], self.spec_prefix(), self.spec_unk(), 0);
            }
        } else {
            assert(m =~= Seq::<Seq<int>>::empty());
        }
        lemma_concat_valid(m, n);
        let ids = self.spec_words_ids(words);
        let cls = self.spec_vocab().spec_cls_id();
        let sep = self.spec_vocab().spec_sep_id();
        lemma_lookup(toks, self.spec_vocab().special().cls@);
        lemma_lookup(toks, self.spec_vocab().special().sep@);
        let with_cls = match cls {
            Some(c) => seq![c] + ids,
            None => ids,
        };
        assert forall|i: int| 0 <= i < with_cls.len() implies 0 <= #[trigger] with_cls[i] < n by {
            if cls is Some && i > 0 {
                assert(with_cls[i] == ids[i - 1]);
            }
        }
        let wrapped = spec_wrap(ids, cls, sep);
        assert forall|i: int| 0 <= i < wrapped.len() implies 0 <= #[trigger] wrapped[i] < n by {
            if sep is Some && i < with_cls.len() {
                assert(wrapped[i] == with_cls[i]);
            }
        }
    }

    /// With a maximum length configured, encoding gives at most that many IDs.
    pub proof fn lemma_encode_truncated(&self, words: Seq<Seq<char>>)
        requires
            self.spec_config().max_length is Some,
        ensures
            self.spec_encode_words(words).len() <= self.spec_config().max_length->0,
    {
    }

    /// With wrapping configured and no length limit, encoding starts with the
    /// [CLS] ID and ends with the [SEP] ID, where the vocabulary has them,
    /// around the WordPiece IDs of the words.
    pub proof fn lemma_encode_wrapped(&self, words: Seq<Seq<char>>)
        requires
            self.spec_config().wrap_with_cls_sep,
            self.spec_config().max_length is None,
        ensures
            self.spec_vocab().spec_cls_id() matches Some(c) ==> self.spec_encode_words(words)[0] == c,
            self.spec_vocab().spec_sep_id() matches Some(s) ==> self.spec_encode_words(words).last() == s,
            self.spec_encode_words(words).len() == self.spec_words_ids(words).len() + (if self.spec_vocab().spec_cls_id() is Some {
                1int
            } else {
                0
            }) + (if self.spec_vocab().spec_sep_id() is Some {
                1int
            } else {
                0
            }),
            self.spec_encode_words(words).subrange(
                if self.spec_vocab().spec_cls_id() is Some {
                    1int
                } else {
                    0
                },
                self.spec_encode_words(words).len() - (if self.spec_vocab().spec_sep_id() is Some {
                    1int
                } else {
                    0
                }),
            ) == self.spec_words_ids(words),
    {
        let ids = self.spec_words_ids(words);
        let e = self.spec_encode_words(words);
        let a: int = if self.spec_vocab().spec_cls_id() is Some { 1 } else { 0 };
        let b: int = if self.spec_vocab().spec_sep_id() is Some { 1 } else { 0 };
        assert(e.subrange(a, e.len() - b) =~= ids);
    }

    /// A length limit cuts encoding short: of two tokenizers with the same
    /// vocabulary, continuing subword prefix and wrapping, one without a
    /// limit and one limited to `m` IDs, the limited one gives the first
    /// `m` of the IDs that the other gives, or all of them where there are
    /// no more than `m`.
    pub proof fn lemma_encode_limit(&self, limited: Tokenizer, words: Seq<Seq<char>>)
        requires
            self.spec_vocab() == limited.spec_vocab(),
            self.spec_prefix() == limited.spec_prefix(),
            self.spec_config().wrap_with_cls_sep == limited.spec_config().wrap_with_cls_sep,
            self.spec_config().max_length is None,
            limited.spec_config().max_length is Some,
        ensures
            limited.spec_encode_words(words).len() == if self.spec_encode_words(words).len()
                > limited.spec_config().max_length->0 {
                limited.spec_config().max_length->0 as int
            } else {
                self.spec_encode_words(words).len() as int
            },
            limited.spec_encode_words(words) == self.spec_encode_words(words).take(
                limited.spec_encode_words(words).len() as int,
            ),
    {
        let f = |w: Seq<char>| self.spec_word_ids(w);
        let g = |w: Seq<char>| limited.spec_word_ids(w);
        assert(words.map_values(f) =~= words.map_values(g));
        assert(self.spec_words_ids(words) == limited.spec_words_ids(words));
        let full = self.spec_encode_words(words);
        assert(full.take(full.len() as int) =~= full);
    }

    /// Encoding words one after another: the WordPiece IDs of `a + b`
    /// are those of `a` followed by those of `b`.
    pub proof fn lemma_words_ids_append(&self, a: Seq<Seq<char>>, b: Seq<Seq<char>>)
        ensures
            self.spec_words_ids(a + b) == self.spec_words_ids(a) + self.spec_words_ids(b),
    {
        let f = |w: Seq<char>| self.spec_word_ids(w);
        assert((a + b).map_values(f) =~= a.map_values(f) + b.map_values(f));
        lemma_concat_all_append(a.map_values(f), b.map_values(f));
    }

    /// Without wrapping and without a length limit, encoding gives exactly
    /// the WordPiece IDs of the words, one word after another.
    pub proof fn lemma_encode_plain(&self, words: Seq<Seq<char>>)
        requires
            !self.spec_config().wrap_with_cls_sep,
            self.spec_config().max_length is None,
        ensures
            self.spec_encode_words(words) == self.spec_words_ids(words),
    {
    }

    /// The encoded IDs of plain words, before wrapping, are their
    /// vocabulary IDs.
    proof fn lemma_words_ids_plain(&self, ws: Seq<Seq<char>>)
        requires
            forall|i: int| 0 <= i < ws.len() ==> #[trigger] is_plain_word(ws[i]),
            forall|i: int| 0 <= i < ws.len() ==> (#[trigger] spec_lookup(self.spec_vocab()@, ws[i])) is Some,
        ensures
            self.spec_words_ids(ws) == lookup_ids(self.spec_vocab()@, ws),
        decreases ws.len(),
    {
        let toks = self.spec_vocab()@;
        let f = |w: Seq<char>| self.spec_word_ids(w);
        let g = |w: Seq<char>| spec_lookup(toks, w)->0;
        if ws.len() == 0 {
            assert(ws.map_values(f) =~= Seq::<Seq<int>>::empty());
            assert(lookup_ids(toks, ws) =~= Seq::<int>::empty());
        } else {
            let init = ws.drop_last();
            let w = ws.last();
            assert forall|i: int| 0 <= i < init.len() implies #[trigger] is_plain_word(init[i])
                && (spec_lookup(toks, init[i]) is Some) by {
                assert(init[i] == ws[i]);
                assert(spec_lookup(toks, ws[i]) is Some);
            }
            self.lemma_words_ids_plain(init);
            assert(ws.map_values(f).drop_last() =~= init.map_values(f));
            assert(is_plain_word(ws[ws.len() - 1]));
            assert(spec_lookup(toks, ws[ws.len() - 1]) is Some);
            lemma_wordpiece_whole_word(toks, w, self.spec_prefix(), self.spec_unk());
            assert(ws.map_values(f).last() == seq![spec_lookup(toks, w)->0]);
            assert(lookup_ids(toks, ws) =~= lookup_ids(toks, init).push(spec_lookup(toks, w)->0));
            assert(lookup_ids(toks, init) + seq![spec_lookup(toks, w)->0] =~= lookup_ids(toks, init).push(
                spec_lookup(toks, w)->0,
            ));
        }
    }

    /// Decoding the vocabulary IDs of plain words, none of them special or
    /// starting with the prefix, gives the words joined by spaces.
    proof fn lemma_decode_lookup_ids(&self, ws: Seq<Seq<char>>, skip: bool)
        requires
            forall|i: int| 0 <= i < ws.len() ==> (#[trigger] spec_lookup(self.spec_vocab()@, ws[i])) is Some,
            forall|i: int| 0 <= i < ws.len() ==> !self.spec_vocab().special().spec_all().contains(#[trigger] ws[i]),
            forall|i: int| 0 <= i < ws.len() ==> !self.spec_prefix().is_prefix_of(#[trigger] ws[i]),
        ensures
            decode_state(
                self.spec_vocab()@,
                self.spec_vocab().special().spec_all(),
                self.spec_prefix(),
                lookup_ids(self.spec_vocab()@, ws),
                skip,
            ) == (join_words(ws), ws.len() == 0),
            without_special(
                self.spec_vocab()@,
                self.spec_vocab().special().spec_all(),
                lookup_ids(self.spec_vocab()@, ws),
            ) == lookup_ids(self.spec_vocab()@, ws),
        decreases ws.len(),
    {
        let toks = self.spec_vocab()@;
        let sp = self.spec_vocab().special().spec_all();
        if ws.len() == 0 {
            assert(lookup_ids(toks, ws) =~= Seq::<int>::empty());
        } else {
            let init = ws.drop_last();
            let w = ws.last();
            assert forall|i: int| 0 <= i < init.len() implies (#[trigger] spec_lookup(toks, init[i])) is Some
                && !sp.contains(init[i]) && !self.spec_prefix().is_prefix_of(init[i]) by {
                assert(init[i] == ws[i]);
                assert(spec_lookup(toks, ws[i]) is Some);
                assert(!sp.contains(ws[i]));
                assert(!self.spec_prefix().is_prefix_of(ws[i]));
            }
            self.lemma_decode_lookup_ids(init, skip);
            assert(spec_lookup(toks, ws[ws.len() - 1]) is Some);
            assert(!sp.contains(ws[ws.len() - 1]));
            assert(!self.spec_prefix().is_prefix_of(ws[ws.len() - 1]));
            lemma_lookup(toks, w);
            let ids = lookup_ids(toks, ws);
            assert(ids.drop_last() =~= lookup_ids(toks, init));
            assert(ids.last() == spec_lookup(toks, w)->0);
            if init.len() == 0 {
                assert(Seq::<char>::empty() + w =~= w);
            }
        }
    }

    /// Normalizing a text before encoding it changes nothing: where NFC
    /// leaves the normal form of `text` as it is, which `normalize_nfc`
    /// states of every string it returns, `encode` of that normal form
    /// needs what `encode` of `text` needs and gives the same IDs.
    pub proof fn lemma_encode_after_normalize(&self, text: Seq<char>)
        requires
            nfc_of(nfc_of(text)) == nfc_of(text),
        ensures
            self.can_encode(spec_pre_tokens(nfc_of(nfc_of(text)))) == self.can_encode(
                spec_pre_tokens(nfc_of(text)),
            ),
            self.spec_encode_normalized(nfc_of(nfc_of(text))) == self.spec_encode_normalized(
                nfc_of(text),
            ),
    {
    }

    /// What `decode` does with IDs it cannot use: IDs that name no token of
    /// the vocabulary are dropped, so decoding gives what decoding the IDs
    /// that name a token gives; and skipping special tokens gives what
    /// decoding without skipping gives once the IDs of special tokens are
    /// taken out.
    pub proof fn lemma_decode_filters(&self, ids: Seq<int>, skip_special: bool)
        ensures
            self.spec_decode_ids(ids, skip_special) == self.spec_decode_ids(
                valid_only(self.spec_vocab()@, ids),
                skip_special,
            ),
            self.spec_decode_ids(ids, true) == self.spec_decode_ids(
                without_special(self.spec_vocab()@, self.spec_vocab().special().spec_all(), ids),
                false,
            ),
    {
        let toks = self.spec_vocab()@;
        let sp = self.spec_vocab().special().spec_all();
        lemma_decode_valid_only(toks, sp, self.spec_prefix(), ids, skip_special);
        lemma_decode_skip_special(toks, sp, self.spec_prefix(), ids);
    }

    /// `decode`, one ID more at a time: no IDs give the empty text; an ID
    /// that names no token, or a special token while those are skipped,
    /// adds nothing; otherwise a token that starts with the continuing
    /// subword prefix is glued on without it, and any other token (special
    /// ones included, when they are kept) is written whole, after a space
    /// unless nothing was written before it.
    pub proof fn lemma_decode_one_more(&self, ids: Seq<int>, id: int, skip_special: bool)
        ensures
            self.spec_decode_ids(Seq::empty(), skip_special) == Seq::<char>::empty(),
            !decode_writes(self.spec_vocab()@, self.spec_vocab().special().spec_all(), id, skip_special)
                ==> self.spec_decode_ids(ids.push(id), skip_special) == self.spec_decode_ids(
                ids,
                skip_special,
            ),
            decode_writes(self.spec_vocab()@, self.spec_vocab().special().spec_all(), id, skip_special)
                && self.spec_prefix().is_prefix_of(self.spec_vocab()@[id]) ==> self.spec_decode_ids(
                ids.push(id),
                skip_special,
            ) == self.spec_decode_ids(ids, skip_special) + self.spec_vocab()@[id].skip(
                self.spec_prefix().len() as int,
            ),
            decode_writes(self.spec_vocab()@, self.spec_vocab().special().spec_all(), id, skip_special)
                && !self.spec_prefix().is_prefix_of(self.spec_vocab()@[id]) && (forall|k: int|
                0 <= k < ids.len() ==> !decode_writes(
                    self.spec_vocab()@,
                    self.spec_vocab().special().spec_all(),
                    #[trigger] ids[k],
                    skip_special,
                )) ==> self.spec_decode_ids(ids.push(id), skip_special) == self.spec_vocab()@[id],
            decode_writes(self.spec_vocab()@, self.spec_vocab().special().spec_all(), id, skip_special)
                && !self.spec_prefix().is_prefix_of(self.spec_vocab()@[id]) && (exists|k: int|
                0 <= k < ids.len() && decode_writes(
                    self.spec_vocab()@,
                    self.spec_vocab().special().spec_all(),
                    #[trigger] ids[k],
                    skip_special,
                )) ==> self.spec_decode_ids(ids.push(id), skip_special) == self.spec_decode_ids(
                ids,
                skip_special,
            ).push(' ') + self.spec_vocab()@[id],
    {
        lemma_decode_push(
            self.spec_vocab()@,
            self.spec_vocab().special().spec_all(),
            self.spec_prefix(),
            ids,
            id,
            skip_special,
        );
    }

    /// Decoding what encoding gives returns the text: for words of ASCII
    /// letters and digits joined by single spaces, each word a token of the
    /// vocabulary that is no special token and does not start with the
    /// continuing subword prefix, and no length limit, decoding the encoded
    /// IDs with special tokens skipped gives the text back. (Such a text is
    /// ASCII, so `encode` gives `spec_encode_normalized` of it.)
    pub proof fn lemma_decode_encode(&self, ws: Seq<Seq<char>>)
        requires
            forall|i: int| 0 <= i < ws.len() ==> #[trigger] is_plain_word(ws[i]),
            forall|i: int| 0 <= i < ws.len() ==> (#[trigger] spec_lookup(self.spec_vocab()@, ws[i])) is Some,
            forall|i: int| 0 <= i < ws.len() ==> !self.spec_vocab().special().spec_all().contains(#[trigger] ws[i]),
            forall|i: int| 0 <= i < ws.len() ==> !self.spec_prefix().is_prefix_of(#[trigger] ws[i]),
            self.spec_config().max_length is None,
        ensures
            is_ascii_chars(join_words(ws)),
            self.spec_decode_ids(self.spec_encode_normalized(join_words(ws)), true) == join_words(ws),
    {
        let toks = self.spec_vocab()@;
        let sp = self.spec_vocab().special().spec_all();
        let prefix = self.spec_prefix();
        lemma_pre_tokens_join(ws);
        self.lemma_words_ids_plain(ws);
        self.lemma_decode_lookup_ids(ws, false);
        let ids = lookup_ids(toks, ws);
        let enc = self.spec_encode_normalized(join_words(ws));
        lemma_decode_skip_special(toks, sp, prefix, enc);
        if self.spec_config().wrap_with_cls_sep {
            let cls = self.spec_vocab().spec_cls_id();
            let sep = self.spec_vocab().spec_sep_id();
            let with_cls = match cls {
                Some(c) => seq![c] + ids,
                None => ids,
            };
            assert(sp[2] == self.spec_vocab().special().cls@);
            assert(sp[3] == self.spec_vocab().special().sep@);
            if let Some(c) = cls {
                lemma_lookup(toks, self.spec_vocab().special().cls@);
                lemma_without_special_append(toks, sp, seq![c], ids);
                assert(seq![c].drop_last() =~= Seq::<int>::empty());
                assert(seq![c].last() == c);
                assert(toks[c] == sp[2]);
                assert(sp.contains(toks[c]));
                assert(0 <= c < toks.len());
                assert(without_special(toks, sp, Seq::<int>::empty()) =~= Seq::<int>::empty());
                assert(without_special(toks, sp, seq![c]) == Seq::<int>::empty());
                assert(Seq::<int>::empty() + ids =~= ids);
            }
            assert(without_special(toks, sp, with_cls) == ids);
            if let Some(t) = sep {
                lemma_lookup(toks, self.spec_vocab().special().sep@);
                assert(with_cls.push(t).drop_last() =~= with_cls);
                assert(toks[t] == sp[3]);
                assert(sp.contains(toks[t]));
            }
            assert(without_special(toks, sp, enc) == ids);
        }
    }
}

} // verus!