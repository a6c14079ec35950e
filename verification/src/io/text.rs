//! Plain text vocabulary format.
//!
//! Format: one token per line, line number (0-indexed, after comments)
//! equals token ID. Lines starting with '#' are comments (for metadata);
//! empty lines are ignored.

use vstd::prelude::*;
use crate::chars::{chars_to_string, push_char, str_to_chars, views};
use crate::config::SpecialTokens;
use crate::error::WordPieceError;
use crate::pre_tokenize::concat_all;
use crate::vocab::Vocab;

verus! {

/// The decimal digit character for `d` (below 10).
pub open spec fn digit_char(d: nat) -> char {
    seq!['0', '1', '2', '3', '4', '5', '6', '7', '8', '9'][d as int]
}

/// The decimal representation of `n`, without leading zeros.
pub open spec fn decimal(n: nat) -> Seq<char>
    decreases n,
{
    if n < 10 {
        seq![digit_char(n)]
    } else {
        decimal(n / 10).push(digit_char(n % 10))
    }
}

/// The number that a string of decimal digits stands for.
pub open spec fn decimal_value(s: Seq<char>) -> int
    decreases s.len(),
{
    if s.len() == 0 {
        0
    } else {
        10 * decimal_value(s.drop_last()) + (s.last() as int - '0' as int)
    }
}

proof fn lemma_digit_char(d: nat)
    requires
        d < 10,
    ensures
        digit_char(d) as int == '0' as int + d,
        '0' <= digit_char(d) <= '9',
{
    let t = seq!['0', '1', '2', '3', '4', '5', '6', '7', '8', '9'];
    assert(t[0] == '0' && t[1] == '1' && t[2] == '2' && t[3] == '3' && t[4] == '4');
    assert(t[5] == '5' && t[6] == '6' && t[7] == '7' && t[8] == '8' && t[9] == '9');
}

/// `decimal(n)` is the base-ten numeral of `n`: all its characters are
/// the digits `0` to `9`, it starts with a nonzero digit unless it is
/// `0`, and read as a decimal number it is `n`.
pub proof fn lemma_decimal(n: nat)
    ensures
        decimal(n).len() > 0,
        forall|i: int| 0 <= i < decimal(n).len() ==> '0' <= #[trigger] decimal(n)[i] && decimal(n)[i] <= '9',
        decimal(n)[0] == '0' ==> n == 0,
        decimal_value(decimal(n)) == n,
    decreases n,
{
    if n < 10 {
        lemma_digit_char(n);
        assert(decimal(n).drop_last() =~= Seq::<char>::empty());
        assert(decimal(n)[0] == digit_char(n));
        assert(decimal(n)[0] == '0' ==> decimal(n)[0] as int == '0' as int);
        assert(decimal_value(decimal(n).drop_last()) == 0);
        assert(decimal(n).last() == digit_char(n));
    } else {
        lemma_decimal(n / 10);
        lemma_digit_char(n % 10);
        let d = decimal(n / 10);
        assert(decimal(n).drop_last() =~= d);
        assert(decimal(n)[0] == d[0]);
        assert(d[0] == '0' ==> n / 10 == 0);
        assert forall|i: int| 0 <= i < decimal(n).len() implies '0' <= #[trigger] decimal(n)[i]
            && decimal(n)[i] <= '9' by {
            if i < d.len() {
                assert(decimal(n)[i] == d[i]);
            }
        }
        assert(decimal(n).last() == digit_char(n % 10));
        assert(decimal_value(decimal(n)) == 10 * decimal_value(d) + (digit_char(n % 10) as int
            - '0' as int));
        assert(n == 10 * (n / 10) + n % 10);
    }
}

/// The digit character for `d`.
fn digit(d: usize) -> (c: char)
    requires
        d < 10,
    ensures
        c == digit_char(d as nat),
{
    match d {
        0 => '0',
        1 => '1',
        2 => '2',
        3 => '3',
        4 => '4',
        5 => '5',
        6 => '6',
        7 => '7',
        8 => '8',
        _ => '9',
    }
}

/// Appends the decimal representation of `n`.
pub fn push_decimal(s: &mut String, n: usize)
    ensures
        final(s)@ == old(s)@ + decimal(n as nat),
    decreases n,
{
    if n >= 10 {
        push_decimal(s, n / 10);
    }
    let ghost mid = s@;
    push_char(s, digit(n % 10));
    assert(n >= 10 ==> old(s)@ + decimal(n as nat) =~= mid.push(digit_char((n % 10) as nat)));
    assert(n < 10 ==> old(s)@ + decimal(n as nat) =~= mid.push(digit_char((n % 10) as nat)));
}

/// The header comment of a vocabulary file with `n` tokens.
pub open spec fn text_header(n: nat) -> Seq<char> {
    "# WordPiece vocabulary\n"@ + "# vocab_size: "@ + decimal(n) + "\n#\n"@
}

/// Each token on a line of its own.
pub open spec fn token_block(toks: Seq<Seq<char>>) -> Seq<char> {
    concat_all(toks.map_values(|t: Seq<char>| t.push('\n')))
}

/// The text that `vocab_to_text` gives for the tokens `toks`.
pub open spec fn spec_vocab_text(toks: Seq<Seq<char>>) -> Seq<char> {
    text_header(toks.len()) + token_block(toks)
}

/// A line without its trailing carriage return, if any.
pub open spec fn strip_cr(line: Seq<char>) -> Seq<char> {
    if line.len() > 0 && line.last() == '\r' {
        line.drop_last()
    } else {
        line
    }
}

/// Reading `text` line by line: the finished lines (a "\r\n" ending counts
/// as "\n") and the unfinished last line.
pub open spec fn lines_state(text: Seq<char>) -> (Seq<Seq<char>>, Seq<char>)
    decreases text.len(),
{
    if text.len() == 0 {
        (Seq::empty(), Seq::empty())
    } else {
        let p = lines_state(text.drop_last());
        if text.last() == '\n' {
            (p.0.push(strip_cr(p.1)), Seq::empty())
        } else {
            (p.0, p.1.push(text.last()))
        }
    }
}

/// The lines of `text`, as `BufRead::lines` gives them: split at '\n',
/// without the line ending; a last line without '\n' counts if not empty.
pub open spec fn text_lines(text: Seq<char>) -> Seq<Seq<char>> {
    let st = lines_state(text);
    if st.1.len() == 0 {
        st.0
    } else {
        st.0.push(st.1)
    }
}

/// A line that holds a token: not empty and not a comment.
pub open spec fn is_token_line(line: Seq<char>) -> bool {
    line.len() > 0 && line[0] != '#'
}

/// The token lines among `lines`, in order.
pub open spec fn token_lines(lines: Seq<Seq<char>>) -> Seq<Seq<char>>
    decreases lines.len(),
{
    if lines.len() == 0 {
        Seq::empty()
    } else {
        let r = token_lines(lines.drop_last());
        if is_token_line(lines.last()) {
            r.push(lines.last())
        } else {
            r
        }
    }
}

/// The tokens that a vocabulary text holds.
pub open spec fn spec_text_tokens(text: Seq<char>) -> Seq<Seq<char>> {
    token_lines(text_lines(text))
}

/// The contents of a plain-text vocabulary file:
///
/// ```text
/// # WordPiece vocabulary
/// # vocab_size: 1000
/// #
/// [PAD]
/// [UNK]
/// ...
/// ```
///
/// Each token is on its own line, with ID = line number after the comments.
pub fn vocab_to_text(vocab: &Vocab) -> (r: String)
    ensures
        r@ == spec_vocab_text(vocab@),
{
    let mut s = String::from_str("# WordPiece vocabulary\n");
    s.append("# vocab_size: ");
    push_decimal(&mut s, vocab.len());
    s.append("\n#\n");
    let ghost head = s@;
    let ghost toks = vocab@;
    let ghost f = |t: Seq<char>| t.push('\n');
    assert(toks.take(0).map_values(f) =~= Seq::<Seq<char>>::empty());
    let mut id: usize = 0;
    while id < vocab.len()
        invariant
            id <= toks.len(),
            toks == vocab@,
            f == (|t: Seq<char>| t.push('\n')),
            s@ == head + concat_all(toks.take(id as int).map_values(f)),
        decreases toks.len() - id,
    {
        match vocab.get_token(id) {
            Some(token) => {
                s.append(token);
                push_char(&mut s, '\n');
                proof {
                    let m = toks.take(id + 1).map_values(f);
                    assert(m.drop_last() =~= toks.take(id as int).map_values(f));
                    assert(m.last() == toks[id as int].push('\n'));
                }
            },
            None => {},
        }
        id = id + 1;
    }
    assert(toks.take(toks.len() as int) =~= toks);
    s
}

/// Reads the tokens of a plain-text vocabulary (one token per line; lines
/// starting with '#' and empty lines are skipped). With no token, the
/// error names `source_name` (the file the text came from).
pub fn vocab_from_text(content: &str, source_name: &str, special_tokens: SpecialTokens) -> (r: Result<
    Vocab,
    WordPieceError,
>)
    ensures
        r is Ok <==> spec_text_tokens(content@).len() > 0,
        r matches Ok(v) ==> v@ == spec_text_tokens(content@) && v.special() == special_tokens,
        r matches Err(e) ==> (e matches WordPieceError::InvalidVocabFile(m) && m@ == source_name@
            + " is empty"@),
{
    let chars = str_to_chars(content);
    let mut tokens: Vec<String> = Vec::new();
    let mut current: Vec<char> = Vec::new();
    let mut i: usize = 0;
    assert(chars@.take(0) =~= Seq::<char>::empty());
    assert(views(tokens@) =~= Seq::<Seq<char>>::empty());
    assert(current@ =~= Seq::<char>::empty());
    while i < chars.len()
        invariant
            i <= chars@.len(),
            chars@ == content@,
            views(tokens@) == token_lines(lines_state(chars@.take(i as int)).0),
            current@ == lines_state(chars@.take(i as int)).1,
        decreases chars@.len() - i,
    {
        let c = chars[i];
        let ghost prev = lines_state(chars@.take(i as int));
        assert(chars@.take(i + 1).drop_last() =~= chars@.take(i as int));
        if c == '\n' {
            let n = current.len();
            if n > 0 && current[n - 1] == '\r' {
                current.pop();
                assert(current@ =~= strip_cr(prev.1));
            }
            assert(current@ == strip_cr(prev.1));
            let ghost line = current@;
            assert(prev.0.push(line).drop_last() =~= prev.0);
            if current.len() > 0 && current[0] != '#' {
                let ghost before = views(tokens@);
                tokens.push(chars_to_string(current.as_slice()));
                assert(views(tokens@) =~= before.push(line));
            }
            current = Vec::new();
            assert(current@ =~= Seq::<char>::empty());
        } else {
            current.push(c);
        }
        i = i + 1;
    }
    assert(chars@.take(chars@.len() as int) =~= chars@);
    let ghost st = lines_state(chars@);
    if current.len() > 0 {
        assert(st.0.push(st.1).drop_last() =~= st.0);
        if current[0] != '#' {
            let ghost before = views(tokens@);
            tokens.push(chars_to_string(current.as_slice()));
            assert(views(tokens@) =~= before.push(st.1));
        }
    }
    if tokens.len() == 0 {
        let msg = String::from_str(source_name).concat(" is empty");
        Err(WordPieceError::InvalidVocabFile(msg))
    } else {
        Ok(Vocab::new(tokens, special_tokens))
    }
}

/// A token that the text format can hold: not empty, not starting with
/// '#', without a line feed, and not ending with a carriage return.
pub open spec fn is_text_safe(t: Seq<char>) -> bool {
    &&& t.len() > 0
    &&& t[0] != '#'
    &&& !t.contains('\n')
    &&& t.last() != '\r'
}

/// Reading the characters `b` on from the state `st`.
pub open spec fn lines_from(st: (Seq<Seq<char>>, Seq<char>), b: Seq<char>) -> (
    Seq<Seq<char>>,
    Seq<char>,
)
    decreases b.len(),
{
    if b.len() == 0 {
        st
    } else {
        let p = lines_from(st, b.drop_last());
        if b.last() == '\n' {
            (p.0.push(strip_cr(p.1)), Seq::empty())
        } else {
            (p.0, p.1.push(b.last()))
        }
    }
}

proof fn lemma_lines_append(a: Seq<char>, b: Seq<char>)
    ensures
        lines_state(a + b) == lines_from(lines_state(a), b),
    decreases b.len(),
{
    if b.len() == 0 {
        assert(a + b =~= a);
    } else {
        lemma_lines_append(a, b.drop_last());
        assert((a + b).drop_last() =~= a + b.drop_last());
        assert((a + b).last() == b.last());
    }
}

proof fn lemma_lines_no_newline(st: (Seq<Seq<char>>, Seq<char>), t: Seq<char>)
    requires
        !t.contains('\n'),
    ensures
        lines_from(st, t) == (st.0, st.1 + t),
    decreases t.len(),
{
    if t.len() == 0 {
        assert(st.1 + t =~= st.1);
    } else {
        assert(!t.drop_last().contains('\n')) by {
            if t.drop_last().contains('\n') {
                let i = choose|i: int| 0 <= i < t.drop_last().len() && t.drop_last()[i] == '\n';
                assert(t[i] == '\n');
            }
        }
        lemma_lines_no_newline(st, t.drop_last());
        assert(t.last() != '\n') by {
            assert(t[t.len() - 1] == t.last());
        }
        assert((st.1 + t.drop_last()).push(t.last()) =~= st.1 + t);
    }
}

/// Reading a finished line `t` after whole lines adds `t` as a line.
proof fn lemma_lines_line(x: Seq<char>, t: Seq<char>)
    requires
        lines_state(x).1.len() == 0,
        !t.contains('\n'),
        t.len() == 0 || t.last() != '\r',
    ensures
        lines_state(x + t.push('\n')) == (lines_state(x).0.push(t), Seq::<char>::empty()),
{
    lemma_lines_append(x, t.push('\n'));
    assert(t.push('\n').drop_last() =~= t);
    lemma_lines_no_newline(lines_state(x), t);
    assert(lines_state(x).1 + t =~= t);
}

proof fn lemma_token_lines_append(a: Seq<Seq<char>>, b: Seq<Seq<char>>)
    ensures
        token_lines(a + b) == token_lines(a) + token_lines(b),
    decreases b.len(),
{
    if b.len() == 0 {
        assert(a + b =~= a);
        assert(token_lines(a) + token_lines(b) =~= token_lines(a));
    } else {
        lemma_token_lines_append(a, b.drop_last());
        assert((a + b).drop_last() =~= a + b.drop_last());
        assert((a + b).last() == b.last());
        if is_token_line(b.last()) {
            assert((token_lines(a) + token_lines(b.drop_last())).push(b.last()) =~= token_lines(a)
                + token_lines(b.drop_last()).push(b.last()));
        }
    }
}

proof fn lemma_token_lines_all(toks: Seq<Seq<char>>)
    requires
        forall|i: int| 0 <= i < toks.len() ==> is_token_line(#[trigger] toks[i]),
    ensures
        token_lines(toks) == toks,
    decreases toks.len(),
{
    if toks.len() > 0 {
        lemma_token_lines_all(toks.drop_last());
        assert(is_token_line(toks[toks.len() - 1]));
        assert(toks.drop_last().push(toks.last()) =~= toks);
    }
}

proof fn lemma_decimal_digits(n: nat)
    ensures
        forall|i: int| 0 <= i < decimal(n).len() ==> '0' <= #[trigger] decimal(n)[i] <= '9',
    decreases n,
{
    if n >= 10 {
        lemma_decimal_digits(n / 10);
        lemma_digit_char(n % 10);
        let d = decimal(n / 10);
        assert forall|i: int| 0 <= i < decimal(n).len() implies '0' <= #[trigger] decimal(n)[i] <= '9' by {
            if i < d.len() {
                assert(decimal(n)[i] == d[i]);
            }
        }
    } else {
        lemma_digit_char(n);
    }
}

proof fn lemma_header_lines(n: nat)
    ensures
        lines_state(text_header(n)).1.len() == 0,
        token_lines(lines_state(text_header(n)).0) == Seq::<Seq<char>>::empty(),
{
    reveal_strlit("# WordPiece vocabulary\n");
    reveal_strlit("# vocab_size: ");
    reveal_strlit("\n#\n");
    let t1: Seq<char> = "# WordPiece vocabulary"@;
    reveal_strlit("# WordPiece vocabulary");
    let t2: Seq<char> = "# vocab_size: "@ + decimal(n);
    let t3: Seq<char> = seq!['#'];
    let e: Seq<char> = Seq::empty();
    assert(text_header(n) =~= e + t1.push('\n') + t2.push('\n') + t3.push('\n'));
    lemma_decimal_digits(n);
    assert(!t1.contains('\n')) by {
        if t1.contains('\n') {
            let i = choose|i: int| 0 <= i < t1.len() && t1[i] == '\n';
        }
    }
    assert(!t2.contains('\n')) by {
        if t2.contains('\n') {
            let i = choose|i: int| 0 <= i < t2.len() && t2[i] == '\n';
            if i >= 14 {
                assert(t2[i] == decimal(n)[i - 14]);
            }
        }
    }
    assert(!t3.contains('\n')) by {
        if t3.contains('\n') {
            let i = choose|i: int| 0 <= i < t3.len() && t3[i] == '\n';
        }
    }
    assert(t2.last() != '\r') by {
        assert(t2.last() == decimal(n)[decimal(n).len() - 1]);
    }
    assert(lines_state(e) == (Seq::<Seq<char>>::empty(), e));
    lemma_lines_line(e, t1);
    lemma_lines_line(e + t1.push('\n'), t2);
    lemma_lines_line(e + t1.push('\n') + t2.push('\n'), t3);
    let ls = Seq::<Seq<char>>::empty().push(t1).push(t2).push(t3);
    assert(t1[0] == '#' && t2[0] == '#' && t3[0] == '#');
    assert(!is_token_line(t1) && !is_token_line(t2) && !is_token_line(t3));
    let l1 = Seq::<Seq<char>>::empty().push(t1);
    let l2 = l1.push(t2);
    assert(l1.drop_last() =~= Seq::<Seq<char>>::empty());
    assert(l1.len() == 1 && l1.last() == t1);
    assert(token_lines(Seq::<Seq<char>>::empty()) =~= Seq::<Seq<char>>::empty());
    assert(token_lines(l1) =~= Seq::<Seq<char>>::empty());
    assert(l2.drop_last() =~= l1);
    assert(l2.last() == t2);
    assert(token_lines(l2) =~= Seq::<Seq<char>>::empty());
    assert(ls.drop_last() =~= l2);
    assert(ls.last() == t3);
    assert(token_lines(ls) =~= Seq::<Seq<char>>::empty());
}

proof fn lemma_block_lines(x: Seq<char>, toks: Seq<Seq<char>>)
    requires
        lines_state(x).1.len() == 0,
        forall|i: int| 0 <= i < toks.len() ==> is_text_safe(#[trigger] toks[i]),
    ensures
        lines_state(x + token_block(toks)) == (lines_state(x).0 + toks, Seq::<char>::empty()),
    decreases toks.len(),
{
    let f = |t: Seq<char>| t.push('\n');
    if toks.len() == 0 {
        assert(toks.map_values(f) =~= Seq::<Seq<char>>::empty());
        assert(x + token_block(toks) =~= x);
        assert(lines_state(x).0 + toks =~= lines_state(x).0);
    } else {
        let init = toks.drop_last();
        let t = toks.last();
        assert forall|i: int| 0 <= i < init.len() implies is_text_safe(#[trigger] init[i]) by {
            assert(init[i] == toks[i]);
        }
        lemma_block_lines(x, init);
        assert(toks.map_values(f).drop_last() =~= init.map_values(f));
        assert(token_block(toks) == token_block(init) + t.push('\n'));
        assert(x + token_block(toks) =~= (x + token_block(init)) + t.push('\n'));
        assert(is_text_safe(toks[toks.len() - 1]));
        lemma_lines_line(x + token_block(init), t);
        assert((lines_state(x).0 + init).push(t) =~= lines_state(x).0 + toks);
    }
}

/// Round trip of the text format: reading the text that `vocab_to_text`
/// writes gives back the same tokens, in the same order, provided every
/// token can stand on a line of its own (not empty, not starting with '#',
/// without a line feed, not ending with a carriage return).
pub proof fn lemma_text_roundtrip(toks: Seq<Seq<char>>)
    requires
        forall|i: int| 0 <= i < toks.len() ==> is_text_safe(#[trigger] toks[i]),
    ensures
        spec_text_tokens(spec_vocab_text(toks)) == toks,
{
    let h = text_header(toks.len());
    lemma_header_lines(toks.len());
    lemma_block_lines(h, toks);
    lemma_token_lines_append(lines_state(h).0, toks);
    assert forall|i: int| 0 <= i < toks.len() implies is_token_line(#[trigger] toks[i]) by {
        assert(is_text_safe(toks[i]));
    }
    lemma_token_lines_all(toks);
    assert(Seq::<Seq<char>>::empty() + toks =~= toks);
}

} // verus!
