//! Texts that are laid out token by token, and what the lexer makes of them.
//!
//! A piece is a token with the white space before and behind it: a word, a
//! string, or a token of one character. A text that is made of pieces, one
//! behind the other, is read by the lexer as the tokens of the pieces, as
//! long as no word runs into the next word. Places in a text are counted in
//! the bytes of its UTF-8 form.

use vstd::prelude::*;
use vstd::utf8::{encode_utf8, is_ascii_chars, is_ascii_chars_encode_utf8};
use crate::parser::lexer::{
    after_space, is_space, is_word_byte, string_end, symbol_kind, token_at, tokens_from, tokens_of,
    word_end, Lexed, Token, TokenKind,
};
use crate::parser::roundtrip::quotes::{is_string, lemma_encode_add, lemma_string_bytes};

verus! {

/// A token with the white space around it.
pub struct Piece {
    pub before: Seq<char>,
    pub kind: TokenKind,
    pub text: Seq<char>,
    pub after: Seq<char>,
}

/// Whether a text is made of spaces and line feeds alone.
pub open spec fn is_blank(s: Seq<char>) -> bool {
    forall|i: int| 0 <= i < s.len() ==> s[i] == ' ' || s[i] == '\n'
}

/// Whether a character can stand in a word.
pub open spec fn word_char(c: char) -> bool {
    ('a' <= c && c <= 'z') || ('A' <= c && c <= 'Z') || ('0' <= c && c <= '9') || c == '_'
}

/// Whether a text is a word: not empty, and made of word characters alone.
pub open spec fn is_word(s: Seq<char>) -> bool {
    s.len() > 0 && forall|i: int| 0 <= i < s.len() ==> word_char(#[trigger] s[i])
}

/// The character of a token that is one character, if the kind is such a
/// token's.
pub open spec fn symbol_of(kind: TokenKind) -> Option<char> {
    match kind {
        TokenKind::LeftBrace => Some('{'),
        TokenKind::RightBrace => Some('}'),
        TokenKind::LeftParen => Some('('),
        TokenKind::RightParen => Some(')'),
        TokenKind::Colon => Some(':'),
        TokenKind::Semicolon => Some(';'),
        TokenKind::Dot => Some('.'),
        TokenKind::Comma => Some(','),
        TokenKind::At => Some('@'),
        TokenKind::Hash => Some('#'),
        TokenKind::Star => Some('*'),
        _ => None,
    }
}

/// A word with white space around it.
pub open spec fn word(before: Seq<char>, text: Seq<char>, after: Seq<char>) -> Piece {
    Piece { before, kind: TokenKind::Word, text, after }
}

/// A token of one character with white space around it.
pub open spec fn sym(before: Seq<char>, kind: TokenKind, after: Seq<char>) -> Piece {
    Piece {
        before,
        kind,
        text: match symbol_of(kind) {
            Some(c) => seq![c],
            None => Seq::empty(),
        },
        after,
    }
}

/// A string with white space around it.
pub open spec fn string(before: Seq<char>, text: Seq<char>, after: Seq<char>) -> Piece {
    Piece { before, kind: TokenKind::Str, text, after }
}

/// Whether a piece is a word, a string or a token of one character, with
/// white space around it.
pub open spec fn piece_ok(p: Piece) -> bool {
    &&& is_blank(p.before)
    &&& is_blank(p.after)
    &&& match p.kind {
        TokenKind::Word => is_word(p.text),
        TokenKind::Str => is_string(p.text),
        kind => symbol_of(kind).is_some() && p.text == seq![symbol_of(kind).unwrap()],
    }
}

/// Whether nothing that follows a piece can run into it.
pub open spec fn ends_safely(p: Piece) -> bool {
    p.kind != TokenKind::Word || p.after.len() > 0
}

/// Whether a piece cannot run into what stands before it.
pub open spec fn starts_safely(p: Piece) -> bool {
    p.kind != TokenKind::Word || p.before.len() > 0
}

/// Whether the pieces are words, strings and tokens of one character, and no
/// word runs into the next.
pub open spec fn pieces_ok(ps: Seq<Piece>) -> bool {
    &&& forall|i: int| 0 <= i < ps.len() ==> piece_ok(#[trigger] ps[i])
    &&& forall|i: int|
        0 <= i < ps.len() - 1 ==> ends_safely(#[trigger] ps[i]) || starts_safely(ps[i + 1])
}

/// The text of a piece.
pub open spec fn piece_text(p: Piece) -> Seq<char> {
    p.before + p.text + p.after
}

/// The text of the first `n` pieces.
pub open spec fn render(ps: Seq<Piece>, n: nat) -> Seq<char>
    decreases n,
{
    if n == 0 || n > ps.len() {
        Seq::empty()
    } else {
        render(ps, (n - 1) as nat) + piece_text(ps[n - 1])
    }
}

/// The text of all pieces.
pub open spec fn rendered(ps: Seq<Piece>) -> Seq<char> {
    render(ps, ps.len())
}

/// The bytes of the text of the first `n` pieces.
pub open spec fn bytes_upto(ps: Seq<Piece>, n: nat) -> Seq<u8> {
    encode_utf8(render(ps, n))
}

/// The bytes of the text of all pieces.
pub open spec fn bytes_of(ps: Seq<Piece>) -> Seq<u8> {
    encode_utf8(rendered(ps))
}

/// Where the token of the `i`-th piece begins in the bytes of the pieces.
pub open spec fn start_of(ps: Seq<Piece>, i: int) -> int {
    (bytes_upto(ps, i as nat).len() + ps[i].before.len()) as int
}

/// The token of the `i`-th piece, placed in the bytes of the pieces.
pub open spec fn placed(ps: Seq<Piece>, i: int) -> Token {
    Token {
        kind: ps[i].kind,
        start: start_of(ps, i) as usize,
        end: (start_of(ps, i) + encode_utf8(ps[i].text).len()) as usize,
    }
}

/// The tokens of the pieces from the `i`-th on.
pub open spec fn placed_from(ps: Seq<Piece>, i: int) -> Seq<Token> {
    Seq::new((ps.len() - i) as nat, |k: int| placed(ps, i + k))
}

/// The text of the first pieces is the beginning of the text of all.
pub proof fn lemma_render_grows(ps: Seq<Piece>, i: nat, n: nat)
    requires
        i <= n <= ps.len(),
    ensures
        render(ps, i).len() <= render(ps, n).len(),
        render(ps, n).subrange(0, render(ps, i).len() as int) == render(ps, i),
    decreases n - i,
{
    if i < n {
        lemma_render_grows(ps, i, (n - 1) as nat);
        let shorter = render(ps, (n - 1) as nat);
        assert(render(ps, n).subrange(0, render(ps, i).len() as int) =~= shorter.subrange(
            0,
            render(ps, i).len() as int,
        ));
    } else {
        assert(render(ps, n).subrange(0, render(ps, n).len() as int) =~= render(ps, n));
    }
}

/// The bytes of the first pieces are the beginning of the bytes of all.
pub proof fn lemma_bytes_grow(ps: Seq<Piece>, i: nat, n: nat)
    requires
        i <= n <= ps.len(),
    ensures
        bytes_upto(ps, i).len() <= bytes_upto(ps, n).len(),
        bytes_upto(ps, n).subrange(0, bytes_upto(ps, i).len() as int) == bytes_upto(ps, i),
{
    lemma_render_grows(ps, i, n);
    let short = render(ps, i);
    let long = render(ps, n);
    let rest = long.skip(short.len() as int);
    assert(long =~= short + rest);
    lemma_encode_add(short, rest);
    assert((encode_utf8(short) + encode_utf8(rest)).subrange(0, encode_utf8(short).len() as int)
        =~= encode_utf8(short));
}

/// The bytes of a text of blanks, of a word or of a token of one character:
/// one byte for each character.
pub proof fn lemma_plain_bytes(text: Seq<char>)
    requires
        forall|i: int| 0 <= i < text.len() ==> '\0' <= #[trigger] text[i] && text[i] <= '\u{7f}',
    ensures
        encode_utf8(text).len() == text.len(),
        forall|i: int| 0 <= i < text.len() ==> #[trigger] encode_utf8(text)[i] == text[i] as u8,
{
    assert(is_ascii_chars(text));
    is_ascii_chars_encode_utf8(text);
}

/// The bytes of a piece: those of the white space before it, of its token,
/// and of the white space behind it.
pub proof fn lemma_piece_bytes(ps: Seq<Piece>, i: int)
    requires
        0 <= i < ps.len(),
    ensures
        bytes_upto(ps, (i + 1) as nat) == bytes_upto(ps, i as nat) + encode_utf8(ps[i].before)
            + encode_utf8(ps[i].text) + encode_utf8(ps[i].after),
        bytes_upto(ps, (i + 1) as nat).len() <= bytes_of(ps).len(),
        bytes_of(ps).subrange(0, bytes_upto(ps, (i + 1) as nat).len() as int) == bytes_upto(
            ps,
            (i + 1) as nat,
        ),
{
    let p = ps[i];
    lemma_bytes_grow(ps, (i + 1) as nat, ps.len());
    lemma_encode_add(render(ps, i as nat), piece_text(p));
    lemma_encode_add(p.before + p.text, p.after);
    lemma_encode_add(p.before, p.text);
    assert(bytes_upto(ps, (i + 1) as nat) =~= bytes_upto(ps, i as nat) + encode_utf8(p.before)
        + encode_utf8(p.text) + encode_utf8(p.after));
}

proof fn lemma_skip_blank(bytes: Seq<u8>, from: int, to: int)
    requires
        0 <= from <= to <= bytes.len(),
        forall|j: int| from <= j < to ==> is_space(#[trigger] bytes[j]),
        to == bytes.len() || !is_space(bytes[to]),
    ensures
        after_space(bytes, from) == to,
    decreases to - from,
{
    if from < to {
        lemma_skip_blank(bytes, from + 1, to);
    }
}

proof fn lemma_scan_word(bytes: Seq<u8>, from: int, to: int)
    requires
        0 <= from <= to <= bytes.len(),
        forall|j: int| from <= j < to ==> is_word_byte(#[trigger] bytes[j]),
        to == bytes.len() || !is_word_byte(bytes[to]),
    ensures
        word_end(bytes, from) == to,
    decreases to - from,
{
    if from < to {
        lemma_scan_word(bytes, from + 1, to);
    }
}

proof fn lemma_scan_string(bytes: Seq<u8>, from: int, to: int)
    requires
        0 <= from <= to < bytes.len(),
        forall|j: int| from <= j < to ==> #[trigger] bytes[j] != 34,
        bytes[to] == 34,
    ensures
        string_end(bytes, from) == Some(to + 1),
    decreases to - from,
{
    if from < to {
        lemma_scan_string(bytes, from + 1, to);
    }
}

/// The bytes of the `i`-th piece in the bytes of all pieces.
pub proof fn lemma_bytes_of_piece(ps: Seq<Piece>, i: int)
    requires
        pieces_ok(ps),
        0 <= i < ps.len(),
    ensures
        ({
            let bytes = bytes_of(ps);
            let pos = bytes_upto(ps, i as nat).len() as int;
            let p = ps[i];
            let start = pos + p.before.len();
            let end = start + encode_utf8(p.text).len();
            let next = end + p.after.len();
            &&& next == bytes_upto(ps, (i + 1) as nat).len()
            &&& next <= bytes.len()
            &&& start < end
            &&& bytes.subrange(start, end) == encode_utf8(p.text)
            &&& forall|j: int| pos <= j < start ==> is_space(#[trigger] bytes[j])
            &&& forall|j: int| end <= j < next ==> is_space(#[trigger] bytes[j])
            &&& !is_space(bytes[start])
            &&& p.kind == TokenKind::Word ==> end == start + p.text.len() && forall|j: int|
                start <= j < end ==> is_word_byte(#[trigger] bytes[j]) && bytes[j] == p.text[j
                    - start] as u8
            &&& p.kind == TokenKind::Str ==> start + 2 <= end && bytes[start] == 34 && bytes[end
                - 1] == 34 && forall|j: int| start < j < end - 1 ==> #[trigger] bytes[j] != 34
            &&& p.kind != TokenKind::Word && p.kind != TokenKind::Str ==> end == start + 1
                && !is_word_byte(bytes[start]) && symbol_kind(bytes[start]) == Some(p.kind)
                && bytes[start] != 34 && bytes[start] != 47
        }),
{
    let bytes = bytes_of(ps);
    let pos = bytes_upto(ps, i as nat).len() as int;
    let p = ps[i];
    let b0 = encode_utf8(p.before);
    let b1 = encode_utf8(p.text);
    let b2 = encode_utf8(p.after);
    let start = pos + p.before.len();
    let end = start + b1.len();
    let next = end + p.after.len();
    lemma_piece_bytes(ps, i);
    assert(piece_ok(p));
    lemma_plain_bytes(p.before);
    lemma_plain_bytes(p.after);
    let upto = bytes_upto(ps, (i + 1) as nat);
    assert(upto == bytes_upto(ps, i as nat) + b0 + b1 + b2);
    assert forall|j: int| 0 <= j < upto.len() implies bytes[j] == upto[j] by {
        assert(bytes.subrange(0, upto.len() as int)[j] == bytes[j]);
    }
    assert forall|j: int| pos <= j < start implies is_space(#[trigger] bytes[j]) by {
        assert(upto[j] == b0[j - pos]);
        assert(b0[j - pos] == p.before[j - pos] as u8);
    }
    assert forall|j: int| end <= j < next implies is_space(#[trigger] bytes[j]) by {
        assert(upto[j] == b2[j - end]);
        assert(b2[j - end] == p.after[j - end] as u8);
    }
    assert forall|j: int| start <= j < end implies bytes[j] == b1[j - start] by {
        assert(upto[j] == b1[j - start]);
    }
    assert(bytes.subrange(start, end) =~= b1);
    if p.kind == TokenKind::Word {
        assert forall|j: int| 0 <= j < p.text.len() implies '\0' <= #[trigger] p.text[j]
            && p.text[j] <= '\u{7f}' by {
            assert(word_char(p.text[j]));
        }
        lemma_plain_bytes(p.text);
        assert forall|j: int| start <= j < end implies is_word_byte(#[trigger] bytes[j])
            && bytes[j] == p.text[j - start] as u8 by {
            assert(bytes[j] == b1[j - start]);
            assert(word_char(p.text[j - start]));
        }
        assert(bytes[start] == b1[0]);
    } else if p.kind == TokenKind::Str {
        lemma_string_bytes(p.text);
        assert(bytes[start] == b1[0]);
        assert(bytes[end - 1] == b1[b1.len() - 1]);
        assert forall|j: int| start < j < end - 1 implies #[trigger] bytes[j] != 34 by {
            assert(bytes[j] == b1[j - start]);
        }
    } else {
        let c = symbol_of(p.kind).unwrap();
        assert(p.text == seq![c]);
        assert(p.text[0] == c);
        lemma_plain_bytes(p.text);
        assert(bytes[start] == b1[0]);
        assert(b1[0] == c as u8);
    }
}

/// What stands behind a word is no part of a word.
proof fn lemma_word_ends(ps: Seq<Piece>, i: int)
    requires
        pieces_ok(ps),
        0 <= i < ps.len(),
        ps[i].kind == TokenKind::Word,
    ensures
        ({
            let bytes = bytes_of(ps);
            let end = bytes_upto(ps, i as nat).len() + ps[i].before.len() + ps[i].text.len();
            end == bytes.len() || !is_word_byte(bytes[end as int])
        }),
{
    let bytes = bytes_of(ps);
    let p = ps[i];
    let end = bytes_upto(ps, i as nat).len() + p.before.len() + p.text.len();
    lemma_bytes_of_piece(ps, i);
    if end < bytes.len() {
        if p.after.len() > 0 {
            assert(is_space(bytes[end as int]));
        } else {
            assert(i + 1 < ps.len()) by {
                if i + 1 == ps.len() {
                    assert(bytes_upto(ps, (i + 1) as nat).len() == bytes.len());
                }
            }
            let q = ps[i + 1];
            assert(starts_safely(q));
            lemma_bytes_of_piece(ps, i + 1);
        }
    }
}

/// The lexer reads the text of pieces, from the start of a piece on, as the
/// tokens of that piece and of those behind it.
#[verifier::rlimit(50)]
proof fn lemma_lex_from(ps: Seq<Piece>, i: int)
    requires
        pieces_ok(ps),
        bytes_of(ps).len() <= usize::MAX,
        0 <= i <= ps.len(),
    ensures
        tokens_from(bytes_of(ps), bytes_upto(ps, i as nat).len() as int) == Ok::<
            Seq<Token>,
            usize,
        >(placed_from(ps, i)),
    decreases ps.len() - i,
{
    let bytes = bytes_of(ps);
    let pos = bytes_upto(ps, i as nat).len() as int;
    if i == ps.len() {
        lemma_skip_blank(bytes, pos, pos);
        assert(placed_from(ps, i) =~= Seq::<Token>::empty());
    } else {
        let p = ps[i];
        let start = pos + p.before.len();
        let end = start + encode_utf8(p.text).len();
        let next = bytes_upto(ps, (i + 1) as nat).len() as int;
        lemma_bytes_of_piece(ps, i);
        lemma_skip_blank(bytes, pos, start);
        if p.kind == TokenKind::Word {
            lemma_word_ends(ps, i);
            lemma_scan_word(bytes, start, end);
        } else if p.kind == TokenKind::Str {
            lemma_scan_string(bytes, start + 1, end - 1);
        }
        assert(token_at(bytes, start) == Lexed::Found(placed(ps, i)));
        lemma_lex_from(ps, i + 1);
        lemma_same_after_blank(bytes, end, next);
        assert(placed_from(ps, i) =~= seq![placed(ps, i)] + placed_from(ps, i + 1));
    }
}

/// White space before a position makes no difference to the tokens from
/// there on.
proof fn lemma_same_after_blank(bytes: Seq<u8>, from: int, to: int)
    requires
        0 <= from <= to <= bytes.len(),
        forall|j: int| from <= j < to ==> is_space(#[trigger] bytes[j]),
    ensures
        after_space(bytes, from) == after_space(bytes, to),
        tokens_from(bytes, from) == tokens_from(bytes, to),
    decreases to - from,
{
    if from < to {
        lemma_same_after_blank(bytes, from + 1, to);
        let at = after_space(bytes, from);
        lemma_after_space_bounds(bytes, to);
        assert(tokens_from(bytes, from) == tokens_from(bytes, to)) by {
            reveal_with_fuel(tokens_from, 1);
        }
    }
}

proof fn lemma_after_space_bounds(bytes: Seq<u8>, pos: int)
    requires
        0 <= pos <= bytes.len(),
    ensures
        pos <= after_space(bytes, pos) <= bytes.len(),
    decreases bytes.len() - pos,
{
    if pos < bytes.len() && is_space(bytes[pos]) {
        lemma_after_space_bounds(bytes, pos + 1);
    }
}

/// The lexer reads the text of pieces as the tokens of the pieces.
pub proof fn lemma_lex_pieces(ps: Seq<Piece>)
    requires
        pieces_ok(ps),
        bytes_of(ps).len() <= usize::MAX,
    ensures
        tokens_of(bytes_of(ps)) == Ok::<Seq<Token>, usize>(placed_from(ps, 0)),
{
    assert(render(ps, 0) =~= Seq::<char>::empty());
    lemma_lex_from(ps, 0);
}

} // verus!
