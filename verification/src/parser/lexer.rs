//! From the bytes of a source text to its tokens.
//!
//! White space separates tokens and is otherwise skipped. A word is a run of
//! ASCII letters, digits and underscores, as long as it can be. A string
//! starts at a double quote and ends at the next one. A comment starts at
//! `/*` and ends at the next `*/`. Each of `{ } ( ) : ; . , @ # *` is a token
//! of its own. Nothing else starts a token.

use vstd::prelude::*;
use vstd::slice::*;

verus! {

/// The kinds of token.
#[derive(Clone, Copy, Debug, PartialEq, Eq, Structural)]
pub enum TokenKind {
    Word,
    Str,
    Comment,
    LeftBrace,
    RightBrace,
    LeftParen,
    RightParen,
    Colon,
    Semicolon,
    Dot,
    Comma,
    At,
    Hash,
    Star,
}

/// A token: its kind and the bytes `start..end` that it is made of.
#[derive(Clone, Copy, Debug, PartialEq, Eq, Structural)]
pub struct Token {
    pub kind: TokenKind,
    pub start: usize,
    pub end: usize,
}

pub open spec fn is_space(b: u8) -> bool {
    b == 32 || b == 9 || b == 10 || b == 13
}

pub open spec fn is_word_byte(b: u8) -> bool {
    (97 <= b && b <= 122) || (65 <= b && b <= 90) || (48 <= b && b <= 57) || b == 95
}

/// The kind of the token that consists of the byte `b` alone, if there is
/// one.
pub open spec fn symbol_kind(b: u8) -> Option<TokenKind> {
    if b == 123 {
        Some(TokenKind::LeftBrace)
    } else if b == 125 {
        Some(TokenKind::RightBrace)
    } else if b == 40 {
        Some(TokenKind::LeftParen)
    } else if b == 41 {
        Some(TokenKind::RightParen)
    } else if b == 58 {
        Some(TokenKind::Colon)
    } else if b == 59 {
        Some(TokenKind::Semicolon)
    } else if b == 46 {
        Some(TokenKind::Dot)
    } else if b == 44 {
        Some(TokenKind::Comma)
    } else if b == 64 {
        Some(TokenKind::At)
    } else if b == 35 {
        Some(TokenKind::Hash)
    } else if b == 42 {
        Some(TokenKind::Star)
    } else {
        None
    }
}

/// The first position from `pos` on that holds no white space.
pub open spec fn after_space(bytes: Seq<u8>, pos: int) -> int
    decreases bytes.len() - pos,
{
    if 0 <= pos < bytes.len() && is_space(bytes[pos]) {
        after_space(bytes, pos + 1)
    } else {
        pos
    }
}

/// The first position from `pos` on that holds no byte of a word.
pub open spec fn word_end(bytes: Seq<u8>, pos: int) -> int
    decreases bytes.len() - pos,
{
    if 0 <= pos < bytes.len() && is_word_byte(bytes[pos]) {
        word_end(bytes, pos + 1)
    } else {
        pos
    }
}

/// The position behind the first double quote from `pos` on, if there is
/// one.
pub open spec fn string_end(bytes: Seq<u8>, pos: int) -> Option<int>
    decreases bytes.len() - pos,
{
    if 0 <= pos < bytes.len() {
        if bytes[pos] == 34 {
            Some(pos + 1)
        } else {
            string_end(bytes, pos + 1)
        }
    } else {
        None
    }
}

/// The position behind the first `*/` from `pos` on, if there is one.
pub open spec fn comment_end(bytes: Seq<u8>, pos: int) -> Option<int>
    decreases bytes.len() - pos,
{
    if 0 <= pos && pos + 1 < bytes.len() {
        if bytes[pos] == 42 && bytes[pos + 1] == 47 {
            Some(pos + 2)
        } else {
            comment_end(bytes, pos + 1)
        }
    } else {
        None
    }
}

/// What stands at a position that holds no white space.
pub enum Lexed {
    /// The text ends here.
    End,
    /// A token starts here.
    Found(Token),
    /// No token starts here.
    Invalid,
}

/// What stands at `pos`, which lies in the text or at its end and holds no
/// white space.
pub open spec fn token_at(bytes: Seq<u8>, pos: int) -> Lexed {
    if pos < 0 || pos >= bytes.len() || bytes.len() > usize::MAX {
        Lexed::End
    } else if is_word_byte(bytes[pos]) {
        Lexed::Found(
            Token { kind: TokenKind::Word, start: pos as usize, end: word_end(bytes, pos) as usize },
        )
    } else if bytes[pos] == 34 {
        match string_end(bytes, pos + 1) {
            Some(end) => Lexed::Found(
                Token { kind: TokenKind::Str, start: pos as usize, end: end as usize },
            ),
            None => Lexed::Invalid,
        }
    } else if bytes[pos] == 47 && pos + 1 < bytes.len() && bytes[pos + 1] == 42 {
        match comment_end(bytes, pos + 2) {
            Some(end) => Lexed::Found(
                Token { kind: TokenKind::Comment, start: pos as usize, end: end as usize },
            ),
            None => Lexed::Invalid,
        }
    } else {
        match symbol_kind(bytes[pos]) {
            Some(kind) => Lexed::Found(
                Token { kind, start: pos as usize, end: (pos + 1) as usize },
            ),
            None => Lexed::Invalid,
        }
    }
}

/// The tokens of the text from `pos` on, or the position at which no token
/// starts.
pub open spec fn tokens_from(bytes: Seq<u8>, pos: int) -> Result<Seq<Token>, usize>
    decreases bytes.len() - pos,
{
    let at = after_space(bytes, pos);
    match token_at(bytes, at) {
        Lexed::End => Ok(Seq::empty()),
        Lexed::Invalid => Err(at as usize),
        Lexed::Found(token) => {
            if pos <= at && at < token.end && token.end <= bytes.len() {
                match tokens_from(bytes, token.end as int) {
                    Ok(rest) => Ok(seq![token] + rest),
                    Err(e) => Err(e),
                }
            } else {
                Err(at as usize)
            }
        },
    }
}

/// The tokens of a text, or the position at which no token starts.
pub open spec fn tokens_of(bytes: Seq<u8>) -> Result<Seq<Token>, usize> {
    tokens_from(bytes, 0)
}

/// Tokens lie in the text, one behind the other, and none is empty.
pub open spec fn tokens_in_order(tokens: Seq<Token>, len: int) -> bool {
    &&& forall|i: int|
        0 <= i < tokens.len() ==> (#[trigger] tokens[i]).start < tokens[i].end && tokens[i].end
            <= len
    &&& forall|i: int, j: int|
        0 <= i < j < tokens.len() ==> (#[trigger] tokens[i]).end <= (#[trigger] tokens[j]).start
}

/// The tokens of a text lie in it, one behind the other, from `pos` on.
pub proof fn lemma_tokens_in_order(bytes: Seq<u8>, pos: int)
    requires
        0 <= pos,
        tokens_from(bytes, pos).is_ok(),
    ensures
        tokens_in_order(tokens_from(bytes, pos).unwrap(), bytes.len() as int),
        forall|i: int|
            0 <= i < tokens_from(bytes, pos).unwrap().len() ==> pos <= (
            #[trigger] tokens_from(bytes, pos).unwrap()[i]).start,
    decreases bytes.len() - pos,
{
    let at = after_space(bytes, pos);
    match token_at(bytes, at) {
        Lexed::Found(token) => {
            lemma_tokens_in_order(bytes, token.end as int);
            let rest = tokens_from(bytes, token.end as int).unwrap();
            let all = tokens_from(bytes, pos).unwrap();
            assert(all =~= seq![token] + rest);
            assert forall|i: int| 0 <= i < all.len() implies (#[trigger] all[i]).start
                < all[i].end && all[i].end <= bytes.len() && pos <= all[i].start by {
                if i > 0 {
                    assert(all[i] == rest[i - 1]);
                }
            }
            assert forall|i: int, j: int| 0 <= i < j < all.len() implies (#[trigger] all[i]).end <= (
            #[trigger] all[j]).start by {
                assert(all[j] == rest[j - 1]);
                if i > 0 {
                    assert(all[i] == rest[i - 1]);
                }
            }
        },
        _ => {},
    }
}

fn space(b: u8) -> (r: bool)
    ensures
        r == is_space(b),
{
    b == 32 || b == 9 || b == 10 || b == 13
}

fn word_byte(b: u8) -> (r: bool)
    ensures
        r == is_word_byte(b),
{
    (97 <= b && b <= 122) || (65 <= b && b <= 90) || (48 <= b && b <= 57) || b == 95
}

fn symbol(b: u8) -> (r: Option<TokenKind>)
    ensures
        r == symbol_kind(b),
{
    if b == 123 {
        Some(TokenKind::LeftBrace)
    } else if b == 125 {
        Some(TokenKind::RightBrace)
    } else if b == 40 {
        Some(TokenKind::LeftParen)
    } else if b == 41 {
        Some(TokenKind::RightParen)
    } else if b == 58 {
        Some(TokenKind::Colon)
    } else if b == 59 {
        Some(TokenKind::Semicolon)
    } else if b == 46 {
        Some(TokenKind::Dot)
    } else if b == 44 {
        Some(TokenKind::Comma)
    } else if b == 64 {
        Some(TokenKind::At)
    } else if b == 35 {
        Some(TokenKind::Hash)
    } else if b == 42 {
        Some(TokenKind::Star)
    } else {
        None
    }
}

fn skip_space(bytes: &[u8], pos: usize) -> (r: usize)
    requires
        pos <= bytes@.len(),
    ensures
        pos <= r <= bytes@.len(),
        r == after_space(bytes@, pos as int),
{
    let mut i = pos;
    while i < bytes.len() && space(bytes[i])
        invariant
            pos <= i <= bytes@.len(),
            after_space(bytes@, pos as int) == after_space(bytes@, i as int),
        decreases bytes@.len() - i,
    {
        i += 1;
    }
    i
}

fn scan_word(bytes: &[u8], pos: usize) -> (r: usize)
    requires
        pos <= bytes@.len(),
    ensures
        pos <= r <= bytes@.len(),
        r == word_end(bytes@, pos as int),
        pos < bytes@.len() && is_word_byte(bytes@[pos as int]) ==> pos < r,
        forall|i: int| pos <= i < r ==> is_word_byte(#[trigger] bytes@[i]),
{
    let mut i = pos;
    while i < bytes.len() && word_byte(bytes[i])
        invariant
            pos <= i <= bytes@.len(),
            word_end(bytes@, pos as int) == word_end(bytes@, i as int),
            forall|k: int| pos <= k < i ==> is_word_byte(#[trigger] bytes@[k]),
        decreases bytes@.len() - i,
    {
        i += 1;
    }
    i
}

fn scan_string(bytes: &[u8], pos: usize) -> (r: Option<usize>)
    requires
        pos <= bytes@.len(),
    ensures
        match r {
            Some(end) => pos < end <= bytes@.len() && string_end(bytes@, pos as int) == Some(
                end as int,
            ),
            None => string_end(bytes@, pos as int).is_none(),
        },
{
    let mut i = pos;
    while i < bytes.len()
        invariant
            pos <= i <= bytes@.len(),
            string_end(bytes@, pos as int) == string_end(bytes@, i as int),
        decreases bytes@.len() - i,
    {
        if bytes[i] == 34 {
            return Some(i + 1);
        }
        i += 1;
    }
    None
}

fn scan_comment(bytes: &[u8], pos: usize) -> (r: Option<usize>)
    requires
        pos <= bytes@.len(),
    ensures
        match r {
            Some(end) => pos < end <= bytes@.len() && comment_end(bytes@, pos as int) == Some(
                end as int,
            ),
            None => comment_end(bytes@, pos as int).is_none(),
        },
{
    let mut i = pos;
    while i < bytes.len() && i + 1 < bytes.len()
        invariant
            pos <= i <= bytes@.len(),
            comment_end(bytes@, pos as int) == comment_end(bytes@, i as int),
        decreases bytes@.len() - i,
    {
        if bytes[i] == 42 && bytes[i + 1] == 47 {
            return Some(i + 2);
        }
        i += 1;
    }
    None
}

/// The tokens of a text, or the position at which no token starts.
pub fn lex(bytes: &[u8]) -> (r: Result<Vec<Token>, usize>)
    ensures
        match r {
            Ok(tokens) => tokens_of(bytes@) == Ok::<Seq<Token>, usize>(tokens@) && tokens_in_order(
                tokens@,
                bytes@.len() as int,
            ),
            Err(at) => tokens_of(bytes@) == Err::<Seq<Token>, usize>(at) && at <= bytes@.len(),
        },
{
    let mut tokens: Vec<Token> = Vec::new();
    let mut pos: usize = 0;
    let ghost whole = tokens_of(bytes@);
    loop
        invariant
            pos <= bytes@.len(),
            whole == tokens_of(bytes@),
            match tokens_from(bytes@, pos as int) {
                Ok(rest) => whole == Ok::<Seq<Token>, usize>(tokens@ + rest),
                Err(e) => whole == Err::<Seq<Token>, usize>(e),
            },
        decreases bytes@.len() - pos,
    {
        let at = skip_space(bytes, pos);
        if at >= bytes.len() {
            proof {
                assert(tokens@ + Seq::<Token>::empty() =~= tokens@);
                lemma_tokens_in_order(bytes@, 0);
            }
            return Ok(tokens);
        }
        let b = bytes[at];
        let end: usize;
        let kind: TokenKind;
        if word_byte(b) {
            end = scan_word(bytes, at);
            kind = TokenKind::Word;
        } else if b == 34 {
            match scan_string(bytes, at + 1) {
                Some(e) => {
                    end = e;
                    kind = TokenKind::Str;
                },
                None => {
                    return Err(at);
                },
            }
        } else if b == 47 && at + 1 < bytes.len() && bytes[at + 1] == 42 {
            match scan_comment(bytes, at + 2) {
                Some(e) => {
                    end = e;
                    kind = TokenKind::Comment;
                },
                None => {
                    return Err(at);
                },
            }
        } else {
            match symbol(b) {
                Some(k) => {
                    end = at + 1;
                    kind = k;
                },
                None => {
                    return Err(at);
                },
            }
        }
        let token = Token { kind, start: at, end };
        proof {
            assert(token_at(bytes@, at as int) == Lexed::Found(token));
            match tokens_from(bytes@, end as int) {
                Ok(rest) => {
                    assert(tokens@.push(token) + rest =~= tokens@ + (seq![token] + rest));
                },
                Err(e) => {},
            }
        }
        tokens.push(token);
        pos = end;
    }
}

} // verus!
