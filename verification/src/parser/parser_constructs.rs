//! The statements at the top level of a source text.

use vstd::prelude::*;
use vstd::string::StringSliceAdditionalSpecFns;
use crate::parser::grammar::{parse_tokens, statements_of, Source};
use crate::parser::lexer::{lex, tokens_in_order, tokens_of, Token};
use crate::parser::parse_location::{Parsed, ParsedModel};
use crate::utils::error::ParseError;
use crate::utils::text::views;
use crate::parser::ruulang_ast::{Entrypoint, EntrypointModel, Fragment, FragmentModel};
use crate::parser::schema_ast::{Entity, EntityModel};

verus! {

/// A statement at the top level of a source text.
#[derive(Debug)]
pub enum ParserStatement {
    Comment(String),
    Fragment(Parsed<Fragment>),
    Entrypoint(Parsed<Entrypoint>),
    Entity(Parsed<Entity>),
}

/// The mathematical value of a [`ParserStatement`].
pub enum StatementModel {
    Comment(Seq<char>),
    Fragment(ParsedModel<FragmentModel>),
    Entrypoint(ParsedModel<EntrypointModel>),
    Entity(ParsedModel<EntityModel>),
}

impl View for ParserStatement {
    type V = StatementModel;

    open spec fn view(&self) -> StatementModel {
        match self {
            ParserStatement::Comment(c) => StatementModel::Comment(c@),
            ParserStatement::Fragment(f) => StatementModel::Fragment(f@),
            ParserStatement::Entrypoint(e) => StatementModel::Entrypoint(e@),
            ParserStatement::Entity(e) => StatementModel::Entity(e@),
        }
    }
}

/// The statements of a source text, given as its bytes: its tokens, read by
/// the grammar, with comments made documentation. A text in which some
/// position starts no token fails with that position.
pub open spec fn parsed(bytes: Seq<u8>) -> Result<Seq<StatementModel>, ParseError> {
    match tokens_of(bytes) {
        Err(at) => Err(ParseError::InvalidToken { location: at }),
        Ok(tokens) => statements_of(Source { bytes, tokens }),
    }
}

/// There are no more tokens than bytes.
proof fn lemma_token_count(tokens: Seq<Token>, len: int, n: int)
    requires
        0 <= len,
        tokens_in_order(tokens, len),
        0 <= n <= tokens.len(),
    ensures
        n <= len,
        n > 0 ==> n <= tokens[n - 1].end,
    decreases n,
{
    if n > 0 {
        lemma_token_count(tokens, len, n - 1);
        assert(tokens[n - 1].start < tokens[n - 1].end && tokens[n - 1].end <= len);
        if n > 1 {
            assert(tokens[n - 2].end <= tokens[n - 1].start);
        }
    }
}

impl ParserStatement {
    /// The statements of a source text.
    pub fn parse(input: &str) -> (r: Result<Vec<ParserStatement>, ParseError>)
        requires
            input.spec_bytes().len() + 8 <= usize::MAX,
        ensures
            match r {
                Ok(v) => parsed(input.spec_bytes()) == Ok::<Seq<StatementModel>, ParseError>(
                    views(v@),
                ),
                Err(e) => parsed(input.spec_bytes()) == Err::<Seq<StatementModel>, ParseError>(e),
            },
    {
        let bytes = input.as_bytes();
        match lex(bytes) {
            Err(at) => Err(ParseError::InvalidToken { location: at }),
            Ok(tokens) => {
                proof {
                    lemma_token_count(tokens@, bytes@.len() as int, tokens@.len() as int);
                }
                parse_tokens(bytes, &tokens)
            },
        }
    }
}

} // verus!
