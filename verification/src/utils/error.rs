//! The errors of the compile pipeline.

use vstd::prelude::*;
use vstd::std_specs::convert::FromSpecImpl;
use crate::parser::parse_location::{Parsed, ParsedModel};
use crate::parser::schema_ast::{Relationship, RelationshipModel};

verus! {

/// What the typechecker reports.
#[derive(Debug)]
pub enum TypecheckError {
    DuplicateRelationship(Parsed<Relationship>),
    GeneralError(Parsed<String>),
}

/// The mathematical value of a [`TypecheckError`].
pub enum TypecheckErrorModel {
    DuplicateRelationship(ParsedModel<RelationshipModel>),
    GeneralError(ParsedModel<Seq<char>>),
}

impl View for TypecheckError {
    type V = TypecheckErrorModel;

    open spec fn view(&self) -> TypecheckErrorModel {
        match self {
            TypecheckError::DuplicateRelationship(r) => TypecheckErrorModel::DuplicateRelationship(
                r@,
            ),
            TypecheckError::GeneralError(m) => TypecheckErrorModel::GeneralError(m@),
        }
    }
}

impl Clone for TypecheckError {
    fn clone(&self) -> (r: Self)
        ensures
            r@ == self@,
    {
        match self {
            TypecheckError::DuplicateRelationship(rel) => TypecheckError::DuplicateRelationship(
                rel.clone(),
            ),
            TypecheckError::GeneralError(m) => TypecheckError::GeneralError(m.clone()),
        }
    }
}

/// How reading a source text can fail.
#[derive(Debug)]
pub enum ParseError {
    /// No token starts at `location`.
    InvalidToken { location: usize },
    /// The text ended at `location` where more was expected.
    UnrecognizedEof { location: usize },
    /// The token at `start..end` cannot stand where it does.
    UnrecognizedToken { start: usize, end: usize },
    /// The token at `start..end` follows a complete text.
    ExtraToken { start: usize, end: usize },
    /// A failure described in words.
    User { error: String },
}

/// Any failure of the pipeline.
#[derive(Debug)]
pub enum RuuLangError {
    FileNotFound(String),
    ConfigParseError(String),
    RuuLangParseError(usize),
    TypecheckError(TypecheckError),
    Other(String),
}

/// The mathematical value of a [`RuuLangError`].
pub enum RuuLangErrorModel {
    FileNotFound(Seq<char>),
    ConfigParseError(Seq<char>),
    RuuLangParseError(usize),
    TypecheckError(TypecheckErrorModel),
    Other(Seq<char>),
}

impl View for RuuLangError {
    type V = RuuLangErrorModel;

    open spec fn view(&self) -> RuuLangErrorModel {
        match self {
            RuuLangError::FileNotFound(m) => RuuLangErrorModel::FileNotFound(m@),
            RuuLangError::ConfigParseError(m) => RuuLangErrorModel::ConfigParseError(m@),
            RuuLangError::RuuLangParseError(at) => RuuLangErrorModel::RuuLangParseError(*at),
            RuuLangError::TypecheckError(e) => RuuLangErrorModel::TypecheckError(e@),
            RuuLangError::Other(m) => RuuLangErrorModel::Other(m@),
        }
    }
}

impl Clone for RuuLangError {
    fn clone(&self) -> (r: Self)
        ensures
            r@ == self@,
    {
        match self {
            RuuLangError::FileNotFound(m) => RuuLangError::FileNotFound(m.clone()),
            RuuLangError::ConfigParseError(m) => RuuLangError::ConfigParseError(m.clone()),
            RuuLangError::RuuLangParseError(at) => RuuLangError::RuuLangParseError(*at),
            RuuLangError::TypecheckError(e) => RuuLangError::TypecheckError(e.clone()),
            RuuLangError::Other(m) => RuuLangError::Other(m.clone()),
        }
    }
}

/// The typecheck diagnostic with the given message and place.
pub open spec fn general(d: ParsedModel<Seq<char>>) -> RuuLangErrorModel {
    RuuLangErrorModel::TypecheckError(TypecheckErrorModel::GeneralError(d))
}

/// The pipeline error that a parse failure becomes: its byte offset, whatever
/// the kind of failure; a failure in words keeps its words.
pub open spec fn error_of_parse(e: ParseError) -> RuuLangError {
    match e {
        ParseError::InvalidToken { location } => RuuLangError::RuuLangParseError(location),
        ParseError::UnrecognizedEof { location } => RuuLangError::RuuLangParseError(location),
        ParseError::UnrecognizedToken { start, end } => RuuLangError::RuuLangParseError(start),
        ParseError::ExtraToken { start, end } => RuuLangError::RuuLangParseError(start),
        ParseError::User { error } => RuuLangError::Other(error),
    }
}

impl From<ParseError> for RuuLangError {
    fn from(value: ParseError) -> (r: RuuLangError) {
        match value {
            ParseError::InvalidToken { location } => RuuLangError::RuuLangParseError(location),
            ParseError::UnrecognizedEof { location } => RuuLangError::RuuLangParseError(location),
            ParseError::UnrecognizedToken { start, end } => RuuLangError::RuuLangParseError(start),
            ParseError::ExtraToken { start, end } => RuuLangError::RuuLangParseError(start),
            ParseError::User { error } => RuuLangError::Other(error),
        }
    }
}

impl FromSpecImpl<ParseError> for RuuLangError {
    open spec fn obeys_from_spec() -> bool {
        true
    }

    open spec fn from_spec(value: ParseError) -> RuuLangError {
        error_of_parse(value)
    }
}

pub type Result<T> = core::result::Result<T, RuuLangError>;

} // verus!
