//! The grammar of source texts, over tokens.
//!
//! ```text
//! text         = { comment | entity | entrypoint | fragment }
//! entity       = "entity" word "{" { docs ( relationship | grant ) } docs "}"
//! relationship = word ":" word ( ";" | "{" { docs attribute } docs "}" )
//! grant        = word { "." word } ";"
//! attribute    = ":" word [ "(" [ argument { "," argument } ] ")" ]
//! argument     = word | string
//! entrypoint   = "@" word "{" { docs rule } docs "}"
//! fragment     = "fragment" word "for" word "{" { docs ( grant | rule ) } docs "}"
//! rule         = "*" | word { attribute } "{" { docs ( grant | include | rule ) } docs "}"
//! include      = "#" word ";"
//! docs         = { comment }
//! ```
//!
//! `entity`, `fragment` and `for` are words like any other where the grammar
//! asks for a word. The comments before a relationship, a grant, an
//! attribute of a relationship, a rule or an include are its documentation.
//! A node's byte range runs from its first token to its last, comments and
//! the semicolon behind a grant not counted.

use vstd::prelude::*;
use vstd::utf8::{decode_utf8, valid_utf8};
use crate::parser::lexer::{tokens_in_order, Token, TokenKind};
use crate::parser::parse_location::{Identifier, IdentifierKind, IdentifierModel, Parsed, ParsedModel};
use crate::parser::parser_constructs::{ParserStatement, StatementModel};
use crate::parser::parser_utils::{docstring_of, parse_docstrings};
use crate::parser::ruulang_ast::{
    Attribute, AttributeModel, Entrypoint, EntrypointModel, Fragment, FragmentModel, Grant, Rule,
    RuleModel,
};
use crate::parser::schema_ast::{Entity, EntityModel, Relationship, RelationshipModel};
use crate::utils::error::ParseError;
use crate::utils::text::{opt_text, string_of, texts, views, lemma_views_push};
use crate::utils::trie::Path;

verus! {

/// The text that a run of bytes that is not UTF-8 stands for: the text of
/// its parts that are UTF-8, with a replacement character in place of each
/// part that is not.
pub uninterp spec fn utf8_lossy(bytes: Seq<u8>) -> Seq<char>;

/// The text that a run of bytes stands for: the text that the bytes encode
/// where they are UTF-8, and else the text of their parts that are.
pub open spec fn text_of(bytes: Seq<u8>) -> Seq<char> {
    if valid_utf8(bytes) {
        decode_utf8(bytes)
    } else {
        utf8_lossy(bytes)
    }
}

/// Trusted: `String::from_utf8_lossy` gives bytes that are UTF-8 back as the
/// text that they encode. For other bytes its result depends on the bytes
/// alone and is named here without being spelled out.
#[verifier::external_body]
fn lossy_text(bytes: &[u8], start: usize, end: usize) -> (r: String)
    requires
        start <= end <= bytes@.len(),
    ensures
        r@ == (if valid_utf8(bytes@.subrange(start as int, end as int)) {
            decode_utf8(bytes@.subrange(start as int, end as int))
        } else {
            utf8_lossy(bytes@.subrange(start as int, end as int))
        }),
{
    String::from_utf8_lossy(&bytes[start..end]).into_owned()
}

/// A source text with its tokens.
pub struct Source {
    pub bytes: Seq<u8>,
    pub tokens: Seq<Token>,
}

/// The result of reading a construct at a position: the construct and the
/// position behind it, or the error.
pub enum Parse<T> {
    Done(T, int),
    Fail(ParseError),
}

impl Source {
    /// The kind of the token at `pos`, if there is a token.
    pub open spec fn kind_at(self, pos: int) -> Option<TokenKind> {
        if 0 <= pos < self.tokens.len() {
            Some(self.tokens[pos].kind)
        } else {
            None
        }
    }

    /// The error for what stands at `pos` where something else was expected:
    /// the token there, or the end of the text.
    pub open spec fn unexpected(self, pos: int) -> ParseError {
        if 0 <= pos < self.tokens.len() {
            ParseError::UnrecognizedToken {
                start: self.tokens[pos].start,
                end: self.tokens[pos].end,
            }
        } else {
            ParseError::UnrecognizedEof { location: self.bytes.len() as usize }
        }
    }

    /// The text of a word: its bytes as characters.
    pub open spec fn word_text(self, token: Token) -> Seq<char> {
        Seq::new(
            (token.end - token.start) as nat,
            |i: int| self.bytes[token.start + i] as char,
        )
    }

    /// The text of a comment or a string.
    pub open spec fn raw_text(self, token: Token) -> Seq<char> {
        text_of(self.bytes.subrange(token.start as int, token.end as int))
    }

    /// The word at `pos` as an identifier of the given kind.
    pub open spec fn name_at(self, pos: int, kind: IdentifierKind) -> Parse<
        ParsedModel<IdentifierModel>,
    > {
        if self.kind_at(pos) == Some(TokenKind::Word) {
            Parse::Done(
                ParsedModel {
                    loc: Some((self.tokens[pos].start, self.tokens[pos].end)),
                    file_name: None,
                    docstring: None,
                    data: IdentifierModel { value: self.word_text(self.tokens[pos]), kind },
                },
                pos + 1,
            )
        } else {
            Parse::Fail(self.unexpected(pos))
        }
    }

    /// The comments from `pos` on, and the position behind them.
    pub open spec fn docs_at(self, pos: int) -> (Seq<Seq<char>>, int)
        decreases self.tokens.len() - pos,
    {
        if self.kind_at(pos) == Some(TokenKind::Comment) {
            let rest = self.docs_at(pos + 1);
            (seq![self.raw_text(self.tokens[pos])] + rest.0, rest.1)
        } else {
            (Seq::empty(), pos)
        }
    }

    /// The rest of a grant's path behind its first word: the segments and
    /// the end of the last one.
    pub open spec fn path_at(self, pos: int, path: Path, end: usize) -> Parse<(Path, usize)>
        decreases self.tokens.len() - pos,
    {
        if self.kind_at(pos) == Some(TokenKind::Dot) {
            if self.kind_at(pos + 1) == Some(TokenKind::Word) {
                self.path_at(
                    pos + 2,
                    path.push(self.word_text(self.tokens[pos + 1])),
                    self.tokens[pos + 1].end,
                )
            } else {
                Parse::Fail(self.unexpected(pos + 1))
            }
        } else {
            Parse::Done((path, end), pos)
        }
    }

    /// The grant that starts with the word at `pos`.
    pub open spec fn grant_at(self, pos: int, doc: Option<Seq<char>>) -> Parse<ParsedModel<Path>> {
        if self.kind_at(pos) != Some(TokenKind::Word) {
            Parse::Fail(self.unexpected(pos))
        } else {
            match self.path_at(
                pos + 1,
                seq![self.word_text(self.tokens[pos])],
                self.tokens[pos].end,
            ) {
                Parse::Fail(e) => Parse::Fail(e),
                Parse::Done((path, end), next) => {
                    if self.kind_at(next) == Some(TokenKind::Semicolon) {
                        Parse::Done(
                            ParsedModel {
                                loc: Some((self.tokens[pos].start, end)),
                                file_name: None,
                                docstring: doc,
                                data: path,
                            },
                            next + 1,
                        )
                    } else {
                        Parse::Fail(self.unexpected(next))
                    }
                },
            }
        }
    }

    /// The argument at `pos`: a word, or a string with its quotes.
    pub open spec fn argument_at(self, pos: int) -> Parse<Seq<char>> {
        if self.kind_at(pos) == Some(TokenKind::Word) {
            Parse::Done(self.word_text(self.tokens[pos]), pos + 1)
        } else if self.kind_at(pos) == Some(TokenKind::Str) {
            Parse::Done(self.raw_text(self.tokens[pos]), pos + 1)
        } else {
            Parse::Fail(self.unexpected(pos))
        }
    }

    /// The rest of an argument list behind an argument: the arguments and
    /// the end of the closing parenthesis.
    pub open spec fn arguments_rest(self, pos: int, args: Seq<Seq<char>>) -> Parse<
        (Seq<Seq<char>>, usize),
    >
        decreases self.tokens.len() - pos,
    {
        if self.kind_at(pos) == Some(TokenKind::RightParen) {
            Parse::Done((args, self.tokens[pos].end), pos + 1)
        } else if self.kind_at(pos) == Some(TokenKind::Comma) {
            match self.argument_at(pos + 1) {
                Parse::Fail(e) => Parse::Fail(e),
                Parse::Done(arg, next) => self.arguments_rest(pos + 2, args.push(arg)),
            }
        } else {
            Parse::Fail(self.unexpected(pos))
        }
    }

    /// The argument list behind an opening parenthesis.
    pub open spec fn arguments_at(self, pos: int) -> Parse<(Seq<Seq<char>>, usize)> {
        if self.kind_at(pos) == Some(TokenKind::RightParen) {
            Parse::Done((Seq::empty(), self.tokens[pos].end), pos + 1)
        } else {
            match self.argument_at(pos) {
                Parse::Fail(e) => Parse::Fail(e),
                Parse::Done(arg, next) => self.arguments_rest(pos + 1, seq![arg]),
            }
        }
    }

    /// The attribute that starts with the colon at `pos`.
    pub open spec fn attribute_at(self, pos: int, doc: Option<Seq<char>>) -> Parse<
        ParsedModel<AttributeModel>,
    > {
        if self.kind_at(pos) != Some(TokenKind::Colon) {
            Parse::Fail(self.unexpected(pos))
        } else {
            match self.name_at(pos + 1, IdentifierKind::Attribute) {
                Parse::Fail(e) => Parse::Fail(e),
                Parse::Done(name, next) => {
                    if self.kind_at(pos + 2) == Some(TokenKind::LeftParen) {
                        match self.arguments_at(pos + 3) {
                            Parse::Fail(e) => Parse::Fail(e),
                            Parse::Done((args, end), after) => Parse::Done(
                                ParsedModel {
                                    loc: Some((self.tokens[pos].start, end)),
                                    file_name: None,
                                    docstring: doc,
                                    data: AttributeModel { name, arguments: args },
                                },
                                after,
                            ),
                        }
                    } else {
                        Parse::Done(
                            ParsedModel {
                                loc: Some((self.tokens[pos].start, self.tokens[pos + 1].end)),
                                file_name: None,
                                docstring: doc,
                                data: AttributeModel { name, arguments: Seq::empty() },
                            },
                            pos + 2,
                        )
                    }
                },
            }
        }
    }

    /// The attributes of a rule: those that follow one another from `pos`
    /// on.
    pub open spec fn attributes_at(self, pos: int, attrs: Seq<ParsedModel<AttributeModel>>) -> Parse<
        Seq<ParsedModel<AttributeModel>>,
    >
        decreases self.tokens.len() - pos,
    {
        if self.kind_at(pos) == Some(TokenKind::Colon) {
            match self.attribute_at(pos, None) {
                Parse::Fail(e) => Parse::Fail(e),
                Parse::Done(attr, next) => {
                    if pos < next <= self.tokens.len() {
                        self.attributes_at(next, attrs.push(attr))
                    } else {
                        Parse::Fail(self.unexpected(pos))
                    }
                },
            }
        } else {
            Parse::Done(attrs, pos)
        }
    }

    /// The attributes of a relationship, up to the closing brace: the
    /// attributes and the end of the brace.
    pub open spec fn relationship_attributes_at(
        self,
        pos: int,
        attrs: Seq<ParsedModel<AttributeModel>>,
    ) -> Parse<(Seq<ParsedModel<AttributeModel>>, usize)>
        decreases self.tokens.len() - pos,
    {
        let docs = self.docs_at(pos);
        if docs.1 < pos {
            Parse::Fail(self.unexpected(pos))
        } else if self.kind_at(docs.1) == Some(TokenKind::RightBrace) {
            Parse::Done((attrs, self.tokens[docs.1].end), docs.1 + 1)
        } else if self.kind_at(docs.1) == Some(TokenKind::Colon) {
            match self.attribute_at(docs.1, docstring_of(docs.0)) {
                Parse::Fail(e) => Parse::Fail(e),
                Parse::Done(attr, next) => {
                    if docs.1 < next <= self.tokens.len() {
                        self.relationship_attributes_at(next, attrs.push(attr))
                    } else {
                        Parse::Fail(self.unexpected(pos))
                    }
                },
            }
        } else {
            Parse::Fail(self.unexpected(docs.1))
        }
    }

    /// The relationship that starts with the word at `pos`.
    pub open spec fn relationship_at(self, pos: int, doc: Option<Seq<char>>) -> Parse<
        ParsedModel<RelationshipModel>,
    > {
        match self.name_at(pos, IdentifierKind::Rule) {
            Parse::Fail(e) => Parse::Fail(e),
            Parse::Done(name, next) => {
                if self.kind_at(pos + 1) != Some(TokenKind::Colon) {
                    Parse::Fail(self.unexpected(pos + 1))
                } else {
                    match self.name_at(pos + 2, IdentifierKind::Entity) {
                        Parse::Fail(e) => Parse::Fail(e),
                        Parse::Done(target, after) => {
                            if self.kind_at(pos + 3) == Some(TokenKind::Semicolon) {
                                Parse::Done(
                                    ParsedModel {
                                        loc: Some(
                                            (self.tokens[pos].start, self.tokens[pos + 3].end),
                                        ),
                                        file_name: None,
                                        docstring: doc,
                                        data: RelationshipModel {
                                            relationship_name: name,
                                            entity_name: target,
                                            attributes: Seq::empty(),
                                        },
                                    },
                                    pos + 4,
                                )
                            } else if self.kind_at(pos + 3) == Some(TokenKind::LeftBrace) {
                                match self.relationship_attributes_at(pos + 4, Seq::empty()) {
                                    Parse::Fail(e) => Parse::Fail(e),
                                    Parse::Done((attrs, end), behind) => Parse::Done(
                                        ParsedModel {
                                            loc: Some((self.tokens[pos].start, end)),
                                            file_name: None,
                                            docstring: doc,
                                            data: RelationshipModel {
                                                relationship_name: name,
                                                entity_name: target,
                                                attributes: attrs,
                                            },
                                        },
                                        behind,
                                    ),
                                }
                            } else {
                                Parse::Fail(self.unexpected(pos + 3))
                            }
                        },
                    }
                }
            },
        }
    }

    /// The members of an entity, up to the closing brace: the relationships,
    /// the grants, and the end of the brace.
    pub open spec fn members_at(
        self,
        pos: int,
        rels: Seq<ParsedModel<RelationshipModel>>,
        grants: Seq<ParsedModel<Path>>,
    ) -> Parse<(Seq<ParsedModel<RelationshipModel>>, Seq<ParsedModel<Path>>, usize)>
        decreases self.tokens.len() - pos,
    {
        let docs = self.docs_at(pos);
        if docs.1 < pos {
            Parse::Fail(self.unexpected(pos))
        } else if self.kind_at(docs.1) == Some(TokenKind::RightBrace) {
            Parse::Done((rels, grants, self.tokens[docs.1].end), docs.1 + 1)
        } else if self.kind_at(docs.1) == Some(TokenKind::Word) {
            if self.kind_at(docs.1 + 1) == Some(TokenKind::Colon) {
                match self.relationship_at(docs.1, docstring_of(docs.0)) {
                    Parse::Fail(e) => Parse::Fail(e),
                    Parse::Done(rel, next) => {
                        if docs.1 < next <= self.tokens.len() {
                            self.members_at(next, rels.push(rel), grants)
                        } else {
                            Parse::Fail(self.unexpected(pos))
                        }
                    },
                }
            } else {
                match self.grant_at(docs.1, docstring_of(docs.0)) {
                    Parse::Fail(e) => Parse::Fail(e),
                    Parse::Done(grant, next) => {
                        if docs.1 < next <= self.tokens.len() {
                            self.members_at(next, rels, grants.push(grant))
                        } else {
                            Parse::Fail(self.unexpected(pos))
                        }
                    },
                }
            }
        } else {
            Parse::Fail(self.unexpected(docs.1))
        }
    }

    /// The entity that starts with the word `entity` at `pos`.
    pub open spec fn entity_at(self, pos: int) -> Parse<ParsedModel<EntityModel>> {
        match self.name_at(pos + 1, IdentifierKind::Entity) {
            Parse::Fail(e) => Parse::Fail(e),
            Parse::Done(name, next) => {
                if self.kind_at(pos + 2) != Some(TokenKind::LeftBrace) {
                    Parse::Fail(self.unexpected(pos + 2))
                } else {
                    match self.members_at(pos + 3, Seq::empty(), Seq::empty()) {
                        Parse::Fail(e) => Parse::Fail(e),
                        Parse::Done((rels, grants, end), behind) => Parse::Done(
                            ParsedModel {
                                loc: Some((self.tokens[pos].start, end)),
                                file_name: None,
                                docstring: None,
                                data: EntityModel { name, relationships: rels, grants },
                            },
                            behind,
                        ),
                    }
                }
            },
        }
    }

    /// The rule that starts at `pos`: the wildcard, or a relationship's name
    /// with attributes and a body.
    pub open spec fn rule_at(self, pos: int, doc: Option<Seq<char>>) -> Parse<ParsedModel<RuleModel>>
        decreases self.tokens.len() - pos, 0nat,
    {
        if self.kind_at(pos) == Some(TokenKind::Star) {
            let loc = Some((self.tokens[pos].start, self.tokens[pos].end));
            Parse::Done(
                ParsedModel {
                    loc,
                    file_name: None,
                    docstring: doc,
                    data: RuleModel {
                        relationship: ParsedModel {
                            loc,
                            file_name: None,
                            docstring: None,
                            data: IdentifierModel { value: "*"@, kind: IdentifierKind::Rule },
                        },
                        attributes: Seq::empty(),
                        grants: Seq::empty(),
                        rules: Seq::empty(),
                        include_fragments: Seq::empty(),
                    },
                },
                pos + 1,
            )
        } else {
            match self.name_at(pos, IdentifierKind::Rule) {
                Parse::Fail(e) => Parse::Fail(e),
                Parse::Done(name, next) => match self.attributes_at(pos + 1, Seq::empty()) {
                    Parse::Fail(e) => Parse::Fail(e),
                    Parse::Done(attrs, open) => {
                        if open <= pos {
                            Parse::Fail(self.unexpected(pos))
                        } else if self.kind_at(open) != Some(TokenKind::LeftBrace) {
                            Parse::Fail(self.unexpected(open))
                        } else {
                            match self.body_at(open + 1, true, true, Body::empty()) {
                                Parse::Fail(e) => Parse::Fail(e),
                                Parse::Done((body, end), behind) => Parse::Done(
                                    ParsedModel {
                                        loc: Some((self.tokens[pos].start, end)),
                                        file_name: None,
                                        docstring: doc,
                                        data: RuleModel {
                                            relationship: name,
                                            attributes: attrs,
                                            grants: body.grants,
                                            rules: body.rules,
                                            include_fragments: body.includes,
                                        },
                                    },
                                    behind,
                                ),
                            }
                        }
                    },
                },
            }
        }
    }

    /// The items of a body, up to the closing brace: the items and the end
    /// of the brace. Grants and includes are read only where the body may
    /// hold them.
    pub open spec fn body_at(self, pos: int, grants_allowed: bool, includes_allowed: bool, body: Body) -> Parse<
        (Body, usize),
    >
        decreases self.tokens.len() - pos, 1nat,
    {
        let docs = self.docs_at(pos);
        let at = docs.1;
        let doc = docstring_of(docs.0);
        if at < pos {
            Parse::Fail(self.unexpected(pos))
        } else if self.kind_at(at) == Some(TokenKind::RightBrace) {
            Parse::Done((body, self.tokens[at].end), at + 1)
        } else if self.kind_at(at) == Some(TokenKind::Hash) {
            if !includes_allowed {
                Parse::Fail(self.unexpected(at))
            } else {
                match self.name_at(at + 1, IdentifierKind::Fragment) {
                    Parse::Fail(e) => Parse::Fail(e),
                    Parse::Done(name, next) => {
                        if self.kind_at(at + 2) == Some(TokenKind::Semicolon) {
                            self.body_at(
                                at + 3,
                                grants_allowed,
                                includes_allowed,
                                Body {
                                    includes: body.includes.push(
                                        ParsedModel { docstring: doc, ..name },
                                    ),
                                    ..body
                                },
                            )
                        } else {
                            Parse::Fail(self.unexpected(at + 2))
                        }
                    },
                }
            }
        } else if self.kind_at(at) == Some(TokenKind::Word) && (self.kind_at(at + 1) == Some(
            TokenKind::Dot,
        ) || self.kind_at(at + 1) == Some(TokenKind::Semicolon)) {
            if !grants_allowed {
                Parse::Fail(self.unexpected(at))
            } else {
                match self.grant_at(at, doc) {
                    Parse::Fail(e) => Parse::Fail(e),
                    Parse::Done(grant, next) => {
                        if at < next <= self.tokens.len() {
                            self.body_at(
                                next,
                                grants_allowed,
                                includes_allowed,
                                Body { grants: body.grants.push(grant), ..body },
                            )
                        } else {
                            Parse::Fail(self.unexpected(pos))
                        }
                    },
                }
            }
        } else if self.kind_at(at) == Some(TokenKind::Word) || self.kind_at(at) == Some(
            TokenKind::Star,
        ) {
            match self.rule_at(at, doc) {
                Parse::Fail(e) => Parse::Fail(e),
                Parse::Done(rule, next) => {
                    if at < next <= self.tokens.len() {
                        self.body_at(
                            next,
                            grants_allowed,
                            includes_allowed,
                            Body { rules: body.rules.push(rule), ..body },
                        )
                    } else {
                        Parse::Fail(self.unexpected(pos))
                    }
                },
            }
        } else {
            Parse::Fail(self.unexpected(at))
        }
    }

    /// The entrypoint that starts with the `@` at `pos`.
    pub open spec fn entrypoint_at(self, pos: int) -> Parse<ParsedModel<EntrypointModel>> {
        match self.name_at(pos + 1, IdentifierKind::Entity) {
            Parse::Fail(e) => Parse::Fail(e),
            Parse::Done(name, next) => {
                if self.kind_at(pos + 2) != Some(TokenKind::LeftBrace) {
                    Parse::Fail(self.unexpected(pos + 2))
                } else {
                    match self.body_at(pos + 3, false, false, Body::empty()) {
                        Parse::Fail(e) => Parse::Fail(e),
                        Parse::Done((body, end), behind) => Parse::Done(
                            ParsedModel {
                                loc: Some((self.tokens[pos].start, end)),
                                file_name: None,
                                docstring: None,
                                data: EntrypointModel { entrypoint: name, rules: body.rules },
                            },
                            behind,
                        ),
                    }
                }
            },
        }
    }

    /// Whether the token at `pos` is the word `word`.
    pub open spec fn is_word(self, pos: int, word: Seq<char>) -> bool {
        self.kind_at(pos) == Some(TokenKind::Word) && self.word_text(self.tokens[pos]) == word
    }

    /// The fragment that starts with the word `fragment` at `pos`.
    pub open spec fn fragment_at(self, pos: int) -> Parse<ParsedModel<FragmentModel>> {
        match self.name_at(pos + 1, IdentifierKind::Fragment) {
            Parse::Fail(e) => Parse::Fail(e),
            Parse::Done(name, next) => {
                if !self.is_word(pos + 2, "for"@) {
                    Parse::Fail(self.unexpected(pos + 2))
                } else {
                    match self.name_at(pos + 3, IdentifierKind::Entity) {
                        Parse::Fail(e) => Parse::Fail(e),
                        Parse::Done(entity, after) => {
                            if self.kind_at(pos + 4) != Some(TokenKind::LeftBrace) {
                                Parse::Fail(self.unexpected(pos + 4))
                            } else {
                                match self.body_at(pos + 5, true, false, Body::empty()) {
                                    Parse::Fail(e) => Parse::Fail(e),
                                    Parse::Done((body, end), behind) => Parse::Done(
                                        ParsedModel {
                                            loc: Some((self.tokens[pos].start, end)),
                                            file_name: None,
                                            docstring: None,
                                            data: FragmentModel {
                                                name,
                                                for_entity: entity,
                                                grants: body.grants,
                                                rules: body.rules,
                                            },
                                        },
                                        behind,
                                    ),
                                }
                            }
                        },
                    }
                }
            },
        }
    }

    /// The statements from `pos` to the end of the text, behind those
    /// already read.
    pub open spec fn statements_at(self, pos: int, read: Seq<StatementModel>) -> Parse<
        Seq<StatementModel>,
    >
        decreases self.tokens.len() - pos,
    {
        if pos < 0 || pos >= self.tokens.len() {
            Parse::Done(read, pos)
        } else if self.kind_at(pos) == Some(TokenKind::Comment) {
            self.statements_at(
                pos + 1,
                read.push(StatementModel::Comment(self.raw_text(self.tokens[pos]))),
            )
        } else if self.kind_at(pos) == Some(TokenKind::At) {
            match self.entrypoint_at(pos) {
                Parse::Fail(e) => Parse::Fail(e),
                Parse::Done(e, next) => {
                    if pos < next <= self.tokens.len() {
                        self.statements_at(next, read.push(StatementModel::Entrypoint(e)))
                    } else {
                        Parse::Fail(self.unexpected(pos))
                    }
                },
            }
        } else if self.is_word(pos, "entity"@) {
            match self.entity_at(pos) {
                Parse::Fail(e) => Parse::Fail(e),
                Parse::Done(e, next) => {
                    if pos < next <= self.tokens.len() {
                        self.statements_at(next, read.push(StatementModel::Entity(e)))
                    } else {
                        Parse::Fail(self.unexpected(pos))
                    }
                },
            }
        } else if self.is_word(pos, "fragment"@) {
            match self.fragment_at(pos) {
                Parse::Fail(e) => Parse::Fail(e),
                Parse::Done(f, next) => {
                    if pos < next <= self.tokens.len() {
                        self.statements_at(next, read.push(StatementModel::Fragment(f)))
                    } else {
                        Parse::Fail(self.unexpected(pos))
                    }
                },
            }
        } else {
            Parse::Fail(self.unexpected(pos))
        }
    }
}

/// What a body holds.
pub struct Body {
    pub grants: Seq<ParsedModel<Path>>,
    pub includes: Seq<ParsedModel<IdentifierModel>>,
    pub rules: Seq<ParsedModel<RuleModel>>,
}

impl Body {
    pub open spec fn empty() -> Body {
        Body { grants: Seq::empty(), includes: Seq::empty(), rules: Seq::empty() }
    }
}

/// A statement with `doc` as the documentation of what it declares; a
/// comment stays as it is.
pub open spec fn with_docstring(statement: StatementModel, doc: Option<Seq<char>>) -> StatementModel {
    match statement {
        StatementModel::Comment(c) => StatementModel::Comment(c),
        StatementModel::Fragment(f) => StatementModel::Fragment(
            ParsedModel { docstring: doc, ..f },
        ),
        StatementModel::Entrypoint(e) => StatementModel::Entrypoint(
            ParsedModel { docstring: doc, ..e },
        ),
        StatementModel::Entity(e) => StatementModel::Entity(ParsedModel { docstring: doc, ..e }),
    }
}

/// The first `n` statements with each run of comments made the documentation
/// of the declaration behind it: the declarations so far, and the comments
/// that no declaration has followed yet.
pub open spec fn attach_state(statements: Seq<StatementModel>, n: nat) -> (
    Seq<StatementModel>,
    Seq<Seq<char>>,
)
    decreases n,
{
    if n == 0 || n > statements.len() {
        (Seq::empty(), Seq::empty())
    } else {
        let before = attach_state(statements, (n - 1) as nat);
        match statements[n - 1] {
            StatementModel::Comment(c) => (before.0, before.1.push(c)),
            other => (before.0.push(with_docstring(other, docstring_of(before.1))), Seq::empty()),
        }
    }
}

/// The statements with each run of comments made the documentation of the
/// declaration behind it. Comments that no declaration follows stay
/// statements, at the end.
pub open spec fn attached(statements: Seq<StatementModel>) -> Seq<StatementModel> {
    let state = attach_state(statements, statements.len());
    state.0 + Seq::new(state.1.len(), |i: int| StatementModel::Comment(state.1[i]))
}

/// The statements of a tokenized text.
pub open spec fn statements_of(source: Source) -> Result<Seq<StatementModel>, ParseError> {
    match source.statements_at(0, Seq::empty()) {
        Parse::Done(statements, _) => Ok(attached(statements)),
        Parse::Fail(e) => Err(e),
    }
}

/// What a body holds.
pub struct BodyParts {
    pub grants: Vec<Parsed<Grant>>,
    pub includes: Vec<Parsed<Identifier>>,
    pub rules: Vec<Parsed<Rule>>,
}

impl View for BodyParts {
    type V = Body;

    open spec fn view(&self) -> Body {
        Body {
            grants: views(self.grants@),
            includes: views(self.includes@),
            rules: views(self.rules@),
        }
    }
}

/// A source text with its tokens.
pub struct Cursor<'a> {
    pub bytes: &'a [u8],
    pub tokens: &'a Vec<Token>,
}

impl<'a> View for Cursor<'a> {
    type V = Source;

    open spec fn view(&self) -> Source {
        Source { bytes: self.bytes@, tokens: self.tokens@ }
    }
}

impl<'a> Cursor<'a> {
    /// The tokens lie in the text, one behind the other, and positions
    /// behind the last token can be counted.
    pub open spec fn wf(&self) -> bool {
        &&& tokens_in_order(self.tokens@, self.bytes@.len() as int)
        &&& self.tokens@.len() + 8 <= usize::MAX
    }

    fn is_kind(&self, pos: usize, kind: TokenKind) -> (r: bool)
        ensures
            r == (self@.kind_at(pos as int) == Some(kind)),
            r ==> pos < self.tokens@.len(),
    {
        pos < self.tokens.len() && self.tokens[pos].kind == kind
    }

    fn fail(&self, pos: usize) -> (r: ParseError)
        ensures
            r == self@.unexpected(pos as int),
    {
        if pos < self.tokens.len() {
            ParseError::UnrecognizedToken {
                start: self.tokens[pos].start,
                end: self.tokens[pos].end,
            }
        } else {
            ParseError::UnrecognizedEof { location: self.bytes.len() }
        }
    }

    fn word(&self, pos: usize) -> (r: String)
        requires
            self.wf(),
            pos < self.tokens@.len(),
        ensures
            r@ == self@.word_text(self.tokens@[pos as int]),
    {
        let token = self.tokens[pos];
        let mut chars: Vec<char> = Vec::new();
        let mut i = token.start;
        while i < token.end
            invariant
                token.start <= i <= token.end <= self.bytes@.len(),
                chars@.len() == i - token.start,
                forall|k: int|
                    0 <= k < chars@.len() ==> chars@[k] == self.bytes@[token.start + k] as char,
            decreases token.end - i,
        {
            chars.push(self.bytes[i] as char);
            i += 1;
        }
        assert(chars@ =~= self@.word_text(token));
        string_of(&chars)
    }

    fn raw(&self, pos: usize) -> (r: String)
        requires
            self.wf(),
            pos < self.tokens@.len(),
        ensures
            r@ == self@.raw_text(self.tokens@[pos as int]),
    {
        let token = self.tokens[pos];
        lossy_text(self.bytes, token.start, token.end)
    }

    fn is_word(&self, pos: usize, word: &str) -> (r: bool)
        requires
            self.wf(),
        ensures
            r == self@.is_word(pos as int, word@),
    {
        if self.is_kind(pos, TokenKind::Word) {
            crate::utils::text::same_text(self.word(pos).as_str(), word)
        } else {
            false
        }
    }

    fn name(&self, pos: usize, kind: IdentifierKind) -> (r: Result<Parsed<Identifier>, ParseError>)
        requires
            self.wf(),
        ensures
            match r {
                Ok(v) => self@.name_at(pos as int, kind) == Parse::Done(v@, pos + 1) && pos
                    < self.tokens@.len() && v.loc == Some(
                    (self.tokens@[pos as int].start, self.tokens@[pos as int].end),
                ),
                Err(e) => self@.name_at(pos as int, kind) == Parse::<
                    ParsedModel<IdentifierModel>,
                >::Fail(e),
            },
    {
        if self.is_kind(pos, TokenKind::Word) {
            let token = self.tokens[pos];
            Ok(
                Parsed {
                    loc: Some((token.start, token.end)),
                    file_name: None,
                    docstring: None,
                    data: Identifier { value: self.word(pos), kind },
                },
            )
        } else {
            Err(self.fail(pos))
        }
    }

    fn docs(&self, pos: usize) -> (r: (Vec<String>, usize))
        requires
            self.wf(),
        ensures
            (texts(r.0@), r.1 as int) == self@.docs_at(pos as int),
            pos <= r.1,
            r.1 <= self.tokens@.len() || r.1 == pos,
    {
        let mut found: Vec<String> = Vec::new();
        let mut at = pos;
        assert(texts(found@) + self@.docs_at(at as int).0 =~= self@.docs_at(pos as int).0);
        while self.is_kind(at, TokenKind::Comment)
            invariant
                self.wf(),
                pos <= at,
                at <= self.tokens@.len() || at == pos,
                texts(found@) + self@.docs_at(at as int).0 == self@.docs_at(pos as int).0,
                self@.docs_at(at as int).1 == self@.docs_at(pos as int).1,
            decreases self.tokens@.len() - at,
        {
            let ghost before = texts(found@);
            let text = self.raw(at);
            found.push(text);
            proof {
                assert(texts(found@) =~= before.push(text@));
                assert(texts(found@) + self@.docs_at(at + 1).0 =~= before + self@.docs_at(
                    at as int,
                ).0);
            }
            at += 1;
        }
        assert(texts(found@) + Seq::<Seq<char>>::empty() =~= texts(found@));
        (found, at)
    }

    fn grant(&self, pos: usize, doc: Option<String>) -> (r: Result<(Parsed<Grant>, usize), ParseError>)
        requires
            self.wf(),
        ensures
            match r {
                Ok((v, next)) => self@.grant_at(pos as int, opt_text(doc)) == Parse::Done(
                    v@,
                    next as int,
                ) && pos < next <= self.tokens@.len(),
                Err(e) => self@.grant_at(pos as int, opt_text(doc)) == Parse::<
                    ParsedModel<Path>,
                >::Fail(e),
            },
    {
        if !self.is_kind(pos, TokenKind::Word) {
            return Err(self.fail(pos));
        }
        let first = self.tokens[pos];
        let mut path: Vec<String> = Vec::new();
        path.push(self.word(pos));
        let mut end = first.end;
        let mut at = pos + 1;
        assert(texts(path@) =~= seq![self@.word_text(first)]);
        while self.is_kind(at, TokenKind::Dot)
            invariant
                self.wf(),
                pos < at <= self.tokens@.len(),
                first == self.tokens@[pos as int],
                self@.kind_at(pos as int) == Some(TokenKind::Word),
                self@.path_at(pos + 1, seq![self@.word_text(first)], first.end) == self@.path_at(
                    at as int,
                    texts(path@),
                    end,
                ),
            decreases self.tokens@.len() - at,
        {
            if self.is_kind(at + 1, TokenKind::Word) {
                let ghost before = texts(path@);
                let text = self.word(at + 1);
                path.push(text);
                assert(texts(path@) =~= before.push(text@));
                end = self.tokens[at + 1].end;
                at = at + 2;
            } else {
                return Err(self.fail(at + 1));
            }
        }
        if self.is_kind(at, TokenKind::Semicolon) {
            Ok(
                (
                    Parsed {
                        loc: Some((first.start, end)),
                        file_name: None,
                        docstring: doc,
                        data: Grant { grant: path },
                    },
                    at + 1,
                ),
            )
        } else {
            Err(self.fail(at))
        }
    }

    fn argument(&self, pos: usize) -> (r: Result<String, ParseError>)
        requires
            self.wf(),
        ensures
            match r {
                Ok(v) => self@.argument_at(pos as int) == Parse::Done(v@, pos + 1) && pos
                    < self.tokens@.len(),
                Err(e) => self@.argument_at(pos as int) == Parse::<Seq<char>>::Fail(e),
            },
    {
        if self.is_kind(pos, TokenKind::Word) {
            Ok(self.word(pos))
        } else if self.is_kind(pos, TokenKind::Str) {
            Ok(self.raw(pos))
        } else {
            Err(self.fail(pos))
        }
    }

    /// The argument list behind an opening parenthesis: the arguments, the
    /// end of the closing parenthesis, and the position behind it.
    fn arguments(&self, pos: usize) -> (r: Result<(Vec<String>, usize, usize), ParseError>)
        requires
            self.wf(),
        ensures
            match r {
                Ok((v, end, next)) => self@.arguments_at(pos as int) == Parse::Done(
                    (texts(v@), end),
                    next as int,
                ) && pos < next <= self.tokens@.len(),
                Err(e) => self@.arguments_at(pos as int) == Parse::<(Seq<Seq<char>>, usize)>::Fail(
                    e,
                ),
            },
    {
        let mut args: Vec<String> = Vec::new();
        if self.is_kind(pos, TokenKind::RightParen) {
            assert(texts(args@) =~= Seq::empty());
            return Ok((args, self.tokens[pos].end, pos + 1));
        }
        let first = match self.argument(pos) {
            Ok(a) => a,
            Err(e) => {
                return Err(e);
            },
        };
        args.push(first);
        assert(texts(args@) =~= seq![first@]);
        let mut at = pos + 1;
        loop
            invariant
                self.wf(),
                pos < at <= self.tokens@.len(),
                self@.arguments_at(pos as int) == self@.arguments_rest(at as int, texts(args@)),
            decreases self.tokens@.len() - at,
        {
            if self.is_kind(at, TokenKind::RightParen) {
                return Ok((args, self.tokens[at].end, at + 1));
            } else if self.is_kind(at, TokenKind::Comma) {
                let arg = match self.argument(at + 1) {
                    Ok(a) => a,
                    Err(e) => {
                        return Err(e);
                    },
                };
                let ghost before = texts(args@);
                args.push(arg);
                assert(texts(args@) =~= before.push(arg@));
                at = at + 2;
            } else {
                return Err(self.fail(at));
            }
        }
    }

    fn attribute(&self, pos: usize, doc: Option<String>) -> (r: Result<
        (Parsed<Attribute>, usize),
        ParseError,
    >)
        requires
            self.wf(),
        ensures
            match r {
                Ok((v, next)) => self@.attribute_at(pos as int, opt_text(doc)) == Parse::Done(
                    v@,
                    next as int,
                ) && pos < next <= self.tokens@.len(),
                Err(e) => self@.attribute_at(pos as int, opt_text(doc)) == Parse::<
                    ParsedModel<AttributeModel>,
                >::Fail(e),
            },
    {
        if !self.is_kind(pos, TokenKind::Colon) {
            return Err(self.fail(pos));
        }
        let start = self.tokens[pos].start;
        let name = match self.name(pos + 1, IdentifierKind::Attribute) {
            Ok(n) => n,
            Err(e) => {
                return Err(e);
            },
        };
        if self.is_kind(pos + 2, TokenKind::LeftParen) {
            let (args, end, next) = match self.arguments(pos + 3) {
                Ok(a) => a,
                Err(e) => {
                    return Err(e);
                },
            };
            Ok(
                (
                    Parsed {
                        loc: Some((start, end)),
                        file_name: None,
                        docstring: doc,
                        data: Attribute { name, arguments: args },
                    },
                    next,
                ),
            )
        } else {
            let end = self.tokens[pos + 1].end;
            let args: Vec<String> = Vec::new();
            assert(texts(args@) =~= Seq::empty());
            Ok(
                (
                    Parsed {
                        loc: Some((start, end)),
                        file_name: None,
                        docstring: doc,
                        data: Attribute { name, arguments: args },
                    },
                    pos + 2,
                ),
            )
        }
    }

    fn attributes(&self, pos: usize) -> (r: Result<(Vec<Parsed<Attribute>>, usize), ParseError>)
        requires
            self.wf(),
        ensures
            match r {
                Ok((v, next)) => self@.attributes_at(pos as int, Seq::empty()) == Parse::Done(
                    views(v@),
                    next as int,
                ) && pos <= next && (next <= self.tokens@.len() || next == pos),
                Err(e) => self@.attributes_at(pos as int, Seq::empty()) == Parse::<
                    Seq<ParsedModel<AttributeModel>>,
                >::Fail(e),
            },
    {
        let mut attrs: Vec<Parsed<Attribute>> = Vec::new();
        let mut at = pos;
        assert(views(attrs@) =~= Seq::empty());
        while self.is_kind(at, TokenKind::Colon)
            invariant
                self.wf(),
                pos <= at,
                at <= self.tokens@.len() || at == pos,
                self@.attributes_at(pos as int, Seq::empty()) == self@.attributes_at(
                    at as int,
                    views(attrs@),
                ),
            decreases self.tokens@.len() - at,
        {
            let (attr, next) = match self.attribute(at, None) {
                Ok(a) => a,
                Err(e) => {
                    return Err(e);
                },
            };
            proof {
                lemma_views_push(attrs@, attr);
            }
            attrs.push(attr);
            at = next;
        }
        Ok((attrs, at))
    }

    /// The attributes of a relationship up to the closing brace: the
    /// attributes, the end of the brace, and the position behind it.
    fn relationship_attributes(&self, pos: usize) -> (r: Result<
        (Vec<Parsed<Attribute>>, usize, usize),
        ParseError,
    >)
        requires
            self.wf(),
            pos <= self.tokens@.len(),
        ensures
            match r {
                Ok((v, end, next)) => self@.relationship_attributes_at(pos as int, Seq::empty())
                    == Parse::Done((views(v@), end), next as int) && pos < next
                    <= self.tokens@.len(),
                Err(e) => self@.relationship_attributes_at(pos as int, Seq::empty()) == Parse::<
                    (Seq<ParsedModel<AttributeModel>>, usize),
                >::Fail(e),
            },
    {
        let mut attrs: Vec<Parsed<Attribute>> = Vec::new();
        let mut at = pos;
        assert(views(attrs@) =~= Seq::empty());
        loop
            invariant
                self.wf(),
                pos <= at <= self.tokens@.len(),
                self@.relationship_attributes_at(pos as int, Seq::empty())
                    == self@.relationship_attributes_at(at as int, views(attrs@)),
            decreases self.tokens@.len() - at,
        {
            let (docs, p) = self.docs(at);
            if self.is_kind(p, TokenKind::RightBrace) {
                return Ok((attrs, self.tokens[p].end, p + 1));
            } else if self.is_kind(p, TokenKind::Colon) {
                let doc = parse_docstrings(docs);
                let (attr, next) = match self.attribute(p, doc) {
                    Ok(a) => a,
                    Err(e) => {
                        return Err(e);
                    },
                };
                proof {
                    lemma_views_push(attrs@, attr);
                }
                attrs.push(attr);
                at = next;
            } else {
                return Err(self.fail(p));
            }
        }
    }

    fn relationship(&self, pos: usize, doc: Option<String>) -> (r: Result<
        (Parsed<Relationship>, usize),
        ParseError,
    >)
        requires
            self.wf(),
        ensures
            match r {
                Ok((v, next)) => self@.relationship_at(pos as int, opt_text(doc)) == Parse::Done(
                    v@,
                    next as int,
                ) && pos < next <= self.tokens@.len(),
                Err(e) => self@.relationship_at(pos as int, opt_text(doc)) == Parse::<
                    ParsedModel<RelationshipModel>,
                >::Fail(e),
            },
    {
        let name = match self.name(pos, IdentifierKind::Rule) {
            Ok(n) => n,
            Err(e) => {
                return Err(e);
            },
        };
        let start = self.tokens[pos].start;
        if !self.is_kind(pos + 1, TokenKind::Colon) {
            return Err(self.fail(pos + 1));
        }
        let target = match self.name(pos + 2, IdentifierKind::Entity) {
            Ok(n) => n,
            Err(e) => {
                return Err(e);
            },
        };
        if self.is_kind(pos + 3, TokenKind::Semicolon) {
            let attrs: Vec<Parsed<Attribute>> = Vec::new();
            assert(views(attrs@) =~= Seq::empty());
            Ok(
                (
                    Parsed {
                        loc: Some((start, self.tokens[pos + 3].end)),
                        file_name: None,
                        docstring: doc,
                        data: Relationship {
                            relationship_name: name,
                            entity_name: target,
                            attributes: attrs,
                        },
                    },
                    pos + 4,
                ),
            )
        } else if self.is_kind(pos + 3, TokenKind::LeftBrace) {
            let (attrs, end, next) = match self.relationship_attributes(pos + 4) {
                Ok(a) => a,
                Err(e) => {
                    return Err(e);
                },
            };
            Ok(
                (
                    Parsed {
                        loc: Some((start, end)),
                        file_name: None,
                        docstring: doc,
                        data: Relationship {
                            relationship_name: name,
                            entity_name: target,
                            attributes: attrs,
                        },
                    },
                    next,
                ),
            )
        } else {
            Err(self.fail(pos + 3))
        }
    }

    /// The members of an entity up to the closing brace.
    fn members(&self, pos: usize) -> (r: Result<
        (Vec<Parsed<Relationship>>, Vec<Parsed<Grant>>, usize, usize),
        ParseError,
    >)
        requires
            self.wf(),
            pos <= self.tokens@.len(),
        ensures
            match r {
                Ok((rels, grants, end, next)) => self@.members_at(
                    pos as int,
                    Seq::empty(),
                    Seq::empty(),
                ) == Parse::Done((views(rels@), views(grants@), end), next as int) && pos < next
                    <= self.tokens@.len(),
                Err(e) => self@.members_at(pos as int, Seq::empty(), Seq::empty()) == Parse::<
                    (Seq<ParsedModel<RelationshipModel>>, Seq<ParsedModel<Path>>, usize),
                >::Fail(e),
            },
    {
        let mut rels: Vec<Parsed<Relationship>> = Vec::new();
        let mut grants: Vec<Parsed<Grant>> = Vec::new();
        let mut at = pos;
        assert(views(rels@) =~= Seq::empty());
        assert(views(grants@) =~= Seq::empty());
        loop
            invariant
                self.wf(),
                pos <= at <= self.tokens@.len(),
                self@.members_at(pos as int, Seq::empty(), Seq::empty()) == self@.members_at(
                    at as int,
                    views(rels@),
                    views(grants@),
                ),
            decreases self.tokens@.len() - at,
        {
            let (docs, p) = self.docs(at);
            if self.is_kind(p, TokenKind::RightBrace) {
                return Ok((rels, grants, self.tokens[p].end, p + 1));
            } else if self.is_kind(p, TokenKind::Word) {
                let doc = parse_docstrings(docs);
                if self.is_kind(p + 1, TokenKind::Colon) {
                    let (rel, next) = match self.relationship(p, doc) {
                        Ok(a) => a,
                        Err(e) => {
                            return Err(e);
                        },
                    };
                    proof {
                        lemma_views_push(rels@, rel);
                    }
                    rels.push(rel);
                    at = next;
                } else {
                    let (grant, next) = match self.grant(p, doc) {
                        Ok(a) => a,
                        Err(e) => {
                            return Err(e);
                        },
                    };
                    proof {
                        lemma_views_push(grants@, grant);
                    }
                    grants.push(grant);
                    at = next;
                }
            } else {
                return Err(self.fail(p));
            }
        }
    }

    fn entity(&self, pos: usize) -> (r: Result<(Parsed<Entity>, usize), ParseError>)
        requires
            self.wf(),
            pos < self.tokens@.len(),
        ensures
            match r {
                Ok((v, next)) => self@.entity_at(pos as int) == Parse::Done(v@, next as int) && pos
                    < next <= self.tokens@.len(),
                Err(e) => self@.entity_at(pos as int) == Parse::<ParsedModel<EntityModel>>::Fail(e),
            },
    {
        let start = self.tokens[pos].start;
        let name = match self.name(pos + 1, IdentifierKind::Entity) {
            Ok(n) => n,
            Err(e) => {
                return Err(e);
            },
        };
        if !self.is_kind(pos + 2, TokenKind::LeftBrace) {
            return Err(self.fail(pos + 2));
        }
        let (rels, grants, end, next) = match self.members(pos + 3) {
            Ok(a) => a,
            Err(e) => {
                return Err(e);
            },
        };
        Ok(
            (
                Parsed {
                    loc: Some((start, end)),
                    file_name: None,
                    docstring: None,
                    data: Entity { name, relationships: rels, grants },
                },
                next,
            ),
        )
    }

    fn rule(&self, pos: usize, doc: Option<String>) -> (r: Result<(Parsed<Rule>, usize), ParseError>)
        requires
            self.wf(),
        ensures
            match r {
                Ok((v, next)) => self@.rule_at(pos as int, opt_text(doc)) == Parse::Done(
                    v@,
                    next as int,
                ) && pos < next <= self.tokens@.len(),
                Err(e) => self@.rule_at(pos as int, opt_text(doc)) == Parse::<
                    ParsedModel<RuleModel>,
                >::Fail(e),
            },
        decreases self.tokens@.len() - pos, 0nat,
    {
        if self.is_kind(pos, TokenKind::Star) {
            let token = self.tokens[pos];
            let loc = Some((token.start, token.end));
            let data = Rule {
                relationship: Parsed {
                    loc,
                    file_name: None,
                    docstring: None,
                    data: Identifier { value: "*".to_owned(), kind: IdentifierKind::Rule },
                },
                attributes: Vec::new(),
                grants: Vec::new(),
                rules: Vec::new(),
                include_fragments: Vec::new(),
            };
            proof {
                assert(data@.attributes =~= Seq::empty());
                assert(data@.grants =~= Seq::empty());
                assert(data@.rules =~= Seq::empty());
                assert(data@.include_fragments =~= Seq::empty());
            }
            return Ok((Parsed { loc, file_name: None, docstring: doc, data }, pos + 1));
        }
        let name = match self.name(pos, IdentifierKind::Rule) {
            Ok(n) => n,
            Err(e) => {
                return Err(e);
            },
        };
        let start = self.tokens[pos].start;
        let (attrs, open) = match self.attributes(pos + 1) {
            Ok(a) => a,
            Err(e) => {
                return Err(e);
            },
        };
        if !self.is_kind(open, TokenKind::LeftBrace) {
            return Err(self.fail(open));
        }
        let (body, end, next) = match self.body(open + 1, true, true) {
            Ok(a) => a,
            Err(e) => {
                return Err(e);
            },
        };
        let BodyParts { grants, includes, rules } = body;
        let data = Rule {
            relationship: name,
            attributes: attrs,
            grants,
            rules,
            include_fragments: includes,
        };
        proof {
            assert(data@.rules =~= views(data.rules@)) by {
                if data.rules@.len() > 0 {
                    crate::parser::ruulang_ast::lemma_rule_children(data, 0);
                }
            }
        }
        Ok((Parsed { loc: Some((start, end)), file_name: None, docstring: doc, data }, next))
    }

    /// The items of a body up to the closing brace: the items, the end of
    /// the brace, and the position behind it.
    fn body(&self, pos: usize, grants_allowed: bool, includes_allowed: bool) -> (r: Result<
        (BodyParts, usize, usize),
        ParseError,
    >)
        requires
            self.wf(),
            pos <= self.tokens@.len(),
        ensures
            match r {
                Ok((v, end, next)) => self@.body_at(
                    pos as int,
                    grants_allowed,
                    includes_allowed,
                    Body::empty(),
                ) == Parse::Done((v@, end), next as int) && pos < next <= self.tokens@.len(),
                Err(e) => self@.body_at(pos as int, grants_allowed, includes_allowed, Body::empty())
                    == Parse::<(Body, usize)>::Fail(e),
            },
        decreases self.tokens@.len() - pos, 1nat,
    {
        let mut parts = BodyParts { grants: Vec::new(), includes: Vec::new(), rules: Vec::new() };
        let mut at = pos;
        proof {
            assert(parts@.grants =~= Seq::empty());
            assert(parts@.includes =~= Seq::empty());
            assert(parts@.rules =~= Seq::empty());
        }
        loop
            invariant
                self.wf(),
                pos <= at <= self.tokens@.len(),
                self@.body_at(pos as int, grants_allowed, includes_allowed, Body::empty())
                    == self@.body_at(at as int, grants_allowed, includes_allowed, parts@),
            decreases self.tokens@.len() - at,
        {
            let (docs, p) = self.docs(at);
            if self.is_kind(p, TokenKind::RightBrace) {
                return Ok((parts, self.tokens[p].end, p + 1));
            }
            let doc = parse_docstrings(docs);
            if self.is_kind(p, TokenKind::Hash) {
                if !includes_allowed {
                    return Err(self.fail(p));
                }
                let name = match self.name(p + 1, IdentifierKind::Fragment) {
                    Ok(n) => n,
                    Err(e) => {
                        return Err(e);
                    },
                };
                if !self.is_kind(p + 2, TokenKind::Semicolon) {
                    return Err(self.fail(p + 2));
                }
                let (included, _) = name.into_with_docstring(doc);
                proof {
                    lemma_views_push(parts.includes@, included);
                }
                parts.includes.push(included);
                at = p + 3;
            } else if self.is_kind(p, TokenKind::Word) && (self.is_kind(p + 1, TokenKind::Dot)
                || self.is_kind(p + 1, TokenKind::Semicolon)) {
                if !grants_allowed {
                    return Err(self.fail(p));
                }
                let (grant, next) = match self.grant(p, doc) {
                    Ok(a) => a,
                    Err(e) => {
                        return Err(e);
                    },
                };
                proof {
                    lemma_views_push(parts.grants@, grant);
                }
                parts.grants.push(grant);
                at = next;
            } else if self.is_kind(p, TokenKind::Word) || self.is_kind(p, TokenKind::Star) {
                let (rule, next) = match self.rule(p, doc) {
                    Ok(a) => a,
                    Err(e) => {
                        return Err(e);
                    },
                };
                proof {
                    lemma_views_push(parts.rules@, rule);
                }
                parts.rules.push(rule);
                at = next;
            } else {
                return Err(self.fail(p));
            }
        }
    }

    fn entrypoint(&self, pos: usize) -> (r: Result<(Parsed<Entrypoint>, usize), ParseError>)
        requires
            self.wf(),
            pos < self.tokens@.len(),
        ensures
            match r {
                Ok((v, next)) => self@.entrypoint_at(pos as int) == Parse::Done(v@, next as int)
                    && pos < next <= self.tokens@.len(),
                Err(e) => self@.entrypoint_at(pos as int) == Parse::<
                    ParsedModel<EntrypointModel>,
                >::Fail(e),
            },
    {
        let start = self.tokens[pos].start;
        let name = match self.name(pos + 1, IdentifierKind::Entity) {
            Ok(n) => n,
            Err(e) => {
                return Err(e);
            },
        };
        if !self.is_kind(pos + 2, TokenKind::LeftBrace) {
            return Err(self.fail(pos + 2));
        }
        let (body, end, next) = match self.body(pos + 3, false, false) {
            Ok(a) => a,
            Err(e) => {
                return Err(e);
            },
        };
        let BodyParts { grants, includes, rules } = body;
        Ok(
            (
                Parsed {
                    loc: Some((start, end)),
                    file_name: None,
                    docstring: None,
                    data: Entrypoint { entrypoint: name, rules },
                },
                next,
            ),
        )
    }

    fn fragment(&self, pos: usize) -> (r: Result<(Parsed<Fragment>, usize), ParseError>)
        requires
            self.wf(),
            pos < self.tokens@.len(),
        ensures
            match r {
                Ok((v, next)) => self@.fragment_at(pos as int) == Parse::Done(v@, next as int)
                    && pos < next <= self.tokens@.len(),
                Err(e) => self@.fragment_at(pos as int) == Parse::<ParsedModel<FragmentModel>>::Fail(
                    e,
                ),
            },
    {
        let start = self.tokens[pos].start;
        let name = match self.name(pos + 1, IdentifierKind::Fragment) {
            Ok(n) => n,
            Err(e) => {
                return Err(e);
            },
        };
        if !self.is_word(pos + 2, "for") {
            return Err(self.fail(pos + 2));
        }
        let entity = match self.name(pos + 3, IdentifierKind::Entity) {
            Ok(n) => n,
            Err(e) => {
                return Err(e);
            },
        };
        if !self.is_kind(pos + 4, TokenKind::LeftBrace) {
            return Err(self.fail(pos + 4));
        }
        let (body, end, next) = match self.body(pos + 5, true, false) {
            Ok(a) => a,
            Err(e) => {
                return Err(e);
            },
        };
        let BodyParts { grants, includes, rules } = body;
        Ok(
            (
                Parsed {
                    loc: Some((start, end)),
                    file_name: None,
                    docstring: None,
                    data: Fragment { name, for_entity: entity, grants, rules },
                },
                next,
            ),
        )
    }

    /// The statements of the text, comments among them.
    fn statements(&self) -> (r: Result<Vec<ParserStatement>, ParseError>)
        requires
            self.wf(),
        ensures
            match r {
                Ok(v) => self@.statements_at(0, Seq::empty()) == Parse::Done(
                    views(v@),
                    self.tokens@.len() as int,
                ),
                Err(e) => self@.statements_at(0, Seq::empty()) == Parse::<Seq<StatementModel>>::Fail(
                    e,
                ),
            },
    {
        let mut read: Vec<ParserStatement> = Vec::new();
        let mut at: usize = 0;
        assert(views(read@) =~= Seq::empty());
        while at < self.tokens.len()
            invariant
                self.wf(),
                at <= self.tokens@.len(),
                self@.statements_at(0, Seq::empty()) == self@.statements_at(
                    at as int,
                    views(read@),
                ),
            decreases self.tokens@.len() - at,
        {
            if self.is_kind(at, TokenKind::Comment) {
                let statement = ParserStatement::Comment(self.raw(at));
                proof {
                    lemma_views_push(read@, statement);
                }
                read.push(statement);
                at += 1;
            } else if self.is_kind(at, TokenKind::At) {
                let (e, next) = match self.entrypoint(at) {
                    Ok(a) => a,
                    Err(e) => {
                        return Err(e);
                    },
                };
                let statement = ParserStatement::Entrypoint(e);
                proof {
                    lemma_views_push(read@, statement);
                }
                read.push(statement);
                at = next;
            } else if self.is_word(at, "entity") {
                let (e, next) = match self.entity(at) {
                    Ok(a) => a,
                    Err(e) => {
                        return Err(e);
                    },
                };
                let statement = ParserStatement::Entity(e);
                proof {
                    lemma_views_push(read@, statement);
                }
                read.push(statement);
                at = next;
            } else if self.is_word(at, "fragment") {
                let (f, next) = match self.fragment(at) {
                    Ok(a) => a,
                    Err(e) => {
                        return Err(e);
                    },
                };
                let statement = ParserStatement::Fragment(f);
                proof {
                    lemma_views_push(read@, statement);
                }
                read.push(statement);
                at = next;
            } else {
                return Err(self.fail(at));
            }
        }
        Ok(read)
    }
}

/// The comments of `texts` as statements.
fn comment_statements(comments: Vec<String>) -> (r: Vec<ParserStatement>)
    ensures
        views(r@) == Seq::new(
            comments@.len(),
            |i: int| StatementModel::Comment(texts(comments@)[i]),
        ),
{
    let mut out: Vec<ParserStatement> = Vec::new();
    let mut rest = comments;
    let ghost all = texts(rest@);
    let ghost mut k: int = 0;
    while rest.len() > 0
        invariant
            0 <= k,
            k + rest@.len() == all.len(),
            out@.len() == k,
            forall|j: int| 0 <= j < rest@.len() ==> rest@[j]@ == all[k + j],
            forall|j: int| 0 <= j < k ==> out@[j]@ == StatementModel::Comment(all[j]),
        decreases rest@.len(),
    {
        let ghost before = rest@;
        let c = rest.remove(0);
        assert forall|j: int| 0 <= j < rest@.len() implies rest@[j]@ == all[k + 1 + j] by {
            assert(rest@[j] == before[j + 1]);
        }
        out.push(ParserStatement::Comment(c));
        proof {
            k = k + 1;
        }
    }
    assert(views(out@) =~= Seq::new(all.len(), |i: int| StatementModel::Comment(all[i])));
    out
}

/// Makes each run of comments the documentation of the declaration behind
/// it.
pub fn attach_docstrings(statements: Vec<ParserStatement>) -> (r: Vec<ParserStatement>)
    ensures
        views(r@) == attached(views(statements@)),
{
    let ghost all = views(statements@);
    let mut rest = statements;
    let mut out: Vec<ParserStatement> = Vec::new();
    let mut pending: Vec<String> = Vec::new();
    let ghost mut k: int = 0;
    assert(views(out@) =~= Seq::empty());
    assert(texts(pending@) =~= Seq::empty());
    while rest.len() > 0
        invariant
            0 <= k,
            k + rest@.len() == all.len(),
            forall|j: int| 0 <= j < rest@.len() ==> rest@[j]@ == all[k + j],
            (views(out@), texts(pending@)) == attach_state(all, k as nat),
        decreases rest@.len(),
    {
        let ghost before = rest@;
        let ghost held_out = out@;
        let ghost held_pending = pending@;
        let statement = rest.remove(0);
        assert(statement@ == all[k]);
        assert forall|j: int| 0 <= j < rest@.len() implies rest@[j]@ == all[k + 1 + j] by {
            assert(rest@[j] == before[j + 1]);
        }
        match statement {
            ParserStatement::Comment(c) => {
                pending.push(c);
                assert(texts(pending@) =~= texts(held_pending).push(c@));
            },
            ParserStatement::Fragment(f) => {
                let doc = parse_docstrings(pending);
                pending = Vec::new();
                let (with_doc, _) = f.into_with_docstring(doc);
                let s = ParserStatement::Fragment(with_doc);
                proof {
                    lemma_views_push(out@, s);
                    assert(texts(pending@) =~= Seq::empty());
                }
                out.push(s);
            },
            ParserStatement::Entrypoint(e) => {
                let doc = parse_docstrings(pending);
                pending = Vec::new();
                let (with_doc, _) = e.into_with_docstring(doc);
                let s = ParserStatement::Entrypoint(with_doc);
                proof {
                    lemma_views_push(out@, s);
                    assert(texts(pending@) =~= Seq::empty());
                }
                out.push(s);
            },
            ParserStatement::Entity(e) => {
                let doc = parse_docstrings(pending);
                pending = Vec::new();
                let (with_doc, _) = e.into_with_docstring(doc);
                let s = ParserStatement::Entity(with_doc);
                proof {
                    lemma_views_push(out@, s);
                    assert(texts(pending@) =~= Seq::empty());
                }
                out.push(s);
            },
        }
        proof {
            k = k + 1;
        }
    }
    let mut tail = comment_statements(pending);
    proof {
        crate::utils::text::lemma_views_add(out@, tail@);
    }
    out.append(&mut tail);
    out
}

/// The statements of a tokenized text.
pub fn parse_tokens(bytes: &[u8], tokens: &Vec<Token>) -> (r: Result<
    Vec<ParserStatement>,
    ParseError,
>)
    requires
        tokens_in_order(tokens@, bytes@.len() as int),
        tokens@.len() + 8 <= usize::MAX,
    ensures
        match r {
            Ok(v) => statements_of(Source { bytes: bytes@, tokens: tokens@ }) == Ok::<
                Seq<StatementModel>,
                ParseError,
            >(views(v@)),
            Err(e) => statements_of(Source { bytes: bytes@, tokens: tokens@ }) == Err::<
                Seq<StatementModel>,
                ParseError,
            >(e),
        },
{
    let cursor = Cursor { bytes, tokens };
    match cursor.statements() {
        Ok(statements) => Ok(attach_docstrings(statements)),
        Err(e) => Err(e),
    }
}


} // verus!
