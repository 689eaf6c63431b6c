//! What the grammar reads in a text is such that it can be written and read
//! back.

use vstd::prelude::*;
use vstd::utf8::valid_utf8;
use crate::parser::assembler::{assembled_file, entities_of, entrypoints_of, fragments_of};
use crate::parser::grammar::{attach_state, attached, with_docstring, Body, Parse, Source};
use crate::parser::lexer::{
    is_word_byte, string_end, token_at, tokens_from, tokens_of, word_end, Lexed, Token, TokenKind,
};
use crate::parser::parse_location::{IdentifierKind, ParsedModel};
use crate::parser::parser_constructs::{parsed, StatementModel};
use crate::parser::roundtrip::layout::{
    all_arguments, all_words, is_argument, wf_attribute, wf_attributes, wf_entities, wf_entity,
    wf_entrypoint, wf_entrypoints, wf_file, wf_fragment, wf_fragments, wf_grants, wf_names, wf_path,
    wf_relationship, wf_relationships, wf_rule, wf_rules,
};
use crate::parser::roundtrip::pieces::{is_word, word_char};
use crate::parser::roundtrip::quotes::{is_string, lemma_string_text};
use crate::parser::ruulang_ast::AttributeModel;
use crate::parser::schema_ast::RelationshipModel;
use crate::utils::trie::Path;

verus! {

/// Every word among the tokens is a word, and every string a string.
pub open spec fn plain(src: Source) -> bool {
    forall|i: int|
        0 <= i < src.tokens.len() ==> ((#[trigger] src.tokens[i]).kind == TokenKind::Word
            ==> is_word(src.word_text(src.tokens[i]))) && (src.tokens[i].kind == TokenKind::Str
            ==> is_string(src.raw_text(src.tokens[i])))
}

proof fn lemma_word_end(bytes: Seq<u8>, pos: int)
    requires
        0 <= pos <= bytes.len(),
    ensures
        pos <= word_end(bytes, pos) <= bytes.len(),
        forall|j: int| pos <= j < word_end(bytes, pos) ==> is_word_byte(#[trigger] bytes[j]),
    decreases bytes.len() - pos,
{
    if pos < bytes.len() && is_word_byte(bytes[pos]) {
        lemma_word_end(bytes, pos + 1);
    }
}

proof fn lemma_string_end(bytes: Seq<u8>, pos: int)
    requires
        0 <= pos,
        string_end(bytes, pos).is_some(),
    ensures
        pos < string_end(bytes, pos).unwrap() <= bytes.len(),
        bytes[string_end(bytes, pos).unwrap() - 1] == 34,
        forall|j: int| pos <= j < string_end(bytes, pos).unwrap() - 1 ==> #[trigger] bytes[j] != 34,
    decreases bytes.len() - pos,
{
    if pos < bytes.len() && bytes[pos] != 34 {
        lemma_string_end(bytes, pos + 1);
    }
}

/// The words that the lexer finds in a text are words, and the strings are
/// strings.
proof fn lemma_lexed_words(bytes: Seq<u8>, pos: int)
    requires
        0 <= pos,
        valid_utf8(bytes),
        tokens_from(bytes, pos).is_ok(),
    ensures
        forall|i: int|
            0 <= i < tokens_from(bytes, pos).unwrap().len() ==> ((#[trigger] tokens_from(
                bytes,
                pos,
            ).unwrap()[i]).kind == TokenKind::Word ==> is_word(
                (Source { bytes, tokens: Seq::empty() }).word_text(
                    tokens_from(bytes, pos).unwrap()[i],
                ),
            )) && (tokens_from(bytes, pos).unwrap()[i].kind == TokenKind::Str ==> is_string(
                (Source { bytes, tokens: Seq::empty() }).raw_text(
                    tokens_from(bytes, pos).unwrap()[i],
                ),
            )),
    decreases bytes.len() - pos,
{
    let at = crate::parser::lexer::after_space(bytes, pos);
    match token_at(bytes, at) {
        Lexed::Found(token) => {
            lemma_lexed_words(bytes, token.end as int);
            let rest = tokens_from(bytes, token.end as int).unwrap();
            let all = tokens_from(bytes, pos).unwrap();
            assert(all =~= seq![token] + rest);
            let bare = Source { bytes, tokens: Seq::empty() };
            assert forall|i: int| 0 <= i < all.len() implies ((#[trigger] all[i]).kind
                == TokenKind::Word ==> is_word(bare.word_text(all[i]))) && (all[i].kind
                == TokenKind::Str ==> is_string(bare.raw_text(all[i]))) by {
                if i == 0 {
                    if token.kind == TokenKind::Word {
                        lemma_word_end(bytes, at);
                        let text = bare.word_text(token);
                        assert forall|j: int| 0 <= j < text.len() implies word_char(
                            #[trigger] text[j],
                        ) by {
                            assert(is_word_byte(bytes[token.start + j]));
                        }
                    } else if token.kind == TokenKind::Str {
                        lemma_string_end(bytes, at + 1);
                        lemma_string_text(bytes, token.start as int, token.end as int);
                    }
                } else {
                    assert(all[i] == rest[i - 1]);
                }
            }
        },
        _ => {},
    }
}

/// The text of a word or a string does not depend on the tokens around it.
proof fn lemma_plain_source(bytes: Seq<u8>, tokens: Seq<Token>)
    requires
        valid_utf8(bytes),
        tokens_of(bytes) == Ok::<Seq<Token>, usize>(tokens),
    ensures
        plain(Source { bytes, tokens }),
{
    lemma_lexed_words(bytes, 0);
    let src = Source { bytes, tokens };
    let bare = Source { bytes, tokens: Seq::empty() };
    assert forall|i: int| 0 <= i < src.tokens.len() implies ((#[trigger] src.tokens[i]).kind
        == TokenKind::Word ==> is_word(src.word_text(src.tokens[i]))) && (src.tokens[i].kind
        == TokenKind::Str ==> is_string(src.raw_text(src.tokens[i]))) by {
        assert(src.word_text(tokens[i]) == bare.word_text(tokens[i]));
        assert(src.raw_text(tokens[i]) == bare.raw_text(tokens[i]));
    }
}

proof fn lemma_name(src: Source, pos: int, kind: IdentifierKind)
    requires
        plain(src),
    ensures
        src.name_at(pos, kind) matches Parse::Done(m, next) ==> is_word(m.data.value)
            && m.data.kind == kind && next == pos + 1 && 0 <= pos < src.tokens.len(),
{
}

proof fn lemma_path(src: Source, pos: int, path: Path, end: usize)
    requires
        plain(src),
        wf_path(path),
    ensures
        src.path_at(pos, path, end) matches Parse::Done((p, _), next) ==> wf_path(p),
    decreases src.tokens.len() - pos,
{
    if src.kind_at(pos) == Some(TokenKind::Dot) && src.kind_at(pos + 1) == Some(TokenKind::Word) {
        let seg = src.word_text(src.tokens[pos + 1]);
        let grown = path.push(seg);
        assert(all_words(grown)) by {
            assert forall|i: int| 0 <= i < grown.len() implies is_word(#[trigger] grown[i]) by {
                if i < path.len() {
                    assert(grown[i] == path[i]);
                }
            }
        }
        lemma_path(src, pos + 2, grown, src.tokens[pos + 1].end);
    }
}

proof fn lemma_grant(src: Source, pos: int, doc: Option<Seq<char>>)
    requires
        plain(src),
    ensures
        src.grant_at(pos, doc) matches Parse::Done(m, next) ==> wf_path(m.data),
{
    if src.kind_at(pos) == Some(TokenKind::Word) {
        let first = seq![src.word_text(src.tokens[pos])];
        assert(all_words(first));
        lemma_path(src, pos + 1, first, src.tokens[pos].end);
    }
}

proof fn lemma_arguments_rest(src: Source, pos: int, args: Seq<Seq<char>>)
    requires
        plain(src),
        all_arguments(args),
    ensures
        src.arguments_rest(pos, args) matches Parse::Done((all, _), next) ==> all_arguments(all),
    decreases src.tokens.len() - pos,
{
    if src.kind_at(pos) == Some(TokenKind::Comma) {
        match src.argument_at(pos + 1) {
            Parse::Done(arg, _) => {
                let grown = args.push(arg);
                assert(all_arguments(grown)) by {
                    assert forall|i: int| 0 <= i < grown.len() implies is_argument(
                        #[trigger] grown[i],
                    ) by {
                        if i < args.len() {
                            assert(grown[i] == args[i]);
                        }
                    }
                }
                lemma_arguments_rest(src, pos + 2, grown);
            },
            Parse::Fail(_) => {},
        }
    }
}

proof fn lemma_attribute(src: Source, pos: int, doc: Option<Seq<char>>)
    requires
        plain(src),
    ensures
        src.attribute_at(pos, doc) matches Parse::Done(m, next) ==> wf_attribute(m.data),
{
    lemma_name(src, pos + 1, IdentifierKind::Attribute);
    if src.kind_at(pos + 2) == Some(TokenKind::LeftParen) {
        if src.kind_at(pos + 3) != Some(TokenKind::RightParen) {
            match src.argument_at(pos + 3) {
                Parse::Done(arg, _) => {
                    assert(all_arguments(seq![arg]));
                    lemma_arguments_rest(src, pos + 4, seq![arg]);
                },
                Parse::Fail(_) => {},
            }
        }
    }
}

proof fn lemma_push_attribute(attrs: Seq<ParsedModel<AttributeModel>>, m: ParsedModel<AttributeModel>)
    requires
        wf_attributes(attrs),
        wf_attribute(m.data),
    ensures
        wf_attributes(attrs.push(m)),
{
    let grown = attrs.push(m);
    assert forall|i: int| 0 <= i < grown.len() implies wf_attribute((#[trigger] grown[i]).data) by {
        if i < attrs.len() {
            assert(grown[i] == attrs[i]);
        }
    }
}

proof fn lemma_attributes(src: Source, pos: int, attrs: Seq<ParsedModel<AttributeModel>>)
    requires
        plain(src),
        wf_attributes(attrs),
    ensures
        src.attributes_at(pos, attrs) matches Parse::Done(all, next) ==> wf_attributes(all),
    decreases src.tokens.len() - pos,
{
    if src.kind_at(pos) == Some(TokenKind::Colon) {
        lemma_attribute(src, pos, None);
        match src.attribute_at(pos, None) {
            Parse::Done(attr, next) => {
                if pos < next <= src.tokens.len() {
                    lemma_push_attribute(attrs, attr);
                    lemma_attributes(src, next, attrs.push(attr));
                }
            },
            Parse::Fail(_) => {},
        }
    }
}

proof fn lemma_relationship_attributes(
    src: Source,
    pos: int,
    attrs: Seq<ParsedModel<AttributeModel>>,
)
    requires
        plain(src),
        wf_attributes(attrs),
    ensures
        src.relationship_attributes_at(pos, attrs) matches Parse::Done((all, _), next)
            ==> wf_attributes(all),
    decreases src.tokens.len() - pos,
{
    let docs = src.docs_at(pos);
    if docs.1 >= pos && src.kind_at(docs.1) == Some(TokenKind::Colon) {
        let doc = crate::parser::parser_utils::docstring_of(docs.0);
        lemma_attribute(src, docs.1, doc);
        match src.attribute_at(docs.1, doc) {
            Parse::Done(attr, next) => {
                if docs.1 < next <= src.tokens.len() {
                    lemma_push_attribute(attrs, attr);
                    lemma_relationship_attributes(src, next, attrs.push(attr));
                }
            },
            Parse::Fail(_) => {},
        }
    }
}

proof fn lemma_relationship(src: Source, pos: int, doc: Option<Seq<char>>)
    requires
        plain(src),
    ensures
        src.relationship_at(pos, doc) matches Parse::Done(m, next) ==> wf_relationship(m.data),
{
    lemma_name(src, pos, IdentifierKind::Rule);
    lemma_name(src, pos + 2, IdentifierKind::Entity);
    assert(wf_attributes(Seq::<ParsedModel<AttributeModel>>::empty()));
    lemma_relationship_attributes(src, pos + 4, Seq::empty());
}

proof fn lemma_members(
    src: Source,
    pos: int,
    rels: Seq<ParsedModel<RelationshipModel>>,
    grants: Seq<ParsedModel<Path>>,
)
    requires
        plain(src),
        wf_relationships(rels),
        wf_grants(grants),
    ensures
        src.members_at(pos, rels, grants) matches Parse::Done((rs, gs, _), next)
            ==> wf_relationships(rs) && wf_grants(gs),
    decreases src.tokens.len() - pos,
{
    let docs = src.docs_at(pos);
    let doc = crate::parser::parser_utils::docstring_of(docs.0);
    if docs.1 >= pos && src.kind_at(docs.1) == Some(TokenKind::Word) {
        if src.kind_at(docs.1 + 1) == Some(TokenKind::Colon) {
            lemma_relationship(src, docs.1, doc);
            match src.relationship_at(docs.1, doc) {
                Parse::Done(rel, next) => {
                    if docs.1 < next <= src.tokens.len() {
                        let grown = rels.push(rel);
                        assert forall|i: int| 0 <= i < grown.len() implies wf_relationship(
                            (#[trigger] grown[i]).data,
                        ) by {
                            if i < rels.len() {
                                assert(grown[i] == rels[i]);
                            }
                        }
                        lemma_members(src, next, grown, grants);
                    }
                },
                Parse::Fail(_) => {},
            }
        } else {
            lemma_grant(src, docs.1, doc);
            match src.grant_at(docs.1, doc) {
                Parse::Done(grant, next) => {
                    if docs.1 < next <= src.tokens.len() {
                        lemma_push_grant(grants, grant);
                        lemma_members(src, next, rels, grants.push(grant));
                    }
                },
                Parse::Fail(_) => {},
            }
        }
    }
}

proof fn lemma_push_grant(grants: Seq<ParsedModel<Path>>, m: ParsedModel<Path>)
    requires
        wf_grants(grants),
        wf_path(m.data),
    ensures
        wf_grants(grants.push(m)),
{
    let grown = grants.push(m);
    assert forall|i: int| 0 <= i < grown.len() implies wf_path((#[trigger] grown[i]).data) by {
        if i < grants.len() {
            assert(grown[i] == grants[i]);
        }
    }
}

proof fn lemma_entity(src: Source, pos: int)
    requires
        plain(src),
    ensures
        src.entity_at(pos) matches Parse::Done(m, next) ==> wf_entity(m.data),
{
    lemma_name(src, pos + 1, IdentifierKind::Entity);
    assert(wf_relationships(Seq::<ParsedModel<RelationshipModel>>::empty()));
    assert(wf_grants(Seq::<ParsedModel<Path>>::empty()));
    lemma_members(src, pos + 3, Seq::empty(), Seq::empty());
}

/// Whether what a body holds can be written and read back.
pub open spec fn wf_body(body: Body) -> bool {
    wf_grants(body.grants) && wf_names(body.includes) && wf_rules(body.rules)
}

/// A word is not the wildcard.
proof fn lemma_word_is_no_star(text: Seq<char>)
    requires
        is_word(text),
    ensures
        text != "*"@,
{
    reveal_strlit("*");
    if text == "*"@ {
        assert(word_char(text[0]));
    }
}

proof fn lemma_rule(src: Source, pos: int, doc: Option<Seq<char>>)
    requires
        plain(src),
    ensures
        src.rule_at(pos, doc) matches Parse::Done(m, next) ==> wf_rule(m.data),
    decreases src.tokens.len() - pos, 0nat,
{
    if src.kind_at(pos) == Some(TokenKind::Star) {
        match src.rule_at(pos, doc) {
            Parse::Done(m, _) => {
                assert(wf_rule(m.data));
            },
            Parse::Fail(_) => {},
        }
    } else {
        lemma_name(src, pos, IdentifierKind::Rule);
        match src.name_at(pos, IdentifierKind::Rule) {
            Parse::Done(name, _) => {
                lemma_word_is_no_star(name.data.value);
                assert(wf_attributes(Seq::<ParsedModel<AttributeModel>>::empty()));
                lemma_attributes(src, pos + 1, Seq::empty());
                match src.attributes_at(pos + 1, Seq::empty()) {
                    Parse::Done(attrs, open) => {
                        if open > pos && src.kind_at(open) == Some(TokenKind::LeftBrace) {
                            assert(wf_body(Body::empty()));
                            lemma_body(src, open + 1, true, true, Body::empty());
                            match src.body_at(open + 1, true, true, Body::empty()) {
                                Parse::Done((body, _), _) => {
                                    match src.rule_at(pos, doc) {
                                        Parse::Done(m, _) => {
                                            assert(m.data.rules == body.rules);
                                            assert(wf_rule(m.data));
                                        },
                                        Parse::Fail(_) => {},
                                    }
                                },
                                Parse::Fail(_) => {},
                            }
                        }
                    },
                    Parse::Fail(_) => {},
                }
            },
            Parse::Fail(_) => {},
        }
    }
}

proof fn lemma_body(src: Source, pos: int, grants_allowed: bool, includes_allowed: bool, body: Body)
    requires
        plain(src),
        wf_body(body),
    ensures
        src.body_at(pos, grants_allowed, includes_allowed, body) matches Parse::Done((b, _), next)
            ==> wf_body(b),
    decreases src.tokens.len() - pos, 1nat,
{
    let docs = src.docs_at(pos);
    let at = docs.1;
    let doc = crate::parser::parser_utils::docstring_of(docs.0);
    if at >= pos {
        if src.kind_at(at) == Some(TokenKind::RightBrace) {
        } else if src.kind_at(at) == Some(TokenKind::Hash) {
            if includes_allowed {
                lemma_name(src, at + 1, IdentifierKind::Fragment);
                match src.name_at(at + 1, IdentifierKind::Fragment) {
                    Parse::Done(name, _) => {
                        if src.kind_at(at + 2) == Some(TokenKind::Semicolon) {
                            let m = ParsedModel { docstring: doc, ..name };
                            let grown = body.includes.push(m);
                            assert forall|i: int| 0 <= i < grown.len() implies is_word(
                                (#[trigger] grown[i]).data.value,
                            ) && grown[i].data.kind == IdentifierKind::Fragment by {
                                if i < body.includes.len() {
                                    assert(grown[i] == body.includes[i]);
                                }
                            }
                            lemma_body(
                                src,
                                at + 3,
                                grants_allowed,
                                includes_allowed,
                                Body { includes: grown, ..body },
                            );
                        }
                    },
                    Parse::Fail(_) => {},
                }
            }
        } else if src.kind_at(at) == Some(TokenKind::Word) && (src.kind_at(at + 1) == Some(
            TokenKind::Dot,
        ) || src.kind_at(at + 1) == Some(TokenKind::Semicolon)) {
            if grants_allowed {
                lemma_grant(src, at, doc);
                match src.grant_at(at, doc) {
                    Parse::Done(grant, next) => {
                        if at < next <= src.tokens.len() {
                            lemma_push_grant(body.grants, grant);
                            lemma_body(
                                src,
                                next,
                                grants_allowed,
                                includes_allowed,
                                Body { grants: body.grants.push(grant), ..body },
                            );
                        }
                    },
                    Parse::Fail(_) => {},
                }
            }
        } else if src.kind_at(at) == Some(TokenKind::Word) || src.kind_at(at) == Some(
            TokenKind::Star,
        ) {
            lemma_rule(src, at, doc);
            match src.rule_at(at, doc) {
                Parse::Done(rule, next) => {
                    if at < next <= src.tokens.len() {
                        let grown = body.rules.push(rule);
                        assert forall|i: int| 0 <= i < grown.len() implies wf_rule(
                            (#[trigger] grown[i]).data,
                        ) by {
                            if i < body.rules.len() {
                                assert(grown[i] == body.rules[i]);
                            }
                        }
                        lemma_body(
                            src,
                            next,
                            grants_allowed,
                            includes_allowed,
                            Body { rules: grown, ..body },
                        );
                    }
                },
                Parse::Fail(_) => {},
            }
        }
    }
}

proof fn lemma_entrypoint(src: Source, pos: int)
    requires
        plain(src),
    ensures
        src.entrypoint_at(pos) matches Parse::Done(m, next) ==> wf_entrypoint(m.data),
{
    lemma_name(src, pos + 1, IdentifierKind::Entity);
    assert(wf_body(Body::empty()));
    lemma_body(src, pos + 3, false, false, Body::empty());
}

proof fn lemma_fragment(src: Source, pos: int)
    requires
        plain(src),
    ensures
        src.fragment_at(pos) matches Parse::Done(m, next) ==> wf_fragment(m.data),
{
    lemma_name(src, pos + 1, IdentifierKind::Fragment);
    lemma_name(src, pos + 3, IdentifierKind::Entity);
    assert(wf_body(Body::empty()));
    lemma_body(src, pos + 5, true, false, Body::empty());
}

/// Whether what a statement declares can be written and read back.
pub open spec fn wf_statement(statement: StatementModel) -> bool {
    match statement {
        StatementModel::Comment(_) => true,
        StatementModel::Entity(e) => wf_entity(e.data),
        StatementModel::Fragment(f) => wf_fragment(f.data),
        StatementModel::Entrypoint(e) => wf_entrypoint(e.data),
    }
}

pub open spec fn wf_statements(statements: Seq<StatementModel>) -> bool {
    forall|i: int| 0 <= i < statements.len() ==> wf_statement(#[trigger] statements[i])
}

proof fn lemma_push_statement(read: Seq<StatementModel>, s: StatementModel)
    requires
        wf_statements(read),
        wf_statement(s),
    ensures
        wf_statements(read.push(s)),
{
    let grown = read.push(s);
    assert forall|i: int| 0 <= i < grown.len() implies wf_statement(#[trigger] grown[i]) by {
        if i < read.len() {
            assert(grown[i] == read[i]);
        }
    }
}

proof fn lemma_statements(src: Source, pos: int, read: Seq<StatementModel>)
    requires
        plain(src),
        wf_statements(read),
    ensures
        src.statements_at(pos, read) matches Parse::Done(all, next) ==> wf_statements(all),
    decreases src.tokens.len() - pos,
{
    if 0 <= pos < src.tokens.len() {
        if src.kind_at(pos) == Some(TokenKind::Comment) {
            let s = StatementModel::Comment(src.raw_text(src.tokens[pos]));
            lemma_push_statement(read, s);
            lemma_statements(src, pos + 1, read.push(s));
        } else if src.kind_at(pos) == Some(TokenKind::At) {
            lemma_entrypoint(src, pos);
            match src.entrypoint_at(pos) {
                Parse::Done(e, next) => {
                    if pos < next <= src.tokens.len() {
                        lemma_push_statement(read, StatementModel::Entrypoint(e));
                        lemma_statements(src, next, read.push(StatementModel::Entrypoint(e)));
                    }
                },
                Parse::Fail(_) => {},
            }
        } else if src.is_word(pos, "entity"@) {
            lemma_entity(src, pos);
            match src.entity_at(pos) {
                Parse::Done(e, next) => {
                    if pos < next <= src.tokens.len() {
                        lemma_push_statement(read, StatementModel::Entity(e));
                        lemma_statements(src, next, read.push(StatementModel::Entity(e)));
                    }
                },
                Parse::Fail(_) => {},
            }
        } else if src.is_word(pos, "fragment"@) {
            lemma_fragment(src, pos);
            match src.fragment_at(pos) {
                Parse::Done(f, next) => {
                    if pos < next <= src.tokens.len() {
                        lemma_push_statement(read, StatementModel::Fragment(f));
                        lemma_statements(src, next, read.push(StatementModel::Fragment(f)));
                    }
                },
                Parse::Fail(_) => {},
            }
        }
    }
}

proof fn lemma_attach(statements: Seq<StatementModel>, n: nat)
    requires
        wf_statements(statements),
        n <= statements.len(),
    ensures
        wf_statements(attach_state(statements, n).0),
    decreases n,
{
    if n > 0 {
        lemma_attach(statements, (n - 1) as nat);
        let before = attach_state(statements, (n - 1) as nat);
        match statements[n - 1] {
            StatementModel::Comment(_) => {},
            other => {
                assert(wf_statement(statements[n - 1]));
                lemma_push_statement(
                    before.0,
                    with_docstring(other, crate::parser::parser_utils::docstring_of(before.1)),
                );
            },
        }
    }
}

proof fn lemma_assembled(statements: Seq<StatementModel>, n: nat)
    requires
        wf_statements(statements),
        n <= statements.len(),
    ensures
        wf_entities(entities_of(statements, n)),
        wf_fragments(fragments_of(statements, n)),
        wf_entrypoints(entrypoints_of(statements, n)),
    decreases n,
{
    if n > 0 {
        lemma_assembled(statements, (n - 1) as nat);
        assert(wf_statement(statements[n - 1]));
        match statements[n - 1] {
            StatementModel::Entity(e) => {
                let before = entities_of(statements, (n - 1) as nat);
                let grown = before.push(e);
                assert forall|i: int| 0 <= i < grown.len() implies wf_entity(
                    (#[trigger] grown[i]).data,
                ) by {
                    if i < before.len() {
                        assert(grown[i] == before[i]);
                    }
                }
            },
            StatementModel::Fragment(f) => {
                let before = fragments_of(statements, (n - 1) as nat);
                let grown = before.push(f);
                assert forall|i: int| 0 <= i < grown.len() implies wf_fragment(
                    (#[trigger] grown[i]).data,
                ) by {
                    if i < before.len() {
                        assert(grown[i] == before[i]);
                    }
                }
            },
            StatementModel::Entrypoint(e) => {
                let before = entrypoints_of(statements, (n - 1) as nat);
                let grown = before.push(e);
                assert forall|i: int| 0 <= i < grown.len() implies wf_entrypoint(
                    (#[trigger] grown[i]).data,
                ) by {
                    if i < before.len() {
                        assert(grown[i] == before[i]);
                    }
                }
            },
            StatementModel::Comment(_) => {},
        }
    }
}

/// The file that a text is read as can be written and read back.
pub proof fn lemma_read_file_is_well_formed(bytes: Seq<u8>)
    requires
        valid_utf8(bytes),
        parsed(bytes).is_ok(),
    ensures
        wf_file(assembled_file(parsed(bytes).unwrap())),
{
    let tokens = tokens_of(bytes).unwrap();
    let src = Source { bytes, tokens };
    lemma_plain_source(bytes, tokens);
    assert(wf_statements(Seq::<StatementModel>::empty()));
    lemma_statements(src, 0, Seq::empty());
    match src.statements_at(0, Seq::empty()) {
        Parse::Done(statements, _) => {
            lemma_attach(statements, statements.len());
            let state = attach_state(statements, statements.len());
            let tail = Seq::new(state.1.len(), |i: int| StatementModel::Comment(state.1[i]));
            let all = attached(statements);
            assert(wf_statements(all)) by {
                assert forall|i: int| 0 <= i < all.len() implies wf_statement(#[trigger] all[i]) by {
                    if i < state.0.len() {
                        assert(all[i] == state.0[i]);
                    } else {
                        assert(all[i] == tail[i - state.0.len()]);
                    }
                }
            }
            lemma_assembled(all, all.len());
        },
        Parse::Fail(_) => {},
    }
}

} // verus!
