//! What the grammar makes of the tokens of a text that is laid out piece by
//! piece: the node that the pieces were made from, but for byte ranges and
//! documentation.

use vstd::prelude::*;
use vstd::utf8::{encode_utf8, encode_utf8_decode_utf8, encode_utf8_valid_utf8};
use crate::parser::grammar::{Body, Parse, Source};
use crate::parser::lexer::TokenKind;
use crate::parser::parse_location::{IdentifierKind, IdentifierModel, ParsedModel};
use crate::parser::parser_utils::docstring_of;
use crate::parser::roundtrip::layout::{
    argument, args_pieces, attribute_pieces, attributes_pieces, entity_pieces, grant_lines_pieces,
    grant_pieces, lead_of, lemma_args, lemma_attribute, lemma_attributes, none, path_pieces,
    relationship_pieces, relationships_pieces, wf_attribute, wf_attributes, wf_entity, wf_grants,
    wf_path, wf_relationship, wf_relationships,
};
use crate::parser::roundtrip::layout::{
    entrypoint_pieces, fragment_pieces, include_lines_pieces, rule_lead, rule_pieces, rules_pieces,
    wf_entrypoint, wf_fragment, wf_names, wf_rule, wf_rules,
};
use crate::parser::ruulang_ast::{EntrypointModel, FragmentModel, RuleModel};
use crate::parser::schema_ast::{EntityModel, RelationshipModel};
use crate::parser::serialize::level;
use crate::parser::roundtrip::pieces::{
    bytes_of, is_word, lemma_bytes_of_piece, piece_ok, pieces_ok, placed, placed_from, start_of,
    sym, word, word_char, Piece,
};
use crate::parser::ruulang_ast::AttributeModel;
use crate::utils::trie::Path;

verus! {

/// The text of pieces with its tokens.
pub open spec fn source_of(ps: Seq<Piece>) -> Source {
    Source { bytes: bytes_of(ps), tokens: placed_from(ps, 0) }
}

/// Whether the tokens of a source, from the `k`-th on, are those of the
/// pieces: of the same kinds, and the words and strings with the same texts.
pub open spec fn reads(src: Source, k: int, ps: Seq<Piece>) -> bool {
    &&& 0 <= k
    &&& k + ps.len() <= src.tokens.len()
    &&& forall|i: int|
        0 <= i < ps.len() ==> src.tokens[k + i].kind == (#[trigger] ps[i]).kind && (ps[i].kind
            == TokenKind::Word ==> src.word_text(src.tokens[k + i]) == ps[i].text) && (ps[i].kind
            == TokenKind::Str ==> src.raw_text(src.tokens[k + i]) == ps[i].text)
}

/// The tokens of the text of pieces are those of the pieces.
pub proof fn lemma_source_reads(ps: Seq<Piece>)
    requires
        pieces_ok(ps),
        bytes_of(ps).len() <= usize::MAX,
    ensures
        reads(source_of(ps), 0, ps),
        source_of(ps).tokens.len() == ps.len(),
{
    let src = source_of(ps);
    assert forall|i: int| 0 <= i < ps.len() implies src.tokens[0 + i].kind == (#[trigger] ps[i]).kind
        && (ps[i].kind == TokenKind::Word ==> src.word_text(src.tokens[0 + i]) == ps[i].text) && (
    ps[i].kind == TokenKind::Str ==> src.raw_text(src.tokens[0 + i]) == ps[i].text) by {
        let token = src.tokens[i];
        assert(token == placed(ps, i));
        lemma_bytes_of_piece(ps, i);
        let start = start_of(ps, i);
        let end = start + encode_utf8(ps[i].text).len();
        assert(end <= bytes_of(ps).len());
        assert(piece_ok(ps[i]));
        if ps[i].kind == TokenKind::Word {
            assert forall|j: int| 0 <= j < ps[i].text.len() implies src.word_text(token)[j]
                == ps[i].text[j] by {
                assert(src.bytes[start + j] == ps[i].text[j] as u8);
                assert(word_char(ps[i].text[j]));
            }
            assert(src.word_text(token) =~= ps[i].text);
        } else if ps[i].kind == TokenKind::Str {
            encode_utf8_valid_utf8(ps[i].text);
            encode_utf8_decode_utf8(ps[i].text);
            assert(src.bytes.subrange(token.start as int, token.end as int) == encode_utf8(
                ps[i].text,
            ));
        }
    }
}

/// Tokens that are those of two lists of pieces are those of each.
pub proof fn lemma_reads_split(src: Source, k: int, a: Seq<Piece>, b: Seq<Piece>)
    requires
        reads(src, k, a + b),
    ensures
        reads(src, k, a),
        reads(src, k + a.len(), b),
{
    assert forall|i: int| 0 <= i < a.len() implies src.tokens[k + i].kind == (#[trigger] a[i]).kind
        && (a[i].kind == TokenKind::Word ==> src.word_text(src.tokens[k + i]) == a[i].text) && (
    a[i].kind == TokenKind::Str ==> src.raw_text(src.tokens[k + i]) == a[i].text) by {
        assert((a + b)[i] == a[i]);
    }
    assert forall|i: int| 0 <= i < b.len() implies src.tokens[k + a.len() + i].kind == (
    #[trigger] b[i]).kind && (b[i].kind == TokenKind::Word ==> src.word_text(
        src.tokens[k + a.len() + i],
    ) == b[i].text) && (b[i].kind == TokenKind::Str ==> src.raw_text(src.tokens[k + a.len() + i])
        == b[i].text) by {
        assert((a + b)[a.len() + i] == b[i]);
    }
}

/// The token at the place of a piece.
pub proof fn lemma_reads_at(src: Source, k: int, ps: Seq<Piece>, i: int)
    requires
        reads(src, k, ps),
        0 <= i < ps.len(),
    ensures
        src.kind_at(k + i) == Some(ps[i].kind),
        ps[i].kind == TokenKind::Word ==> src.word_text(src.tokens[k + i]) == ps[i].text,
        ps[i].kind == TokenKind::Str ==> src.raw_text(src.tokens[k + i]) == ps[i].text,
{
    assert(src.tokens[k + i].kind == ps[i].kind);
}

/// No comment, no documentation.
pub proof fn lemma_no_docs(src: Source, k: int)
    requires
        src.kind_at(k) != Some(TokenKind::Comment),
    ensures
        src.docs_at(k) == (Seq::<Seq<char>>::empty(), k),
        docstring_of(Seq::<Seq<char>>::empty()).is_none(),
{
}

proof fn lemma_args_index(args: Seq<Seq<char>>, n: nat, j: int)
    requires
        n <= args.len(),
        0 <= j < n,
    ensures
        args_pieces(args, n).len() == 2 * n - 1,
        args_pieces(args, n)[2 * j] == argument(args[j]),
        j > 0 ==> args_pieces(args, n)[2 * j - 1] == sym(none(), TokenKind::Comma, " "@),
    decreases n,
{
    if n > 1 {
        if j < n - 1 {
            lemma_args_index(args, (n - 1) as nat, j);
        } else {
            lemma_args_index(args, (n - 1) as nat, 0);
        }
    }
}

proof fn lemma_read_args_rest(src: Source, k: int, args: Seq<Seq<char>>, j: int)
    requires
        args.len() > 0,
        1 <= j <= args.len(),
        reads(src, k, args_pieces(args, args.len())),
        src.kind_at(k + 2 * args.len() - 1) == Some(TokenKind::RightParen),
    ensures
        src.arguments_rest(k + 2 * j - 1, args.take(j)) == Parse::Done(
            (args, src.tokens[k + 2 * args.len() - 1].end),
            k + 2 * args.len(),
        ),
    decreases args.len() - j,
{
    let n = args.len();
    let ps = args_pieces(args, n);
    lemma_args_index(args, n, 0);
    if j == n {
        assert(args.take(j) =~= args);
    } else {
        lemma_args_index(args, n, j);
        lemma_reads_at(src, k, ps, 2 * j - 1);
        lemma_reads_at(src, k, ps, 2 * j);
        assert(args.take(j).push(args[j]) =~= args.take(j + 1));
        lemma_read_args_rest(src, k, args, j + 1);
    }
}

/// Reading an attribute back.
pub proof fn lemma_read_attribute(src: Source, k: int, attr: AttributeModel, doc: Option<Seq<char>>) -> (m:
    ParsedModel<AttributeModel>)
    requires
        reads(src, k, attribute_pieces(attr)),
        wf_attribute(attr),
        attr.arguments.len() == 0 ==> src.kind_at(k + 2) != Some(TokenKind::LeftParen),
    ensures
        src.attribute_at(k, doc) == Parse::Done(m, k + attribute_pieces(attr).len()),
        m.data.name.data == attr.name.data,
        m.data.arguments == attr.arguments,
        attribute_pieces(attr).len() >= 2,
{
    let n = attr.arguments.len();
    let head = seq![
        sym(none(), TokenKind::Colon, none()),
        word(none(), attr.name.data.value, none()),
    ];
    if n > 0 {
        let open = seq![sym(none(), TokenKind::LeftParen, none())];
        let args = args_pieces(attr.arguments, n);
        let close = seq![sym(none(), TokenKind::RightParen, none())];
        let tail = open + args + close;
        lemma_args(attr.arguments, n);
        lemma_reads_split(src, k, head, tail);
        lemma_reads_split(src, k + 2, open + args, close);
        lemma_reads_split(src, k + 2, open, args);
        lemma_reads_at(src, k, head, 0);
        lemma_reads_at(src, k, head, 1);
        lemma_reads_at(src, k + 2, open, 0);
        lemma_reads_at(src, k + 3 + args.len(), close, 0);
        lemma_args_index(attr.arguments, n, 0);
        lemma_reads_at(src, k + 3, args, 0);
        assert(attr.arguments.take(1) =~= seq![attr.arguments[0]]);
        lemma_read_args_rest(src, k + 3, attr.arguments, 1);
        assert(attribute_pieces(attr).len() == 2 * n + 3);
    } else {
        assert(attribute_pieces(attr) =~= head);
        lemma_reads_at(src, k, head, 0);
        lemma_reads_at(src, k, head, 1);
    }
    match src.attribute_at(k, doc) {
        Parse::Done(m, _) => m,
        Parse::Fail(_) => arbitrary(),
    }
}

/// Attributes that are the same but for byte ranges and documentation.
pub open spec fn same_attributes(
    a: Seq<ParsedModel<AttributeModel>>,
    b: Seq<ParsedModel<AttributeModel>>,
) -> bool {
    &&& a.len() == b.len()
    &&& forall|i: int|
        0 <= i < a.len() ==> (#[trigger] a[i]).data.name.data == b[i].data.name.data
            && a[i].data.arguments == b[i].data.arguments
}

/// Where the tokens of the pieces of the `j`-th attribute begin.
proof fn lemma_reads_attribute(
    src: Source,
    k: int,
    attrs: Seq<ParsedModel<AttributeModel>>,
    n: nat,
    j: int,
)
    requires
        reads(src, k, attributes_pieces(attrs, n)),
        n <= attrs.len(),
        0 <= j < n,
    ensures
        reads(src, k + attributes_pieces(attrs, j as nat).len(), attribute_pieces(attrs[j].data)),
        attributes_pieces(attrs, (j + 1) as nat).len() == attributes_pieces(attrs, j as nat).len()
            + attribute_pieces(attrs[j].data).len(),
        attributes_pieces(attrs, (j + 1) as nat).len() <= attributes_pieces(attrs, n).len(),
    decreases n,
{
    let before = attributes_pieces(attrs, (n - 1) as nat);
    let last = attribute_pieces(attrs[n - 1].data);
    lemma_reads_split(src, k, before, last);
    if j < n - 1 {
        lemma_reads_attribute(src, k, attrs, (n - 1) as nat, j);
    }
}

/// Reading the attributes of a rule back, from the `j`-th on.
proof fn lemma_read_attributes_from(
    src: Source,
    k: int,
    attrs: Seq<ParsedModel<AttributeModel>>,
    j: int,
    read: Seq<ParsedModel<AttributeModel>>,
) -> (all: Seq<ParsedModel<AttributeModel>>)
    requires
        reads(src, k, attributes_pieces(attrs, attrs.len())),
        wf_attributes(attrs),
        0 <= j <= attrs.len(),
        src.kind_at(k + attributes_pieces(attrs, attrs.len()).len()) != Some(TokenKind::Colon),
        src.kind_at(k + attributes_pieces(attrs, attrs.len()).len()) != Some(
            TokenKind::LeftParen,
        ),
        same_attributes(read, attrs.take(j)),
    ensures
        src.attributes_at(k + attributes_pieces(attrs, j as nat).len(), read) == Parse::Done(
            all,
            k + attributes_pieces(attrs, attrs.len()).len(),
        ),
        same_attributes(all, attrs),
    decreases attrs.len() - j,
{
    let n = attrs.len();
    let at = k + attributes_pieces(attrs, j as nat).len();
    if j == n {
        assert(attrs.take(j) =~= attrs);
        read
    } else {
        lemma_reads_attribute(src, k, attrs, n, j);
        let ps = attribute_pieces(attrs[j].data);
        lemma_attribute(attrs[j].data);
        lemma_reads_at(src, at, ps, 0);
        let next = k + attributes_pieces(attrs, (j + 1) as nat).len();
        assert(attrs[j].data.arguments.len() == 0 ==> src.kind_at(at + 2) != Some(
            TokenKind::LeftParen,
        )) by {
            if attrs[j].data.arguments.len() == 0 {
                assert(ps.len() == 2);
                if j + 1 < n {
                    lemma_reads_attribute(src, k, attrs, n, j + 1);
                    lemma_attribute(attrs[j + 1].data);
                    lemma_reads_at(src, next, attribute_pieces(attrs[j + 1].data), 0);
                }
            }
        }
        let m = lemma_read_attribute(src, at, attrs[j].data, None);
        let grown = read.push(m);
        assert(same_attributes(grown, attrs.take(j + 1))) by {
            assert forall|i: int| 0 <= i < grown.len() implies (#[trigger] grown[i]).data.name.data
                == attrs.take(j + 1)[i].data.name.data && grown[i].data.arguments
                == attrs.take(j + 1)[i].data.arguments by {
                if i < j {
                    assert(grown[i] == read[i]);
                    assert(attrs.take(j)[i] == attrs[i]);
                }
            }
        }
        assert(next <= src.tokens.len());
        lemma_read_attributes_from(src, k, attrs, j + 1, grown)
    }
}

/// Reading the attributes of a relationship back, from the `j`-th on, up to
/// the closing brace.
proof fn lemma_read_relationship_attributes_from(
    src: Source,
    k: int,
    attrs: Seq<ParsedModel<AttributeModel>>,
    j: int,
    read: Seq<ParsedModel<AttributeModel>>,
) -> (all: Seq<ParsedModel<AttributeModel>>)
    requires
        reads(src, k, attributes_pieces(attrs, attrs.len())),
        wf_attributes(attrs),
        0 <= j <= attrs.len(),
        src.kind_at(k + attributes_pieces(attrs, attrs.len()).len()) == Some(
            TokenKind::RightBrace,
        ),
        same_attributes(read, attrs.take(j)),
    ensures
        src.relationship_attributes_at(k + attributes_pieces(attrs, j as nat).len(), read)
            == Parse::Done(
            (all, src.tokens[k + attributes_pieces(attrs, attrs.len()).len()].end),
            k + attributes_pieces(attrs, attrs.len()).len() + 1,
        ),
        same_attributes(all, attrs),
    decreases attrs.len() - j,
{
    let n = attrs.len();
    let at = k + attributes_pieces(attrs, j as nat).len();
    if j == n {
        assert(attrs.take(j) =~= attrs);
        lemma_no_docs(src, at);
        read
    } else {
        lemma_reads_attribute(src, k, attrs, n, j);
        let ps = attribute_pieces(attrs[j].data);
        lemma_attribute(attrs[j].data);
        lemma_reads_at(src, at, ps, 0);
        lemma_no_docs(src, at);
        let next = k + attributes_pieces(attrs, (j + 1) as nat).len();
        assert(attrs[j].data.arguments.len() == 0 ==> src.kind_at(at + 2) != Some(
            TokenKind::LeftParen,
        )) by {
            if attrs[j].data.arguments.len() == 0 {
                assert(ps.len() == 2);
                if j + 1 < n {
                    lemma_reads_attribute(src, k, attrs, n, j + 1);
                    lemma_attribute(attrs[j + 1].data);
                    lemma_reads_at(src, next, attribute_pieces(attrs[j + 1].data), 0);
                }
            }
        }
        let m = lemma_read_attribute(src, at, attrs[j].data, None);
        let grown = read.push(m);
        assert(same_attributes(grown, attrs.take(j + 1))) by {
            assert forall|i: int| 0 <= i < grown.len() implies (#[trigger] grown[i]).data.name.data
                == attrs.take(j + 1)[i].data.name.data && grown[i].data.arguments
                == attrs.take(j + 1)[i].data.arguments by {
                if i < j {
                    assert(grown[i] == read[i]);
                    assert(attrs.take(j)[i] == attrs[i]);
                }
            }
        }
        assert(next <= src.tokens.len());
        lemma_read_relationship_attributes_from(src, k, attrs, j + 1, grown)
    }
}

proof fn lemma_path_index(path: Path, lead: Seq<char>, n: nat, j: int)
    requires
        1 <= n <= path.len(),
        0 <= j < n,
    ensures
        path_pieces(path, lead, n).len() == 2 * n - 1,
        j == 0 ==> path_pieces(path, lead, n)[0] == word(lead, path[0], none()),
        j > 0 ==> path_pieces(path, lead, n)[2 * j] == word(none(), path[j], none())
            && path_pieces(path, lead, n)[2 * j - 1] == sym(none(), TokenKind::Dot, none()),
    decreases n,
{
    if n > 1 {
        if j < n - 1 {
            lemma_path_index(path, lead, (n - 1) as nat, j);
        } else {
            lemma_path_index(path, lead, (n - 1) as nat, 0);
        }
    }
}

proof fn lemma_read_path_rest(src: Source, k: int, path: Path, lead: Seq<char>, j: int, end: usize)
    requires
        path.len() > 0,
        1 <= j <= path.len(),
        reads(src, k, path_pieces(path, lead, path.len())),
        src.kind_at(k + 2 * path.len() - 1) != Some(TokenKind::Dot),
        end == src.tokens[k + 2 * j - 2].end,
    ensures
        src.path_at(k + 2 * j - 1, path.take(j), end) == Parse::Done(
            (path, src.tokens[k + 2 * path.len() - 2].end),
            k + 2 * path.len() - 1,
        ),
    decreases path.len() - j,
{
    let n = path.len();
    let ps = path_pieces(path, lead, n);
    lemma_path_index(path, lead, n, 0);
    if j == n {
        assert(path.take(j) =~= path);
    } else {
        lemma_path_index(path, lead, n, j);
        lemma_reads_at(src, k, ps, 2 * j - 1);
        lemma_reads_at(src, k, ps, 2 * j);
        assert(path.take(j).push(path[j]) =~= path.take(j + 1));
        lemma_read_path_rest(src, k, path, lead, j + 1, src.tokens[k + 2 * j].end);
    }
}

/// Reading a grant back.
pub proof fn lemma_read_grant(src: Source, k: int, path: Path, lead: Seq<char>, doc: Option<Seq<char>>) -> (m:
    ParsedModel<Path>)
    requires
        reads(src, k, grant_pieces(path, lead)),
        wf_path(path),
    ensures
        src.grant_at(k, doc) == Parse::Done(m, k + 2 * path.len()),
        m.data == path,
        grant_pieces(path, lead).len() == 2 * path.len(),
{
    let n = path.len();
    let ps = path_pieces(path, lead, n);
    let semi = seq![sym(none(), TokenKind::Semicolon, "\n"@)];
    lemma_path_index(path, lead, n, 0);
    lemma_reads_split(src, k, ps, semi);
    lemma_reads_at(src, k, ps, 0);
    lemma_reads_at(src, k + 2 * n - 1, semi, 0);
    assert(path.take(1) =~= seq![path[0]]);
    lemma_read_path_rest(src, k, path, lead, 1, src.tokens[k].end);
    match src.grant_at(k, doc) {
        Parse::Done(m, _) => m,
        Parse::Fail(_) => arbitrary(),
    }
}

/// Grants that are the same but for byte ranges and documentation.
pub open spec fn same_grants(a: Seq<ParsedModel<Path>>, b: Seq<ParsedModel<Path>>) -> bool {
    &&& a.len() == b.len()
    &&& forall|i: int| 0 <= i < a.len() ==> (#[trigger] a[i]).data == b[i].data
}

/// Relationships that are the same but for byte ranges and documentation.
pub open spec fn same_relationship(a: RelationshipModel, b: RelationshipModel) -> bool {
    &&& a.relationship_name.data == b.relationship_name.data
    &&& a.entity_name.data == b.entity_name.data
    &&& same_attributes(a.attributes, b.attributes)
}

pub open spec fn same_relationships(
    a: Seq<ParsedModel<RelationshipModel>>,
    b: Seq<ParsedModel<RelationshipModel>>,
) -> bool {
    &&& a.len() == b.len()
    &&& forall|i: int| 0 <= i < a.len() ==> same_relationship((#[trigger] a[i]).data, b[i].data)
}

/// Entities that are the same but for byte ranges and documentation.
pub open spec fn same_entity(a: EntityModel, b: EntityModel) -> bool {
    &&& a.name.data == b.name.data
    &&& same_relationships(a.relationships, b.relationships)
    &&& same_grants(a.grants, b.grants)
}

/// Where the tokens of the pieces of the `j`-th grant line begin.
proof fn lemma_reads_grant_line(
    src: Source,
    k: int,
    grants: Seq<ParsedModel<Path>>,
    pad: Seq<char>,
    lead: Seq<char>,
    n: nat,
    j: int,
)
    requires
        reads(src, k, grant_lines_pieces(grants, pad, lead, n)),
        n <= grants.len(),
        0 <= j < n,
    ensures
        reads(
            src,
            k + grant_lines_pieces(grants, pad, lead, j as nat).len(),
            grant_pieces(grants[j].data, lead_of(j, lead, pad)),
        ),
        grant_lines_pieces(grants, pad, lead, (j + 1) as nat).len() == grant_lines_pieces(
            grants,
            pad,
            lead,
            j as nat,
        ).len() + grant_pieces(grants[j].data, lead_of(j, lead, pad)).len(),
        grant_lines_pieces(grants, pad, lead, (j + 1) as nat).len() <= grant_lines_pieces(
            grants,
            pad,
            lead,
            n,
        ).len(),
    decreases n,
{
    let before = grant_lines_pieces(grants, pad, lead, (n - 1) as nat);
    let last = grant_pieces(grants[n - 1].data, lead_of(n - 1, lead, pad));
    lemma_reads_split(src, k, before, last);
    if j < n - 1 {
        lemma_reads_grant_line(src, k, grants, pad, lead, (n - 1) as nat, j);
    }
}

/// A grant line begins with a word that a dot or a semicolon follows.
proof fn lemma_grant_line_start(src: Source, k: int, path: Path, lead: Seq<char>)
    requires
        reads(src, k, grant_pieces(path, lead)),
        wf_path(path),
    ensures
        src.kind_at(k) == Some(TokenKind::Word),
        src.kind_at(k + 1) == Some(TokenKind::Dot) || src.kind_at(k + 1) == Some(
            TokenKind::Semicolon,
        ),
        grant_pieces(path, lead).len() == 2 * path.len(),
{
    let n = path.len();
    let ps = path_pieces(path, lead, n);
    let semi = seq![sym(none(), TokenKind::Semicolon, "\n"@)];
    lemma_path_index(path, lead, n, 0);
    lemma_reads_split(src, k, ps, semi);
    lemma_reads_at(src, k, ps, 0);
    if n == 1 {
        lemma_reads_at(src, k + 1, semi, 0);
    } else {
        lemma_path_index(path, lead, n, 1);
        lemma_reads_at(src, k, ps, 1);
    }
}

/// One more node that is the same.
proof fn lemma_same_grants_push(
    read: Seq<ParsedModel<Path>>,
    grants: Seq<ParsedModel<Path>>,
    j: int,
    m: ParsedModel<Path>,
)
    requires
        0 <= j < grants.len(),
        same_grants(read, grants.take(j)),
        m.data == grants[j].data,
    ensures
        same_grants(read.push(m), grants.take(j + 1)),
{
    let grown = read.push(m);
    assert forall|i: int| 0 <= i < grown.len() implies (#[trigger] grown[i]).data == grants.take(
        j + 1,
    )[i].data by {
        if i < j {
            assert(grown[i] == read[i]);
            assert(grants.take(j)[i] == grants[i]);
        }
    }
}

/// Reading a relationship back.
pub proof fn lemma_read_relationship(
    src: Source,
    k: int,
    rel: RelationshipModel,
    pad: Seq<char>,
    doc: Option<Seq<char>>,
) -> (m: ParsedModel<RelationshipModel>)
    requires
        reads(src, k, relationship_pieces(rel, pad)),
        wf_relationship(rel),
    ensures
        src.relationship_at(k, doc) == Parse::Done(m, k + relationship_pieces(rel, pad).len()),
        same_relationship(m.data, rel),
        relationship_pieces(rel, pad).len() >= 4,
        src.kind_at(k) == Some(TokenKind::Word),
        src.kind_at(k + 1) == Some(TokenKind::Colon),
{
    let head = seq![
        word(pad, rel.relationship_name.data.value, none()),
        sym(none(), TokenKind::Colon, " "@),
        word(none(), rel.entity_name.data.value, none()),
    ];
    if rel.attributes.len() > 0 {
        let open = seq![sym(" "@, TokenKind::LeftBrace, " "@)];
        let attrs = attributes_pieces(rel.attributes, rel.attributes.len());
        let close = seq![sym(" "@, TokenKind::RightBrace, "\n"@)];
        lemma_reads_split(src, k, head, open + attrs + close);
        lemma_reads_split(src, k + 3, open + attrs, close);
        lemma_reads_split(src, k + 3, open, attrs);
        lemma_reads_at(src, k, head, 0);
        lemma_reads_at(src, k, head, 1);
        lemma_reads_at(src, k, head, 2);
        lemma_reads_at(src, k + 3, open, 0);
        lemma_reads_at(src, k + 4 + attrs.len(), close, 0);
        assert(rel.attributes.take(0) =~= Seq::<ParsedModel<AttributeModel>>::empty());
        let all = lemma_read_relationship_attributes_from(
            src,
            k + 4,
            rel.attributes,
            0,
            Seq::empty(),
        );
        assert(relationship_pieces(rel, pad).len() == 5 + attrs.len());
    } else {
        let semi = seq![sym(none(), TokenKind::Semicolon, "\n"@)];
        lemma_reads_split(src, k, head, semi);
        lemma_reads_at(src, k, head, 0);
        lemma_reads_at(src, k, head, 1);
        lemma_reads_at(src, k, head, 2);
        lemma_reads_at(src, k + 3, semi, 0);
    }
    match src.relationship_at(k, doc) {
        Parse::Done(m, _) => m,
        Parse::Fail(_) => arbitrary(),
    }
}

/// Where the tokens of the pieces of the `j`-th relationship begin.
proof fn lemma_reads_relationship(
    src: Source,
    k: int,
    rels: Seq<ParsedModel<RelationshipModel>>,
    pad: Seq<char>,
    n: nat,
    j: int,
)
    requires
        reads(src, k, relationships_pieces(rels, pad, n)),
        n <= rels.len(),
        0 <= j < n,
    ensures
        reads(
            src,
            k + relationships_pieces(rels, pad, j as nat).len(),
            relationship_pieces(rels[j].data, pad),
        ),
        relationships_pieces(rels, pad, (j + 1) as nat).len() == relationships_pieces(
            rels,
            pad,
            j as nat,
        ).len() + relationship_pieces(rels[j].data, pad).len(),
        relationships_pieces(rels, pad, (j + 1) as nat).len() <= relationships_pieces(
            rels,
            pad,
            n,
        ).len(),
    decreases n,
{
    let before = relationships_pieces(rels, pad, (n - 1) as nat);
    let last = relationship_pieces(rels[n - 1].data, pad);
    lemma_reads_split(src, k, before, last);
    if j < n - 1 {
        lemma_reads_relationship(src, k, rels, pad, (n - 1) as nat, j);
    }
}

/// Reading the relationships of an entity back, from the `j`-th on.
proof fn lemma_read_relationships_from(
    src: Source,
    k: int,
    rels: Seq<ParsedModel<RelationshipModel>>,
    pad: Seq<char>,
    j: int,
    read: Seq<ParsedModel<RelationshipModel>>,
    grants: Seq<ParsedModel<Path>>,
) -> (all: Seq<ParsedModel<RelationshipModel>>)
    requires
        reads(src, k, relationships_pieces(rels, pad, rels.len())),
        wf_relationships(rels),
        0 <= j <= rels.len(),
        same_relationships(read, rels.take(j)),
    ensures
        src.members_at(k + relationships_pieces(rels, pad, j as nat).len(), read, grants)
            == src.members_at(
            k + relationships_pieces(rels, pad, rels.len()).len(),
            all,
            grants,
        ),
        same_relationships(all, rels),
    decreases rels.len() - j,
{
    let n = rels.len();
    let at = k + relationships_pieces(rels, pad, j as nat).len();
    if j == n {
        assert(rels.take(j) =~= rels);
        read
    } else {
        lemma_reads_relationship(src, k, rels, pad, n, j);
        let m = lemma_read_relationship(src, at, rels[j].data, pad, None);
        lemma_no_docs(src, at);
        let grown = read.push(m);
        assert(same_relationships(grown, rels.take(j + 1))) by {
            assert forall|i: int| 0 <= i < grown.len() implies same_relationship(
                (#[trigger] grown[i]).data,
                rels.take(j + 1)[i].data,
            ) by {
                if i < j {
                    assert(grown[i] == read[i]);
                    assert(rels.take(j)[i] == rels[i]);
                }
            }
        }
        lemma_read_relationships_from(src, k, rels, pad, j + 1, grown, grants)
    }
}

/// Reading the grants of an entity back, from the `j`-th on.
proof fn lemma_read_member_grants_from(
    src: Source,
    k: int,
    grants: Seq<ParsedModel<Path>>,
    pad: Seq<char>,
    lead: Seq<char>,
    j: int,
    rels: Seq<ParsedModel<RelationshipModel>>,
    read: Seq<ParsedModel<Path>>,
) -> (all: Seq<ParsedModel<Path>>)
    requires
        reads(src, k, grant_lines_pieces(grants, pad, lead, grants.len())),
        wf_grants(grants),
        0 <= j <= grants.len(),
        same_grants(read, grants.take(j)),
    ensures
        src.members_at(k + grant_lines_pieces(grants, pad, lead, j as nat).len(), rels, read)
            == src.members_at(
            k + grant_lines_pieces(grants, pad, lead, grants.len()).len(),
            rels,
            all,
        ),
        same_grants(all, grants),
    decreases grants.len() - j,
{
    let n = grants.len();
    let at = k + grant_lines_pieces(grants, pad, lead, j as nat).len();
    if j == n {
        assert(grants.take(j) =~= grants);
        read
    } else {
        lemma_reads_grant_line(src, k, grants, pad, lead, n, j);
        lemma_grant_line_start(src, at, grants[j].data, lead_of(j, lead, pad));
        let m = lemma_read_grant(src, at, grants[j].data, lead_of(j, lead, pad), None);
        lemma_no_docs(src, at);
        lemma_same_grants_push(read, grants, j, m);
        lemma_read_member_grants_from(src, k, grants, pad, lead, j + 1, rels, read.push(m))
    }
}

/// Reading an entity back.
pub proof fn lemma_read_entity(src: Source, k: int, entity: EntityModel, pad: Seq<char>, trail: Seq<char>) -> (m:
    ParsedModel<EntityModel>)
    requires
        reads(src, k, entity_pieces(entity, pad, trail)),
        wf_entity(entity),
    ensures
        src.entity_at(k) == Parse::Done(m, k + entity_pieces(entity, pad, trail).len()),
        same_entity(m.data, entity),
        src.is_word(k, "entity"@),
        entity_pieces(entity, pad, trail).len() >= 4,
{
    let inner = pad + level();
    let a0 = seq![
        word(pad, "entity"@, " "@),
        word(none(), entity.name.data.value, none()),
        sym(" "@, TokenKind::LeftBrace, "\n"@),
    ];
    let a1 = relationships_pieces(entity.relationships, inner, entity.relationships.len());
    let a2 = grant_lines_pieces(entity.grants, inner, none(), entity.grants.len());
    let a3 = seq![sym(pad, TokenKind::RightBrace, "\n"@ + trail)];
    lemma_reads_split(src, k, a0 + a1 + a2, a3);
    lemma_reads_split(src, k, a0 + a1, a2);
    lemma_reads_split(src, k, a0, a1);
    lemma_reads_at(src, k, a0, 0);
    lemma_reads_at(src, k, a0, 1);
    lemma_reads_at(src, k, a0, 2);
    lemma_reads_at(src, k + 3 + a1.len() + a2.len(), a3, 0);
    assert(entity.relationships.take(0) =~= Seq::<ParsedModel<RelationshipModel>>::empty());
    assert(entity.grants.take(0) =~= Seq::<ParsedModel<Path>>::empty());
    let rels = lemma_read_relationships_from(
        src,
        k + 3,
        entity.relationships,
        inner,
        0,
        Seq::empty(),
        Seq::empty(),
    );
    let grants = lemma_read_member_grants_from(
        src,
        k + 3 + a1.len(),
        entity.grants,
        inner,
        none(),
        0,
        rels,
        Seq::empty(),
    );
    lemma_no_docs(src, k + 3 + a1.len() + a2.len());
    match src.entity_at(k) {
        Parse::Done(m, _) => m,
        Parse::Fail(_) => arbitrary(),
    }
}

/// Names that are the same.
pub open spec fn same_names(
    a: Seq<ParsedModel<IdentifierModel>>,
    b: Seq<ParsedModel<IdentifierModel>>,
) -> bool {
    &&& a.len() == b.len()
    &&& forall|i: int| 0 <= i < a.len() ==> (#[trigger] a[i]).data == b[i].data
}

/// Rules that are the same but for byte ranges and documentation.
pub open spec fn same_rule(a: RuleModel, b: RuleModel) -> bool
    decreases a,
{
    &&& a.relationship.data == b.relationship.data
    &&& same_attributes(a.attributes, b.attributes)
    &&& same_grants(a.grants, b.grants)
    &&& same_names(a.include_fragments, b.include_fragments)
    &&& a.rules.len() == b.rules.len()
    &&& forall|i: int|
        0 <= i < a.rules.len() ==> same_rule((#[trigger] a.rules[i]).data, b.rules[i].data)
}

pub open spec fn same_rules(a: Seq<ParsedModel<RuleModel>>, b: Seq<ParsedModel<RuleModel>>) -> bool {
    &&& a.len() == b.len()
    &&& forall|i: int| 0 <= i < a.len() ==> same_rule((#[trigger] a[i]).data, b[i].data)
}

/// Entrypoints that are the same but for byte ranges and documentation.
pub open spec fn same_entrypoint(a: EntrypointModel, b: EntrypointModel) -> bool {
    a.entrypoint.data == b.entrypoint.data && same_rules(a.rules, b.rules)
}

/// Fragments that are the same but for byte ranges and documentation.
pub open spec fn same_fragment(a: FragmentModel, b: FragmentModel) -> bool {
    &&& a.name.data == b.name.data
    &&& a.for_entity.data == b.for_entity.data
    &&& same_grants(a.grants, b.grants)
    &&& same_rules(a.rules, b.rules)
}

/// Reading the grants of a body back, from the `j`-th on.
proof fn lemma_read_body_grants_from(
    src: Source,
    k: int,
    grants: Seq<ParsedModel<Path>>,
    pad: Seq<char>,
    lead: Seq<char>,
    j: int,
    grants_allowed: bool,
    includes_allowed: bool,
    body: Body,
    read: Seq<ParsedModel<Path>>,
) -> (all: Seq<ParsedModel<Path>>)
    requires
        reads(src, k, grant_lines_pieces(grants, pad, lead, grants.len())),
        wf_grants(grants),
        0 <= j <= grants.len(),
        same_grants(read, grants.take(j)),
        grants_allowed || grants.len() == 0,
    ensures
        src.body_at(
            k + grant_lines_pieces(grants, pad, lead, j as nat).len(),
            grants_allowed,
            includes_allowed,
            Body { grants: read, ..body },
        ) == src.body_at(
            k + grant_lines_pieces(grants, pad, lead, grants.len()).len(),
            grants_allowed,
            includes_allowed,
            Body { grants: all, ..body },
        ),
        same_grants(all, grants),
    decreases grants.len() - j,
{
    let n = grants.len();
    let at = k + grant_lines_pieces(grants, pad, lead, j as nat).len();
    if j == n {
        assert(grants.take(j) =~= grants);
        read
    } else {
        lemma_reads_grant_line(src, k, grants, pad, lead, n, j);
        lemma_grant_line_start(src, at, grants[j].data, lead_of(j, lead, pad));
        let m = lemma_read_grant(src, at, grants[j].data, lead_of(j, lead, pad), None);
        lemma_no_docs(src, at);
        lemma_same_grants_push(read, grants, j, m);
        lemma_read_body_grants_from(
            src,
            k,
            grants,
            pad,
            lead,
            j + 1,
            grants_allowed,
            includes_allowed,
            body,
            read.push(m),
        )
    }
}

proof fn lemma_include_index(
    includes: Seq<ParsedModel<IdentifierModel>>,
    pad: Seq<char>,
    lead: Seq<char>,
    n: nat,
    j: int,
)
    requires
        n <= includes.len(),
        0 <= j < n,
    ensures
        include_lines_pieces(includes, pad, lead, n).len() == 3 * n,
        include_lines_pieces(includes, pad, lead, n)[3 * j].kind == TokenKind::Hash,
        include_lines_pieces(includes, pad, lead, n)[3 * j + 1] == word(
            none(),
            includes[j].data.value,
            none(),
        ),
        include_lines_pieces(includes, pad, lead, n)[3 * j + 2].kind == TokenKind::Semicolon,
    decreases n,
{
    let before = include_lines_pieces(includes, pad, lead, (n - 1) as nat);
    let last = seq![
        sym(lead_of(n - 1, lead, pad), TokenKind::Hash, none()),
        word(none(), includes[n - 1].data.value, none()),
        sym(none(), TokenKind::Semicolon, "\n"@),
    ];
    assert(include_lines_pieces(includes, pad, lead, n) == before + last);
    if n > 1 {
        if j < n - 1 {
            lemma_include_index(includes, pad, lead, (n - 1) as nat, j);
        } else {
            lemma_include_index(includes, pad, lead, (n - 1) as nat, 0);
        }
    } else {
        assert(before.len() == 0);
    }
    assert(before.len() == 3 * (n - 1));
    if j == n - 1 {
        assert((before + last)[3 * j] == last[0]);
        assert((before + last)[3 * j + 1] == last[1]);
        assert((before + last)[3 * j + 2] == last[2]);
    } else {
        assert((before + last)[3 * j] == before[3 * j]);
        assert((before + last)[3 * j + 1] == before[3 * j + 1]);
        assert((before + last)[3 * j + 2] == before[3 * j + 2]);
    }
}

/// Reading the includes of a body back, from the `j`-th on.
proof fn lemma_read_body_includes_from(
    src: Source,
    k: int,
    includes: Seq<ParsedModel<IdentifierModel>>,
    pad: Seq<char>,
    lead: Seq<char>,
    j: int,
    grants_allowed: bool,
    includes_allowed: bool,
    body: Body,
    read: Seq<ParsedModel<IdentifierModel>>,
) -> (all: Seq<ParsedModel<IdentifierModel>>)
    requires
        reads(src, k, include_lines_pieces(includes, pad, lead, includes.len())),
        wf_names(includes),
        0 <= j <= includes.len(),
        same_names(read, includes.take(j)),
        includes_allowed || includes.len() == 0,
    ensures
        src.body_at(
            k + 3 * j,
            grants_allowed,
            includes_allowed,
            Body { includes: read, ..body },
        ) == src.body_at(
            k + 3 * includes.len(),
            grants_allowed,
            includes_allowed,
            Body { includes: all, ..body },
        ),
        same_names(all, includes),
        include_lines_pieces(includes, pad, lead, includes.len()).len() == 3 * includes.len(),
    decreases includes.len() - j,
{
    let n = includes.len();
    let ps = include_lines_pieces(includes, pad, lead, n);
    let at = k + 3 * j;
    if j == n {
        assert(includes.take(j) =~= includes);
        if n > 0 {
            lemma_include_index(includes, pad, lead, n, 0);
        }
        read
    } else {
        lemma_include_index(includes, pad, lead, n, j);
        lemma_reads_at(src, k, ps, 3 * j);
        lemma_reads_at(src, k, ps, 3 * j + 1);
        lemma_reads_at(src, k, ps, 3 * j + 2);
        lemma_no_docs(src, at);
        let name = match src.name_at(at + 1, IdentifierKind::Fragment) {
            Parse::Done(m, _) => m,
            Parse::Fail(_) => arbitrary(),
        };
        let m = ParsedModel { docstring: None, ..name };
        let grown = read.push(m);
        assert(same_names(grown, includes.take(j + 1))) by {
            assert forall|i: int| 0 <= i < grown.len() implies (#[trigger] grown[i]).data
                == includes.take(j + 1)[i].data by {
                if i < j {
                    assert(grown[i] == read[i]);
                    assert(includes.take(j)[i] == includes[i]);
                }
            }
        }
        lemma_read_body_includes_from(
            src,
            k,
            includes,
            pad,
            lead,
            j + 1,
            grants_allowed,
            includes_allowed,
            body,
            grown,
        )
    }
}

/// Where the tokens of the pieces of the `j`-th rule begin.
proof fn lemma_reads_rule(
    src: Source,
    k: int,
    rules: Seq<ParsedModel<RuleModel>>,
    pad: Seq<char>,
    lead: Seq<char>,
    n: nat,
    j: int,
)
    requires
        reads(src, k, rules_pieces(rules, pad, lead, n)),
        n <= rules.len(),
        0 <= j < n,
    ensures
        reads(
            src,
            k + rules_pieces(rules, pad, lead, j as nat).len(),
            rule_pieces(rules[j].data, pad, rule_lead(j, lead)),
        ),
        rules_pieces(rules, pad, lead, (j + 1) as nat).len() == rules_pieces(
            rules,
            pad,
            lead,
            j as nat,
        ).len() + rule_pieces(rules[j].data, pad, rule_lead(j, lead)).len(),
        rules_pieces(rules, pad, lead, (j + 1) as nat).len() <= rules_pieces(rules, pad, lead, n).len(),
    decreases n,
{
    let before = rules_pieces(rules, pad, lead, (n - 1) as nat);
    let last = rule_pieces(rules[n - 1].data, pad, rule_lead(n - 1, lead));
    lemma_reads_split(src, k, before, last);
    if j < n - 1 {
        lemma_reads_rule(src, k, rules, pad, lead, (n - 1) as nat, j);
    }
}

/// Reading a body back: its grants, its includes, its rules, and the
/// closing brace.
proof fn lemma_read_body(
    src: Source,
    k: int,
    grants: Seq<ParsedModel<Path>>,
    includes: Seq<ParsedModel<IdentifierModel>>,
    rules: Seq<ParsedModel<RuleModel>>,
    pad: Seq<char>,
    grants_allowed: bool,
    includes_allowed: bool,
) -> (body: Body)
    requires
        reads(src, k, grant_lines_pieces(grants, pad, "\n"@, grants.len())),
        reads(
            src,
            k + grant_lines_pieces(grants, pad, "\n"@, grants.len()).len(),
            include_lines_pieces(includes, pad, "\n"@, includes.len()),
        ),
        reads(
            src,
            k + grant_lines_pieces(grants, pad, "\n"@, grants.len()).len() + 3 * includes.len(),
            rules_pieces(rules, pad, "\n"@, rules.len()),
        ),
        src.kind_at(
            k + grant_lines_pieces(grants, pad, "\n"@, grants.len()).len() + 3 * includes.len()
                + rules_pieces(rules, pad, "\n"@, rules.len()).len(),
        ) == Some(TokenKind::RightBrace),
        wf_grants(grants),
        wf_names(includes),
        wf_rules(rules),
        grants_allowed || grants.len() == 0,
        includes_allowed || includes.len() == 0,
    ensures
        src.body_at(k, grants_allowed, includes_allowed, Body::empty()) == Parse::Done(
            (
                body,
                src.tokens[k + grant_lines_pieces(grants, pad, "\n"@, grants.len()).len() + 3
                    * includes.len() + rules_pieces(rules, pad, "\n"@, rules.len()).len()].end,
            ),
            k + grant_lines_pieces(grants, pad, "\n"@, grants.len()).len() + 3 * includes.len()
                + rules_pieces(rules, pad, "\n"@, rules.len()).len() + 1,
        ),
        same_grants(body.grants, grants),
        same_names(body.includes, includes),
        same_rules(body.rules, rules),
    decreases rules, rules.len() + 1,
{
    let g_len = grant_lines_pieces(grants, pad, "\n"@, grants.len()).len();
    let r_len = rules_pieces(rules, pad, "\n"@, rules.len()).len();
    assert(grants.take(0) =~= Seq::<ParsedModel<Path>>::empty());
    assert(includes.take(0) =~= Seq::<ParsedModel<IdentifierModel>>::empty());
    assert(rules.take(0) =~= Seq::<ParsedModel<RuleModel>>::empty());
    let g = lemma_read_body_grants_from(
        src,
        k,
        grants,
        pad,
        "\n"@,
        0,
        grants_allowed,
        includes_allowed,
        Body::empty(),
        Seq::empty(),
    );
    let b1 = Body { grants: g, ..Body::empty() };
    let i = lemma_read_body_includes_from(
        src,
        k + g_len,
        includes,
        pad,
        "\n"@,
        0,
        grants_allowed,
        includes_allowed,
        b1,
        Seq::empty(),
    );
    let b2 = Body { includes: i, ..b1 };
    let r = lemma_read_rules_from(
        src,
        k + g_len + 3 * includes.len(),
        rules,
        pad,
        "\n"@,
        0,
        grants_allowed,
        includes_allowed,
        b2,
        Seq::empty(),
    );
    let b3 = Body { rules: r, ..b2 };
    let close = k + g_len + 3 * includes.len() + r_len;
    lemma_no_docs(src, close);
    assert(Body { grants: Seq::empty(), ..Body::empty() } == Body::empty());
    assert(Body { includes: Seq::empty(), ..b1 } == b1);
    assert(Body { rules: Seq::empty(), ..b2 } == b2);
    b3
}

/// The tokens of the parts of a rule that is no wildcard.
proof fn lemma_rule_parts(src: Source, k: int, rule: RuleModel, pad: Seq<char>, lead: Seq<char>)
    requires
        reads(src, k, rule_pieces(rule, pad, lead)),
        wf_rule(rule),
        rule.relationship.data.value != "*"@,
    ensures
        ({
            let inner = pad + level();
            let a1 = attributes_pieces(rule.attributes, rule.attributes.len());
            let a3 = grant_lines_pieces(rule.grants, inner, "\n"@, rule.grants.len());
            let a4 = include_lines_pieces(
                rule.include_fragments,
                inner,
                "\n"@,
                rule.include_fragments.len(),
            );
            let a5 = rules_pieces(rule.rules, inner, "\n"@, rule.rules.len());
            let open = k + 1 + a1.len();
            &&& src.kind_at(k) == Some(TokenKind::Word)
            &&& src.word_text(src.tokens[k]) == rule.relationship.data.value
            &&& reads(src, k + 1, a1)
            &&& src.kind_at(open) == Some(TokenKind::LeftBrace)
            &&& reads(src, open + 1, a3)
            &&& reads(src, open + 1 + a3.len(), a4)
            &&& a4.len() == 3 * rule.include_fragments.len()
            &&& reads(src, open + 1 + a3.len() + a4.len(), a5)
            &&& src.kind_at(open + 1 + a3.len() + a4.len() + a5.len()) == Some(
                TokenKind::RightBrace,
            )
            &&& rule_pieces(rule, pad, lead).len() == a1.len() + a3.len() + a4.len() + a5.len()
                + 3
        }),
{
    let inner = pad + level();
    let a0 = seq![word(lead + pad, rule.relationship.data.value, none())];
    let a1 = attributes_pieces(rule.attributes, rule.attributes.len());
    let a2 = seq![sym(" "@, TokenKind::LeftBrace, none())];
    let a3 = grant_lines_pieces(rule.grants, inner, "\n"@, rule.grants.len());
    let a4 = include_lines_pieces(
        rule.include_fragments,
        inner,
        "\n"@,
        rule.include_fragments.len(),
    );
    let a5 = rules_pieces(rule.rules, inner, "\n"@, rule.rules.len());
    let a6 = seq![sym(pad, TokenKind::RightBrace, "\n"@)];
    lemma_reads_split(src, k, a0 + a1 + a2 + a3 + a4 + a5, a6);
    lemma_reads_split(src, k, a0 + a1 + a2 + a3 + a4, a5);
    lemma_reads_split(src, k, a0 + a1 + a2 + a3, a4);
    lemma_reads_split(src, k, a0 + a1 + a2, a3);
    lemma_reads_split(src, k, a0 + a1, a2);
    lemma_reads_split(src, k, a0, a1);
    let open = k + 1 + a1.len();
    lemma_reads_at(src, k, a0, 0);
    lemma_reads_at(src, open, a2, 0);
    lemma_reads_at(src, open + 1 + a3.len() + a4.len() + a5.len(), a6, 0);
    if rule.include_fragments.len() > 0 {
        lemma_include_index(
            rule.include_fragments,
            inner,
            "\n"@,
            rule.include_fragments.len(),
            0,
        );
    }
}

/// Reading a rule back.
pub proof fn lemma_read_rule(
    src: Source,
    k: int,
    rule: RuleModel,
    pad: Seq<char>,
    lead: Seq<char>,
    doc: Option<Seq<char>>,
) -> (m: ParsedModel<RuleModel>)
    requires
        reads(src, k, rule_pieces(rule, pad, lead)),
        wf_rule(rule),
    ensures
        src.rule_at(k, doc) == Parse::Done(m, k + rule_pieces(rule, pad, lead).len()),
        same_rule(m.data, rule),
        rule_pieces(rule, pad, lead).len() > 0,
        src.kind_at(k) == Some(TokenKind::Word) || src.kind_at(k) == Some(TokenKind::Star),
        src.kind_at(k) == Some(TokenKind::Word) ==> src.kind_at(k + 1) != Some(TokenKind::Dot)
            && src.kind_at(k + 1) != Some(TokenKind::Semicolon),
    decreases rule, 0nat,
{
    if rule.relationship.data.value == "*"@ {
        let ps = rule_pieces(rule, pad, lead);
        lemma_reads_at(src, k, ps, 0);
        let m = match src.rule_at(k, doc) {
            Parse::Done(m, _) => m,
            Parse::Fail(_) => arbitrary(),
        };
        assert(same_rule(m.data, rule));
        m
    } else {
        let inner = pad + level();
        let a1 = attributes_pieces(rule.attributes, rule.attributes.len());
        lemma_rule_parts(src, k, rule, pad, lead);
        let open = k + 1 + a1.len();
        if rule.attributes.len() > 0 {
            lemma_attributes(rule.attributes, rule.attributes.len());
            lemma_reads_at(src, k + 1, a1, 0);
        }
        assert(rule.attributes.take(0) =~= Seq::<ParsedModel<AttributeModel>>::empty());
        let attrs = lemma_read_attributes_from(src, k + 1, rule.attributes, 0, Seq::empty());
        let body = lemma_read_body(
            src,
            open + 1,
            rule.grants,
            rule.include_fragments,
            rule.rules,
            inner,
            true,
            true,
        );
        let m = match src.rule_at(k, doc) {
            Parse::Done(m, _) => m,
            Parse::Fail(_) => arbitrary(),
        };
        assert(m.data.rules == body.rules);
        assert(same_rule(m.data, rule)) by {
            assert forall|i: int| 0 <= i < m.data.rules.len() implies same_rule(
                (#[trigger] m.data.rules[i]).data,
                rule.rules[i].data,
            ) by {
                assert(same_rule(body.rules[i].data, rule.rules[i].data));
            }
        }
        m
    }
}

/// Reading the rules of a body back, from the `j`-th on.
proof fn lemma_read_rules_from(
    src: Source,
    k: int,
    rules: Seq<ParsedModel<RuleModel>>,
    pad: Seq<char>,
    lead: Seq<char>,
    j: int,
    grants_allowed: bool,
    includes_allowed: bool,
    body: Body,
    read: Seq<ParsedModel<RuleModel>>,
) -> (all: Seq<ParsedModel<RuleModel>>)
    requires
        reads(src, k, rules_pieces(rules, pad, lead, rules.len())),
        wf_rules(rules),
        0 <= j <= rules.len(),
        same_rules(read, rules.take(j)),
    ensures
        src.body_at(
            k + rules_pieces(rules, pad, lead, j as nat).len(),
            grants_allowed,
            includes_allowed,
            Body { rules: read, ..body },
        ) == src.body_at(
            k + rules_pieces(rules, pad, lead, rules.len()).len(),
            grants_allowed,
            includes_allowed,
            Body { rules: all, ..body },
        ),
        same_rules(all, rules),
    decreases rules, rules.len() - j,
{
    let n = rules.len();
    let at = k + rules_pieces(rules, pad, lead, j as nat).len();
    if j == n {
        assert(rules.take(j) =~= rules);
        read
    } else {
        lemma_reads_rule(src, k, rules, pad, lead, n, j);
        let m = lemma_read_rule(src, at, rules[j].data, pad, rule_lead(j, lead), None);
        lemma_no_docs(src, at);
        let grown = read.push(m);
        assert(same_rules(grown, rules.take(j + 1))) by {
            assert forall|i: int| 0 <= i < grown.len() implies same_rule(
                (#[trigger] grown[i]).data,
                rules.take(j + 1)[i].data,
            ) by {
                if i < j {
                    assert(grown[i] == read[i]);
                    assert(rules.take(j)[i] == rules[i]);
                }
            }
        }
        lemma_read_rules_from(
            src,
            k,
            rules,
            pad,
            lead,
            j + 1,
            grants_allowed,
            includes_allowed,
            body,
            grown,
        )
    }
}

/// Reading an entrypoint back.
pub proof fn lemma_read_entrypoint(
    src: Source,
    k: int,
    entrypoint: EntrypointModel,
    pad: Seq<char>,
    lead: Seq<char>,
    trail: Seq<char>,
) -> (m: ParsedModel<EntrypointModel>)
    requires
        reads(src, k, entrypoint_pieces(entrypoint, pad, lead, trail)),
        wf_entrypoint(entrypoint),
    ensures
        src.entrypoint_at(k) == Parse::Done(
            m,
            k + entrypoint_pieces(entrypoint, pad, lead, trail).len(),
        ),
        same_entrypoint(m.data, entrypoint),
        src.kind_at(k) == Some(TokenKind::At),
        entrypoint_pieces(entrypoint, pad, lead, trail).len() >= 4,
{
    let inner = pad + level();
    let a0 = seq![
        sym(lead + pad, TokenKind::At, none()),
        word(none(), entrypoint.entrypoint.data.value, none()),
        sym(" "@, TokenKind::LeftBrace, "\n"@),
    ];
    let a1 = rules_pieces(entrypoint.rules, inner, none(), entrypoint.rules.len());
    let a2 = seq![sym(none(), TokenKind::RightBrace, trail)];
    lemma_reads_split(src, k, a0 + a1, a2);
    lemma_reads_split(src, k, a0, a1);
    lemma_reads_at(src, k, a0, 0);
    lemma_reads_at(src, k, a0, 1);
    lemma_reads_at(src, k, a0, 2);
    lemma_reads_at(src, k + 3 + a1.len(), a2, 0);
    assert(entrypoint.rules.take(0) =~= Seq::<ParsedModel<RuleModel>>::empty());
    let rules = lemma_read_rules_from(
        src,
        k + 3,
        entrypoint.rules,
        inner,
        none(),
        0,
        false,
        false,
        Body::empty(),
        Seq::empty(),
    );
    lemma_no_docs(src, k + 3 + a1.len());
    assert(Body { rules: Seq::empty(), ..Body::empty() } == Body::empty());
    match src.entrypoint_at(k) {
        Parse::Done(m, _) => m,
        Parse::Fail(_) => arbitrary(),
    }
}

/// Reading a fragment back.
pub proof fn lemma_read_fragment(
    src: Source,
    k: int,
    fragment: FragmentModel,
    pad: Seq<char>,
    trail: Seq<char>,
) -> (m: ParsedModel<FragmentModel>)
    requires
        reads(src, k, fragment_pieces(fragment, pad, trail)),
        wf_fragment(fragment),
    ensures
        src.fragment_at(k) == Parse::Done(m, k + fragment_pieces(fragment, pad, trail).len()),
        same_fragment(m.data, fragment),
        src.is_word(k, "fragment"@),
        fragment_pieces(fragment, pad, trail).len() >= 6,
{
    let inner = pad + level();
    let a0 = seq![
        word(pad, "fragment"@, " "@),
        word(none(), fragment.name.data.value, " "@),
        word(none(), "for"@, " "@),
        word(none(), fragment.for_entity.data.value, none()),
        sym(" "@, TokenKind::LeftBrace, none()),
    ];
    let a1 = grant_lines_pieces(fragment.grants, inner, "\n"@, fragment.grants.len());
    let a2 = rules_pieces(fragment.rules, inner, "\n"@, fragment.rules.len());
    let a3 = seq![sym(pad, TokenKind::RightBrace, "\n"@ + trail)];
    lemma_reads_split(src, k, a0 + a1 + a2, a3);
    lemma_reads_split(src, k, a0 + a1, a2);
    lemma_reads_split(src, k, a0, a1);
    lemma_reads_at(src, k, a0, 0);
    lemma_reads_at(src, k, a0, 1);
    lemma_reads_at(src, k, a0, 2);
    lemma_reads_at(src, k, a0, 3);
    lemma_reads_at(src, k, a0, 4);
    lemma_reads_at(src, k + 5 + a1.len() + a2.len(), a3, 0);
    let none_included = Seq::<ParsedModel<IdentifierModel>>::empty();
    assert(include_lines_pieces(none_included, inner, "\n"@, 0) =~= Seq::<Piece>::empty());
    let body = lemma_read_body(
        src,
        k + 5,
        fragment.grants,
        none_included,
        fragment.rules,
        inner,
        true,
        false,
    );
    match src.fragment_at(k) {
        Parse::Done(m, _) => m,
        Parse::Fail(_) => arbitrary(),
    }
}

} // verus!
