//! The source text of a file, piece by piece.
//!
//! For each kind of node the pieces that its text is made of are given, and
//! it is shown that the pieces make up the text and that no word among them
//! runs into the next.

use vstd::prelude::*;
use crate::parser::lexer::TokenKind;
use crate::parser::parse_location::{IdentifierKind, IdentifierModel, ParsedModel};
use crate::parser::roundtrip::pieces::{
    ends_safely, is_blank, is_word, piece_ok, piece_text, pieces_ok, render, rendered, starts_safely,
    string, sym, symbol_of, word, word_char, Piece,
};
use crate::parser::roundtrip::quotes::is_string;
use crate::parser::ruulang_ast::{
    AttributeModel, EntrypointModel, FragmentModel, RuleModel, RuuLangFileModel,
};
use crate::parser::schema_ast::{EntityModel, RelationshipModel};
use crate::parser::serialize::{
    attribute_text, attributes_text, entities_text, entity_text, entrypoint_text,
    entrypoints_text, file_text, fragment_text, fragments_text, grant_lines, grants_block,
    include_lines, includes_block, level, relationship_text, relationships_text, rule_text,
    rules_block, rules_text,
};
use crate::utils::text::join;
use crate::utils::trie::Path;

verus! {

/// The empty text.
pub open spec fn none() -> Seq<char> {
    Seq::empty()
}

/// The pieces of two lists make up the text of the first followed by the
/// text of the second.
pub proof fn lemma_render_add(a: Seq<Piece>, b: Seq<Piece>)
    ensures
        rendered(a + b) == rendered(a) + rendered(b),
{
    lemma_render_add_upto(a, b, b.len());
}

proof fn lemma_render_add_upto(a: Seq<Piece>, b: Seq<Piece>, n: nat)
    requires
        n <= b.len(),
    ensures
        render(a + b, a.len() + n) == rendered(a) + render(b, n),
    decreases n,
{
    if n == 0 {
        lemma_render_same(a, a + b, a.len());
        assert(rendered(a) + render(b, 0) =~= rendered(a));
    } else {
        lemma_render_add_upto(a, b, (n - 1) as nat);
        assert((a + b)[a.len() + n - 1] == b[n - 1]);
        assert(render(a + b, a.len() + n) =~= rendered(a) + render(b, n));
    }
}

proof fn lemma_render_same(a: Seq<Piece>, c: Seq<Piece>, n: nat)
    requires
        n <= a.len(),
        a.len() <= c.len(),
        forall|i: int| 0 <= i < a.len() ==> a[i] == c[i],
    ensures
        render(c, n) == render(a, n),
    decreases n,
{
    if n > 0 {
        lemma_render_same(a, c, (n - 1) as nat);
    }
}

/// The text of one piece.
pub proof fn lemma_render_one(p: Piece)
    ensures
        rendered(seq![p]) == piece_text(p),
{
    reveal_with_fuel(render, 2);
    assert(rendered(seq![p]) =~= piece_text(p));
}

/// Two lists of pieces in which no word runs into the next make such a
/// list, where the first does not end in a word that the second starts
/// with.
pub proof fn lemma_ok_add(a: Seq<Piece>, b: Seq<Piece>)
    requires
        pieces_ok(a),
        pieces_ok(b),
        a.len() == 0 || b.len() == 0 || ends_safely(a.last()) || starts_safely(b[0]),
    ensures
        pieces_ok(a + b),
{
    let c = a + b;
    assert forall|i: int| 0 <= i < c.len() implies piece_ok(#[trigger] c[i]) by {
        if i < a.len() {
            assert(c[i] == a[i]);
        } else {
            assert(c[i] == b[i - a.len()]);
        }
    }
    assert forall|i: int| 0 <= i < c.len() - 1 implies ends_safely(#[trigger] c[i]) || starts_safely(
        c[i + 1],
    ) by {
        if i + 1 < a.len() {
            assert(c[i] == a[i] && c[i + 1] == a[i + 1]);
        } else if i < a.len() {
            assert(c[i] == a.last() && c[i + 1] == b[0]);
        } else {
            assert(c[i] == b[i - a.len()] && c[i + 1] == b[i - a.len() + 1]);
        }
    }
}

/// A token of one character is a piece in its own right, whatever white
/// space stands around it.
pub proof fn lemma_sym_ok(before: Seq<char>, kind: TokenKind, after: Seq<char>)
    requires
        is_blank(before),
        is_blank(after),
        symbol_of(kind).is_some(),
    ensures
        piece_ok(sym(before, kind, after)),
        pieces_ok(seq![sym(before, kind, after)]),
        ends_safely(sym(before, kind, after)),
        starts_safely(sym(before, kind, after)),
        kind != TokenKind::Word,
{
}

/// A word is a piece in its own right.
pub proof fn lemma_word_ok(before: Seq<char>, text: Seq<char>, after: Seq<char>)
    requires
        is_blank(before),
        is_blank(after),
        is_word(text),
    ensures
        piece_ok(word(before, text, after)),
        pieces_ok(seq![word(before, text, after)]),
{
}

/// White space followed by white space is white space.
pub proof fn lemma_blank_add(a: Seq<char>, b: Seq<char>)
    requires
        is_blank(a),
        is_blank(b),
    ensures
        is_blank(a + b),
{
    assert forall|i: int| 0 <= i < (a + b).len() implies (a + b)[i] == ' ' || (a + b)[i]
        == '\n' by {
        if i < a.len() {
            assert((a + b)[i] == a[i]);
        } else {
            assert((a + b)[i] == b[i - a.len()]);
        }
    }
}

/// The white space that the serializer writes.
pub proof fn lemma_blanks()
    ensures
        is_blank(none()),
        is_blank(" "@),
        is_blank("\n"@),
        is_blank("    "@),
        " "@.len() == 1,
        "\n"@.len() == 1,
{
    reveal_strlit(" ");
    reveal_strlit("\n");
    reveal_strlit("    ");
}

/// The tokens of one character as the serializer writes them.
pub proof fn lemma_symbols()
    ensures
        ":"@ == seq![':'],
        "("@ == seq!['('],
        ")"@ == seq![')'],
        "."@ == seq!['.'],
        "#"@ == seq!['#'],
        "@"@ == seq!['@'],
        "}"@ == seq!['}'],
        ", "@ == seq![','] + " "@,
        ";\n"@ == seq![';'] + "\n"@,
        "*\n"@ == seq!['*'] + "\n"@,
        "}\n"@ == seq!['}'] + "\n"@,
        " {"@ == " "@ + seq!['{'],
        " {\n"@ == " "@ + seq!['{'] + "\n"@,
        ": "@ == seq![':'] + " "@,
        " { "@ == " "@ + seq!['{'] + " "@,
        " }\n"@ == " "@ + seq!['}'] + "\n"@,
{
    reveal_strlit(":");
    reveal_strlit("(");
    reveal_strlit(")");
    reveal_strlit(".");
    reveal_strlit("#");
    reveal_strlit("@");
    reveal_strlit("}");
    reveal_strlit(", ");
    reveal_strlit(";\n");
    reveal_strlit("*\n");
    reveal_strlit("}\n");
    reveal_strlit(" {");
    reveal_strlit(" {\n");
    reveal_strlit(": ");
    reveal_strlit(" { ");
    reveal_strlit(" }\n");
    reveal_strlit(" ");
    reveal_strlit("\n");
    assert(":"@ =~= seq![':']);
    assert("("@ =~= seq!['(']);
    assert(")"@ =~= seq![')']);
    assert("."@ =~= seq!['.']);
    assert("#"@ =~= seq!['#']);
    assert("@"@ =~= seq!['@']);
    assert("}"@ =~= seq!['}']);
    assert(", "@ =~= seq![','] + " "@);
    assert(";\n"@ =~= seq![';'] + "\n"@);
    assert("*\n"@ =~= seq!['*'] + "\n"@);
    assert("}\n"@ =~= seq!['}'] + "\n"@);
    assert(" {"@ =~= " "@ + seq!['{']);
    assert(" {\n"@ =~= " "@ + seq!['{'] + "\n"@);
    assert(": "@ =~= seq![':'] + " "@);
    assert(" { "@ =~= " "@ + seq!['{'] + " "@);
    assert(" }\n"@ =~= " "@ + seq!['}'] + "\n"@);
}

/// The pieces of the first `n` of a list of arguments, with a comma and a
/// space between neighbours.
pub open spec fn args_pieces(args: Seq<Seq<char>>, n: nat) -> Seq<Piece>
    decreases n,
{
    if n == 0 || n > args.len() {
        Seq::empty()
    } else if n == 1 {
        seq![argument(args[0])]
    } else {
        args_pieces(args, (n - 1) as nat) + seq![
            sym(none(), TokenKind::Comma, " "@),
            argument(args[n - 1]),
        ]
    }
}

/// The piece of an argument: a string where it begins with a double quote,
/// else a word.
pub open spec fn argument(text: Seq<char>) -> Piece {
    if text.len() > 0 && text[0] == '"' {
        string(none(), text, none())
    } else {
        word(none(), text, none())
    }
}

/// Whether a text is an argument: a word or a string.
pub open spec fn is_argument(text: Seq<char>) -> bool {
    is_word(text) || is_string(text)
}

/// Whether every text of a list is an argument.
pub open spec fn all_arguments(texts: Seq<Seq<char>>) -> bool {
    forall|i: int| 0 <= i < texts.len() ==> is_argument(#[trigger] texts[i])
}

/// Whether every text of a list is a word.
pub open spec fn all_words(texts: Seq<Seq<char>>) -> bool {
    forall|i: int| 0 <= i < texts.len() ==> is_word(#[trigger] texts[i])
}

/// An argument is a piece in its own right.
pub proof fn lemma_argument_ok(text: Seq<char>)
    requires
        is_argument(text),
    ensures
        piece_ok(argument(text)),
        pieces_ok(seq![argument(text)]),
        piece_text(argument(text)) == text,
        argument(text).kind == TokenKind::Word || argument(text).kind == TokenKind::Str,
        argument(text).kind == TokenKind::Word ==> is_word(text),
        argument(text).kind == TokenKind::Str ==> is_string(text),
        argument(text).text == text,
{
    lemma_blanks();
    if is_word(text) {
        assert(word_char(text[0]));
    }
    assert(piece_text(argument(text)) =~= text);
}

pub proof fn lemma_args(args: Seq<Seq<char>>, n: nat)
    requires
        all_arguments(args),
        n <= args.len(),
    ensures
        pieces_ok(args_pieces(args, n)),
        rendered(args_pieces(args, n)) == join(args.take(n as int), ", "@),
        args_pieces(args, n).len() == (if n == 0 {
            0int
        } else {
            2 * n - 1
        }),
        n > 0 ==> args_pieces(args, n)[0] == argument(args[0]),
    decreases n,
{
    lemma_blanks();
    lemma_symbols();
    if n == 0 {
        assert(args.take(0) =~= Seq::<Seq<char>>::empty());
    } else if n == 1 {
        let p = argument(args[0]);
        lemma_argument_ok(args[0]);
        lemma_render_one(p);
        assert(args.take(1) =~= seq![args[0]]);
        assert(piece_text(p) =~= args[0]);
    } else {
        lemma_args(args, (n - 1) as nat);
        let before = args_pieces(args, (n - 1) as nat);
        let comma = sym(none(), TokenKind::Comma, " "@);
        let last = argument(args[n - 1]);
        let tail = seq![comma, last];
        lemma_sym_ok(none(), TokenKind::Comma, " "@);
        lemma_argument_ok(args[n - 1]);
        assert(pieces_ok(tail));
        lemma_ok_add(before, tail);
        lemma_render_add(before, tail);
        assert(rendered(tail) =~= ", "@ + args[n - 1]) by {
            reveal_with_fuel(render, 3);
        }
        assert(args.take(n as int).drop_last() =~= args.take(n - 1));
        assert(args.take(n as int).last() == args[n - 1]);
        assert(rendered(before + tail) =~= join(args.take(n as int), ", "@));
        assert((before + tail)[0] == before[0]);
    }
}

/// The pieces of an attribute.
pub open spec fn attribute_pieces(attr: AttributeModel) -> Seq<Piece> {
    seq![sym(none(), TokenKind::Colon, none()), word(none(), attr.name.data.value, none())] + (
    if attr.arguments.len() > 0 {
        seq![sym(none(), TokenKind::LeftParen, none())] + args_pieces(
            attr.arguments,
            attr.arguments.len(),
        ) + seq![sym(none(), TokenKind::RightParen, none())]
    } else {
        Seq::empty()
    })
}

/// Whether an attribute can be written and read back: its name is a word,
/// and each of its arguments is a word or a string.
pub open spec fn wf_attribute(attr: AttributeModel) -> bool {
    &&& is_word(attr.name.data.value)
    &&& attr.name.data.kind == IdentifierKind::Attribute
    &&& all_arguments(attr.arguments)
}

pub proof fn lemma_attribute(attr: AttributeModel)
    requires
        wf_attribute(attr),
    ensures
        pieces_ok(attribute_pieces(attr)),
        rendered(attribute_pieces(attr)) == attribute_text(attr),
        attribute_pieces(attr).len() >= 2,
        attribute_pieces(attr)[0] == sym(none(), TokenKind::Colon, none()),
{
    lemma_blanks();
    lemma_symbols();
    let head = seq![
        sym(none(), TokenKind::Colon, none()),
        word(none(), attr.name.data.value, none()),
    ];
    lemma_sym_ok(none(), TokenKind::Colon, none());
    lemma_word_ok(none(), attr.name.data.value, none());
    assert(pieces_ok(head));
    assert(rendered(head) =~= ":"@ + attr.name.data.value) by {
        reveal_with_fuel(render, 3);
    }
    if attr.arguments.len() > 0 {
        let open = seq![sym(none(), TokenKind::LeftParen, none())];
        let args = args_pieces(attr.arguments, attr.arguments.len());
        let close = seq![sym(none(), TokenKind::RightParen, none())];
        lemma_args(attr.arguments, attr.arguments.len());
        lemma_sym_ok(none(), TokenKind::LeftParen, none());
        lemma_sym_ok(none(), TokenKind::RightParen, none());
        lemma_ok_add(open, args);
        lemma_ok_add(open + args, close);
        lemma_ok_add(head, open + args + close);
        lemma_render_add(open, args);
        lemma_render_add(open + args, close);
        lemma_render_add(head, open + args + close);
        lemma_render_one(sym(none(), TokenKind::LeftParen, none()));
        lemma_render_one(sym(none(), TokenKind::RightParen, none()));
        assert(attr.arguments.take(attr.arguments.len() as int) =~= attr.arguments);
        assert(rendered(attribute_pieces(attr)) =~= attribute_text(attr));
        assert(attribute_pieces(attr)[0] == head[0]);
    } else {
        assert(head + Seq::<Piece>::empty() =~= head);
    }
}

/// The pieces of the first `n` attributes, one behind the other.
pub open spec fn attributes_pieces(attrs: Seq<ParsedModel<AttributeModel>>, n: nat) -> Seq<Piece>
    decreases n,
{
    if n == 0 || n > attrs.len() {
        Seq::empty()
    } else {
        attributes_pieces(attrs, (n - 1) as nat) + attribute_pieces(attrs[n - 1].data)
    }
}

/// Whether every attribute of a list can be written and read back.
pub open spec fn wf_attributes(attrs: Seq<ParsedModel<AttributeModel>>) -> bool {
    forall|i: int| 0 <= i < attrs.len() ==> wf_attribute((#[trigger] attrs[i]).data)
}

pub proof fn lemma_attributes(attrs: Seq<ParsedModel<AttributeModel>>, n: nat)
    requires
        wf_attributes(attrs),
        n <= attrs.len(),
    ensures
        pieces_ok(attributes_pieces(attrs, n)),
        rendered(attributes_pieces(attrs, n)) == attributes_text(attrs, n),
        n > 0 ==> attributes_pieces(attrs, n).len() > 0 && attributes_pieces(attrs, n)[0] == sym(
            none(),
            TokenKind::Colon,
            none(),
        ),
        n == 0 ==> attributes_pieces(attrs, n).len() == 0,
    decreases n,
{
    if n > 0 {
        lemma_attributes(attrs, (n - 1) as nat);
        lemma_attribute(attrs[n - 1].data);
        let before = attributes_pieces(attrs, (n - 1) as nat);
        let last = attribute_pieces(attrs[n - 1].data);
        lemma_blanks();
        lemma_sym_ok(none(), TokenKind::Colon, none());
        lemma_ok_add(before, last);
        lemma_render_add(before, last);
        assert((before + last)[0] == (if n == 1 {
            last[0]
        } else {
            before[0]
        }));
    }
}

/// The pieces of the first `n` segments of a grant's path, with dots
/// between neighbours and `lead` before the first.
pub open spec fn path_pieces(path: Path, lead: Seq<char>, n: nat) -> Seq<Piece>
    decreases n,
{
    if n == 0 || n > path.len() {
        Seq::empty()
    } else if n == 1 {
        seq![word(lead, path[0], none())]
    } else {
        path_pieces(path, lead, (n - 1) as nat) + seq![
            sym(none(), TokenKind::Dot, none()),
            word(none(), path[n - 1], none()),
        ]
    }
}

/// Whether a grant can be written and read back: its path is not empty and
/// its segments are words.
pub open spec fn wf_path(path: Path) -> bool {
    path.len() > 0 && all_words(path)
}

pub proof fn lemma_path(path: Path, lead: Seq<char>, n: nat)
    requires
        all_words(path),
        is_blank(lead),
        1 <= n <= path.len(),
    ensures
        pieces_ok(path_pieces(path, lead, n)),
        rendered(path_pieces(path, lead, n)) == lead + join(path.take(n as int), "."@),
        path_pieces(path, lead, n).len() == 2 * n - 1,
        path_pieces(path, lead, n)[0] == word(lead, path[0], none()),
    decreases n,
{
    lemma_blanks();
    lemma_symbols();
    if n == 1 {
        let p = word(lead, path[0], none());
        lemma_word_ok(lead, path[0], none());
        lemma_render_one(p);
        assert(path.take(1) =~= seq![path[0]]);
        assert(piece_text(p) =~= lead + path[0]);
    } else {
        lemma_path(path, lead, (n - 1) as nat);
        let before = path_pieces(path, lead, (n - 1) as nat);
        let dot = sym(none(), TokenKind::Dot, none());
        let last = word(none(), path[n - 1], none());
        let tail = seq![dot, last];
        lemma_sym_ok(none(), TokenKind::Dot, none());
        lemma_word_ok(none(), path[n - 1], none());
        assert(pieces_ok(tail));
        lemma_ok_add(before, tail);
        lemma_render_add(before, tail);
        assert(rendered(tail) =~= "."@ + path[n - 1]) by {
            reveal_with_fuel(render, 3);
        }
        assert(path.take(n as int).drop_last() =~= path.take(n - 1));
        assert(path.take(n as int).last() == path[n - 1]);
        assert(rendered(before + tail) =~= lead + join(path.take(n as int), "."@));
        assert((before + tail)[0] == before[0]);
    }
}

/// The pieces of the line of a grant: the path, with `lead` before it, and
/// a semicolon.
pub open spec fn grant_pieces(path: Path, lead: Seq<char>) -> Seq<Piece> {
    path_pieces(path, lead, path.len()) + seq![sym(none(), TokenKind::Semicolon, "\n"@)]
}

pub proof fn lemma_grant(path: Path, lead: Seq<char>)
    requires
        wf_path(path),
        is_blank(lead),
    ensures
        pieces_ok(grant_pieces(path, lead)),
        rendered(grant_pieces(path, lead)) == lead + join(path, "."@) + ";\n"@,
        grant_pieces(path, lead).len() == 2 * path.len(),
        ends_safely(grant_pieces(path, lead).last()),
        grant_pieces(path, lead)[0] == word(lead, path[0], none()),
{
    lemma_blanks();
    lemma_symbols();
    lemma_path(path, lead, path.len());
    let semi = sym(none(), TokenKind::Semicolon, "\n"@);
    lemma_sym_ok(none(), TokenKind::Semicolon, "\n"@);
    lemma_ok_add(path_pieces(path, lead, path.len()), seq![semi]);
    lemma_render_add(path_pieces(path, lead, path.len()), seq![semi]);
    lemma_render_one(semi);
    assert(path.take(path.len() as int) =~= path);
    assert(piece_text(semi) =~= ";\n"@);
    assert(grant_pieces(path, lead)[0] == path_pieces(path, lead, path.len())[0]);
}

/// The white space before the `k`-th item of a list whose items are set
/// apart by `pad`, with `lead` before the first.
pub open spec fn lead_of(k: int, lead: Seq<char>, pad: Seq<char>) -> Seq<char> {
    if k == 0 {
        lead + pad
    } else {
        pad
    }
}

/// The pieces of the lines of the first `n` grants.
pub open spec fn grant_lines_pieces(
    grants: Seq<ParsedModel<Path>>,
    pad: Seq<char>,
    lead: Seq<char>,
    n: nat,
) -> Seq<Piece>
    decreases n,
{
    if n == 0 || n > grants.len() {
        Seq::empty()
    } else {
        grant_lines_pieces(grants, pad, lead, (n - 1) as nat) + grant_pieces(
            grants[n - 1].data,
            lead_of(n - 1, lead, pad),
        )
    }
}

/// Whether every grant of a list can be written and read back.
pub open spec fn wf_grants(grants: Seq<ParsedModel<Path>>) -> bool {
    forall|i: int| 0 <= i < grants.len() ==> wf_path((#[trigger] grants[i]).data)
}

pub proof fn lemma_grant_lines(grants: Seq<ParsedModel<Path>>, pad: Seq<char>, lead: Seq<char>, n: nat)
    requires
        wf_grants(grants),
        is_blank(pad),
        is_blank(lead),
        n <= grants.len(),
    ensures
        pieces_ok(grant_lines_pieces(grants, pad, lead, n)),
        n > 0 ==> rendered(grant_lines_pieces(grants, pad, lead, n)) == lead + grant_lines(
            grants,
            pad,
            n,
        ) && grant_lines_pieces(grants, pad, lead, n).len() > 0 && ends_safely(
            grant_lines_pieces(grants, pad, lead, n).last(),
        ),
        n == 0 ==> grant_lines_pieces(grants, pad, lead, n).len() == 0,
    decreases n,
{
    if n > 0 {
        lemma_grant_lines(grants, pad, lead, (n - 1) as nat);
        lemma_blank_add(lead, pad);
        let before = grant_lines_pieces(grants, pad, lead, (n - 1) as nat);
        let last = grant_pieces(grants[n - 1].data, lead_of(n - 1, lead, pad));
        lemma_grant(grants[n - 1].data, lead_of(n - 1, lead, pad));
        lemma_ok_add(before, last);
        lemma_render_add(before, last);
        assert((before + last).last() == last.last());
        if n == 1 {
            reveal_with_fuel(grant_lines, 2);
            assert(rendered(before) =~= none());
            assert(grant_lines(grants, pad, 0) =~= none());
            assert(rendered(before + last) =~= lead + grant_lines(grants, pad, n));
        } else {
            assert(rendered(before + last) =~= lead + grant_lines(grants, pad, n));
        }
    }
}

/// The pieces of the lines of the first `n` includes.
pub open spec fn include_lines_pieces(
    includes: Seq<ParsedModel<IdentifierModel>>,
    pad: Seq<char>,
    lead: Seq<char>,
    n: nat,
) -> Seq<Piece>
    decreases n,
{
    if n == 0 || n > includes.len() {
        Seq::empty()
    } else {
        include_lines_pieces(includes, pad, lead, (n - 1) as nat) + seq![
            sym(lead_of(n - 1, lead, pad), TokenKind::Hash, none()),
            word(none(), includes[n - 1].data.value, none()),
            sym(none(), TokenKind::Semicolon, "\n"@),
        ]
    }
}

/// Whether every name of a list is a word, and the name of a fragment.
pub open spec fn wf_names(names: Seq<ParsedModel<IdentifierModel>>) -> bool {
    forall|i: int|
        0 <= i < names.len() ==> is_word((#[trigger] names[i]).data.value) && names[i].data.kind
            == IdentifierKind::Fragment
}

pub proof fn lemma_include_lines(
    includes: Seq<ParsedModel<IdentifierModel>>,
    pad: Seq<char>,
    lead: Seq<char>,
    n: nat,
)
    requires
        wf_names(includes),
        is_blank(pad),
        is_blank(lead),
        n <= includes.len(),
    ensures
        pieces_ok(include_lines_pieces(includes, pad, lead, n)),
        include_lines_pieces(includes, pad, lead, n).len() == 3 * n,
        n > 0 ==> rendered(include_lines_pieces(includes, pad, lead, n)) == lead + include_lines(
            includes,
            pad,
            n,
        ) && ends_safely(include_lines_pieces(includes, pad, lead, n).last()),
    decreases n,
{
    if n > 0 {
        lemma_include_lines(includes, pad, lead, (n - 1) as nat);
        lemma_blanks();
        lemma_symbols();
        lemma_blank_add(lead, pad);
        let before = include_lines_pieces(includes, pad, lead, (n - 1) as nat);
        let hash = sym(lead_of(n - 1, lead, pad), TokenKind::Hash, none());
        let name = word(none(), includes[n - 1].data.value, none());
        let semi = sym(none(), TokenKind::Semicolon, "\n"@);
        let last = seq![hash, name, semi];
        lemma_sym_ok(lead_of(n - 1, lead, pad), TokenKind::Hash, none());
        lemma_word_ok(none(), includes[n - 1].data.value, none());
        lemma_sym_ok(none(), TokenKind::Semicolon, "\n"@);
        assert(pieces_ok(last));
        lemma_ok_add(before, last);
        lemma_render_add(before, last);
        assert(rendered(last) =~= lead_of(n - 1, lead, pad) + "#"@ + includes[n - 1].data.value
            + ";\n"@) by {
            reveal_with_fuel(render, 4);
        }
        assert((before + last).last() == semi);
        if n == 1 {
            reveal_with_fuel(include_lines, 2);
            assert(rendered(before) =~= none());
            assert(include_lines(includes, pad, 0) =~= none());
            assert(rendered(before + last) =~= lead + include_lines(includes, pad, n));
        } else {
            assert(rendered(before + last) =~= lead + include_lines(includes, pad, n));
        }
    }
}

/// Two lists of pieces, one behind the other: what holds of the whole.
pub proof fn lemma_join(a: Seq<Piece>, b: Seq<Piece>)
    requires
        pieces_ok(a),
        pieces_ok(b),
        a.len() == 0 || b.len() == 0 || ends_safely(a.last()) || starts_safely(b[0]),
    ensures
        pieces_ok(a + b),
        rendered(a + b) == rendered(a) + rendered(b),
        (a + b).len() == a.len() + b.len(),
        b.len() > 0 ==> (a + b).last() == b.last(),
        b.len() == 0 ==> a + b == a,
        a.len() > 0 ==> (a + b)[0] == a[0],
        a.len() == 0 ==> a + b == b,
{
    lemma_ok_add(a, b);
    lemma_render_add(a, b);
    if b.len() == 0 {
        assert(a + b =~= a);
    }
    if a.len() == 0 {
        assert(a + b =~= b);
    }
}

/// The pieces of the grants of a body.
pub open spec fn grants_block_pieces(grants: Seq<ParsedModel<Path>>, pad: Seq<char>) -> Seq<Piece> {
    grant_lines_pieces(grants, pad, "\n"@, grants.len())
}

pub proof fn lemma_grants_block(grants: Seq<ParsedModel<Path>>, pad: Seq<char>)
    requires
        wf_grants(grants),
        is_blank(pad),
    ensures
        pieces_ok(grants_block_pieces(grants, pad)),
        rendered(grants_block_pieces(grants, pad)) == grants_block(grants, pad),
        grants.len() > 0 ==> grants_block_pieces(grants, pad).len() > 0 && ends_safely(
            grants_block_pieces(grants, pad).last(),
        ),
        grants.len() == 0 ==> grants_block_pieces(grants, pad).len() == 0,
{
    lemma_blanks();
    lemma_grant_lines(grants, pad, "\n"@, grants.len());
}

/// The pieces of the includes of a body.
pub open spec fn includes_block_pieces(
    includes: Seq<ParsedModel<IdentifierModel>>,
    pad: Seq<char>,
) -> Seq<Piece> {
    include_lines_pieces(includes, pad, "\n"@, includes.len())
}

pub proof fn lemma_includes_block(includes: Seq<ParsedModel<IdentifierModel>>, pad: Seq<char>)
    requires
        wf_names(includes),
        is_blank(pad),
    ensures
        pieces_ok(includes_block_pieces(includes, pad)),
        rendered(includes_block_pieces(includes, pad)) == includes_block(includes, pad),
        includes.len() > 0 ==> includes_block_pieces(includes, pad).len() > 0 && ends_safely(
            includes_block_pieces(includes, pad).last(),
        ),
        includes.len() == 0 ==> includes_block_pieces(includes, pad).len() == 0,
{
    lemma_blanks();
    lemma_include_lines(includes, pad, "\n"@, includes.len());
}

/// Whether a rule can be written and read back: the wildcard has nothing
/// but its star; any other rule has a word for the name of its relationship,
/// and what it holds can be written and read back.
pub open spec fn wf_rule(rule: RuleModel) -> bool
    decreases rule,
{
    if rule.relationship.data.value == "*"@ {
        rule.attributes.len() == 0 && rule.grants.len() == 0 && rule.rules.len() == 0
            && rule.include_fragments.len() == 0 && rule.relationship.data.kind
            == IdentifierKind::Rule
    } else {
        &&& is_word(rule.relationship.data.value)
        &&& rule.relationship.data.kind == IdentifierKind::Rule
        &&& wf_attributes(rule.attributes)
        &&& wf_grants(rule.grants)
        &&& wf_names(rule.include_fragments)
        &&& forall|i: int| 0 <= i < rule.rules.len() ==> wf_rule((#[trigger] rule.rules[i]).data)
    }
}

/// Whether every rule of a list can be written and read back.
pub open spec fn wf_rules(rules: Seq<ParsedModel<RuleModel>>) -> bool {
    forall|i: int| 0 <= i < rules.len() ==> wf_rule((#[trigger] rules[i]).data)
}

/// The pieces of a rule, indented by `pad`, with `lead` before it.
pub open spec fn rule_pieces(rule: RuleModel, pad: Seq<char>, lead: Seq<char>) -> Seq<Piece>
    decreases rule, 0nat,
{
    if rule.relationship.data.value == "*"@ {
        seq![sym(lead + pad, TokenKind::Star, "\n"@)]
    } else {
        seq![word(lead + pad, rule.relationship.data.value, none())] + attributes_pieces(
            rule.attributes,
            rule.attributes.len(),
        ) + seq![sym(" "@, TokenKind::LeftBrace, none())] + grants_block_pieces(
            rule.grants,
            pad + level(),
        ) + includes_block_pieces(rule.include_fragments, pad + level()) + rules_pieces(
            rule.rules,
            pad + level(),
            "\n"@,
            rule.rules.len(),
        ) + seq![sym(pad, TokenKind::RightBrace, "\n"@)]
    }
}

/// The white space before the `k`-th rule of a list: `lead` before the
/// first, a blank line before each of the others.
pub open spec fn rule_lead(k: int, lead: Seq<char>) -> Seq<char> {
    if k == 0 {
        lead
    } else {
        "\n"@
    }
}

/// The pieces of the first `n` rules, with a blank line between neighbours.
pub open spec fn rules_pieces(
    rules: Seq<ParsedModel<RuleModel>>,
    pad: Seq<char>,
    lead: Seq<char>,
    n: nat,
) -> Seq<Piece>
    decreases rules, n,
{
    if n == 0 || n > rules.len() {
        Seq::empty()
    } else {
        rules_pieces(rules, pad, lead, (n - 1) as nat) + rule_pieces(
            rules[n - 1].data,
            pad,
            rule_lead(n - 1, lead),
        )
    }
}

/// A text with `lead` before it, put together in two ways.
proof fn lemma_rule_chain(
    lead: Seq<char>,
    pad: Seq<char>,
    name: Seq<char>,
    x1: Seq<char>,
    x2: Seq<char>,
    x3: Seq<char>,
    x4: Seq<char>,
    x5: Seq<char>,
    close: Seq<char>,
)
    ensures
        (lead + pad + name) + x1 + x2 + x3 + x4 + x5 + (pad + close) == lead + (pad + name + x1
            + x2 + x3 + x4 + x5 + pad + close),
{
    assert((lead + pad + name) + x1 + x2 + x3 + x4 + x5 + (pad + close) =~= lead + (pad + name
        + x1 + x2 + x3 + x4 + x5 + pad + close));
}

proof fn lemma_rule_ok(rule: RuleModel, pad: Seq<char>, lead: Seq<char>)
    requires
        wf_rule(rule),
        is_blank(pad),
        is_blank(lead),
    ensures
        pieces_ok(rule_pieces(rule, pad, lead)),
        rule_pieces(rule, pad, lead).len() > 0,
        ends_safely(rule_pieces(rule, pad, lead).last()),
    decreases rule, 0nat,
{
    lemma_blanks();
    lemma_blank_add(lead, pad);
    lemma_blank_add(pad, level());
    if rule.relationship.data.value == "*"@ {
        lemma_sym_ok(lead + pad, TokenKind::Star, "\n"@);
    } else {
        let inner = pad + level();
        let a0 = seq![word(lead + pad, rule.relationship.data.value, none())];
        let a1 = attributes_pieces(rule.attributes, rule.attributes.len());
        let a2 = seq![sym(" "@, TokenKind::LeftBrace, none())];
        let a3 = grants_block_pieces(rule.grants, inner);
        let a4 = includes_block_pieces(rule.include_fragments, inner);
        let a5 = rules_pieces(rule.rules, inner, "\n"@, rule.rules.len());
        let a6 = seq![sym(pad, TokenKind::RightBrace, "\n"@)];
        lemma_word_ok(lead + pad, rule.relationship.data.value, none());
        lemma_attributes(rule.attributes, rule.attributes.len());
        lemma_sym_ok(none(), TokenKind::Colon, none());
        lemma_sym_ok(" "@, TokenKind::LeftBrace, none());
        lemma_grants_block(rule.grants, inner);
        lemma_includes_block(rule.include_fragments, inner);
        lemma_rules_ok(rule.rules, inner, "\n"@, rule.rules.len());
        lemma_sym_ok(pad, TokenKind::RightBrace, "\n"@);
        lemma_join(a0, a1);
        lemma_join(a0 + a1, a2);
        lemma_join(a0 + a1 + a2, a3);
        lemma_join(a0 + a1 + a2 + a3, a4);
        lemma_join(a0 + a1 + a2 + a3 + a4, a5);
        lemma_join(a0 + a1 + a2 + a3 + a4 + a5, a6);
    }
}

proof fn lemma_rules_ok(rules: Seq<ParsedModel<RuleModel>>, pad: Seq<char>, lead: Seq<char>, n: nat)
    requires
        wf_rules(rules),
        is_blank(pad),
        is_blank(lead),
        n <= rules.len(),
    ensures
        pieces_ok(rules_pieces(rules, pad, lead, n)),
        n > 0 ==> rules_pieces(rules, pad, lead, n).len() > 0 && ends_safely(
            rules_pieces(rules, pad, lead, n).last(),
        ),
        n == 0 ==> rules_pieces(rules, pad, lead, n).len() == 0,
    decreases rules, n,
{
    if n > 0 {
        lemma_blanks();
        lemma_rules_ok(rules, pad, lead, (n - 1) as nat);
        lemma_rule_ok(rules[n - 1].data, pad, rule_lead(n - 1, lead));
        lemma_join(
            rules_pieces(rules, pad, lead, (n - 1) as nat),
            rule_pieces(rules[n - 1].data, pad, rule_lead(n - 1, lead)),
        );
    }
}

proof fn lemma_rule_text(rule: RuleModel, pad: Seq<char>, lead: Seq<char>)
    requires
        wf_rule(rule),
        is_blank(pad),
        is_blank(lead),
    ensures
        rendered(rule_pieces(rule, pad, lead)) == lead + rule_text(rule, pad),
    decreases rule, 0nat,
{
    lemma_blanks();
    lemma_symbols();
    lemma_blank_add(pad, level());
    if rule.relationship.data.value == "*"@ {
        let star = sym(lead + pad, TokenKind::Star, "\n"@);
        lemma_render_one(star);
        assert(piece_text(star) =~= lead + (pad + "*\n"@));
    } else {
        let inner = pad + level();
        let name = rule.relationship.data.value;
        let a0 = seq![word(lead + pad, name, none())];
        let a1 = attributes_pieces(rule.attributes, rule.attributes.len());
        let a2 = seq![sym(" "@, TokenKind::LeftBrace, none())];
        let a3 = grants_block_pieces(rule.grants, inner);
        let a4 = includes_block_pieces(rule.include_fragments, inner);
        let a5 = rules_pieces(rule.rules, inner, "\n"@, rule.rules.len());
        let a6 = seq![sym(pad, TokenKind::RightBrace, "\n"@)];
        let x1 = attributes_text(rule.attributes, rule.attributes.len());
        let x3 = grants_block(rule.grants, inner);
        let x4 = includes_block(rule.include_fragments, inner);
        let x5 = rules_block(rule.rules, inner);
        assert(rendered(a0) == lead + pad + name) by {
            lemma_render_one(a0[0]);
            assert(piece_text(a0[0]) =~= lead + pad + name);
        }
        assert(rendered(a1) == x1) by {
            lemma_attributes(rule.attributes, rule.attributes.len());
        }
        assert(rendered(a2) == " {"@) by {
            lemma_render_one(a2[0]);
            assert(piece_text(a2[0]) =~= " {"@);
        }
        assert(rendered(a3) == x3) by {
            lemma_grants_block(rule.grants, inner);
        }
        assert(rendered(a4) == x4) by {
            lemma_includes_block(rule.include_fragments, inner);
        }
        assert(rendered(a5) == x5) by {
            lemma_rules_text(rule.rules, inner, "\n"@, rule.rules.len());
            lemma_rules_ok(rule.rules, inner, "\n"@, rule.rules.len());
            if rule.rules.len() == 0 {
                assert(rendered(a5) =~= none());
            }
        }
        assert(rendered(a6) == pad + "}\n"@) by {
            lemma_render_one(a6[0]);
            assert(piece_text(a6[0]) =~= pad + "}\n"@);
        }
        lemma_render_add(a0, a1);
        lemma_render_add(a0 + a1, a2);
        lemma_render_add(a0 + a1 + a2, a3);
        lemma_render_add(a0 + a1 + a2 + a3, a4);
        lemma_render_add(a0 + a1 + a2 + a3 + a4, a5);
        lemma_render_add(a0 + a1 + a2 + a3 + a4 + a5, a6);
        lemma_rule_chain(lead, pad, name, x1, " {"@, x3, x4, x5, "}\n"@);
    }
}

proof fn lemma_rules_text(rules: Seq<ParsedModel<RuleModel>>, pad: Seq<char>, lead: Seq<char>, n: nat)
    requires
        wf_rules(rules),
        is_blank(pad),
        is_blank(lead),
        n <= rules.len(),
    ensures
        n > 0 ==> rendered(rules_pieces(rules, pad, lead, n)) == lead + rules_text(rules, pad, n),
    decreases rules, n,
{
    if n > 0 {
        lemma_blanks();
        lemma_rules_text(rules, pad, lead, (n - 1) as nat);
        let before = rules_pieces(rules, pad, lead, (n - 1) as nat);
        let last = rule_pieces(rules[n - 1].data, pad, rule_lead(n - 1, lead));
        lemma_rule_text(rules[n - 1].data, pad, rule_lead(n - 1, lead));
        lemma_render_add(before, last);
        if n == 1 {
            assert(rendered(before) =~= none());
            assert(rendered(before + last) =~= lead + rules_text(rules, pad, n));
        } else {
            assert(rendered(before + last) =~= lead + rules_text(rules, pad, n));
        }
    }
}

pub proof fn lemma_rule(rule: RuleModel, pad: Seq<char>, lead: Seq<char>)
    requires
        wf_rule(rule),
        is_blank(pad),
        is_blank(lead),
    ensures
        pieces_ok(rule_pieces(rule, pad, lead)),
        rendered(rule_pieces(rule, pad, lead)) == lead + rule_text(rule, pad),
        rule_pieces(rule, pad, lead).len() > 0,
        ends_safely(rule_pieces(rule, pad, lead).last()),
{
    lemma_rule_ok(rule, pad, lead);
    lemma_rule_text(rule, pad, lead);
}

pub proof fn lemma_rules(rules: Seq<ParsedModel<RuleModel>>, pad: Seq<char>, lead: Seq<char>, n: nat)
    requires
        wf_rules(rules),
        is_blank(pad),
        is_blank(lead),
        n <= rules.len(),
    ensures
        pieces_ok(rules_pieces(rules, pad, lead, n)),
        n > 0 ==> rendered(rules_pieces(rules, pad, lead, n)) == lead + rules_text(rules, pad, n)
            && rules_pieces(rules, pad, lead, n).len() > 0 && ends_safely(
            rules_pieces(rules, pad, lead, n).last(),
        ),
        n == 0 ==> rules_pieces(rules, pad, lead, n).len() == 0,
{
    lemma_rules_ok(rules, pad, lead, n);
    lemma_rules_text(rules, pad, lead, n);
}

/// Whether an entrypoint can be written and read back.
pub open spec fn wf_entrypoint(entrypoint: EntrypointModel) -> bool {
    &&& is_word(entrypoint.entrypoint.data.value)
    &&& entrypoint.entrypoint.data.kind == IdentifierKind::Entity
    &&& wf_rules(entrypoint.rules)
}

/// The pieces of an entrypoint, with `lead` before it and `trail` behind.
pub open spec fn entrypoint_pieces(
    entrypoint: EntrypointModel,
    pad: Seq<char>,
    lead: Seq<char>,
    trail: Seq<char>,
) -> Seq<Piece> {
    seq![
        sym(lead + pad, TokenKind::At, none()),
        word(none(), entrypoint.entrypoint.data.value, none()),
        sym(" "@, TokenKind::LeftBrace, "\n"@),
    ] + rules_pieces(entrypoint.rules, pad + level(), none(), entrypoint.rules.len()) + seq![
        sym(none(), TokenKind::RightBrace, trail),
    ]
}

pub proof fn lemma_entrypoint(
    entrypoint: EntrypointModel,
    pad: Seq<char>,
    lead: Seq<char>,
    trail: Seq<char>,
)
    requires
        wf_entrypoint(entrypoint),
        is_blank(pad),
        is_blank(lead),
        is_blank(trail),
    ensures
        pieces_ok(entrypoint_pieces(entrypoint, pad, lead, trail)),
        rendered(entrypoint_pieces(entrypoint, pad, lead, trail)) == lead + entrypoint_text(
            entrypoint,
            pad,
        ) + trail,
        entrypoint_pieces(entrypoint, pad, lead, trail).len() > 0,
        ends_safely(entrypoint_pieces(entrypoint, pad, lead, trail).last()),
        starts_safely(entrypoint_pieces(entrypoint, pad, lead, trail)[0]),
{
    lemma_blanks();
    lemma_symbols();
    lemma_blank_add(lead, pad);
    lemma_blank_add(pad, level());
    let inner = pad + level();
    let name = entrypoint.entrypoint.data.value;
    let a0 = seq![
        sym(lead + pad, TokenKind::At, none()),
        word(none(), name, none()),
        sym(" "@, TokenKind::LeftBrace, "\n"@),
    ];
    let a1 = rules_pieces(entrypoint.rules, inner, none(), entrypoint.rules.len());
    let a2 = seq![sym(none(), TokenKind::RightBrace, trail)];
    lemma_sym_ok(lead + pad, TokenKind::At, none());
    lemma_word_ok(none(), name, none());
    lemma_sym_ok(" "@, TokenKind::LeftBrace, "\n"@);
    lemma_sym_ok(none(), TokenKind::RightBrace, trail);
    assert(pieces_ok(a0));
    lemma_rules(entrypoint.rules, inner, none(), entrypoint.rules.len());
    lemma_join(a0, a1);
    lemma_join(a0 + a1, a2);
    lemma_render_one(a2[0]);
    assert(rendered(a0) =~= lead + pad + "@"@ + name + " {\n"@) by {
        reveal_with_fuel(render, 4);
    }
    assert(rendered(a1) =~= rules_text(entrypoint.rules, inner, entrypoint.rules.len())) by {
        if entrypoint.rules.len() == 0 {
            assert(rendered(a1) =~= none());
        } else {
            assert(none() + rules_text(entrypoint.rules, inner, entrypoint.rules.len())
                =~= rules_text(entrypoint.rules, inner, entrypoint.rules.len()));
        }
    }
    assert(rendered(a2) =~= "}"@ + trail);
    assert(rendered(entrypoint_pieces(entrypoint, pad, lead, trail)) =~= lead + entrypoint_text(
        entrypoint,
        pad,
    ) + trail);
}

/// Whether a fragment can be written and read back.
pub open spec fn wf_fragment(fragment: FragmentModel) -> bool {
    &&& is_word(fragment.name.data.value)
    &&& fragment.name.data.kind == IdentifierKind::Fragment
    &&& is_word(fragment.for_entity.data.value)
    &&& fragment.for_entity.data.kind == IdentifierKind::Entity
    &&& wf_grants(fragment.grants)
    &&& wf_rules(fragment.rules)
}

/// The pieces of a fragment, with `trail` behind it.
pub open spec fn fragment_pieces(fragment: FragmentModel, pad: Seq<char>, trail: Seq<char>) -> Seq<
    Piece,
> {
    seq![
        word(pad, "fragment"@, " "@),
        word(none(), fragment.name.data.value, " "@),
        word(none(), "for"@, " "@),
        word(none(), fragment.for_entity.data.value, none()),
        sym(" "@, TokenKind::LeftBrace, none()),
    ] + grants_block_pieces(fragment.grants, pad + level()) + rules_pieces(
        fragment.rules,
        pad + level(),
        "\n"@,
        fragment.rules.len(),
    ) + seq![sym(pad, TokenKind::RightBrace, "\n"@ + trail)]
}

/// The words that the grammar knows.
pub proof fn lemma_keywords()
    ensures
        is_word("fragment"@),
        is_word("for"@),
        is_word("entity"@),
        "fragment "@ == "fragment"@ + " "@,
        " for "@ == " "@ + "for"@ + " "@,
        "entity "@ == "entity"@ + " "@,
        "fragment"@ != "entity"@,
{
    reveal_strlit("fragment");
    reveal_strlit("for");
    reveal_strlit("entity");
    reveal_strlit("fragment ");
    reveal_strlit(" for ");
    reveal_strlit("entity ");
    reveal_strlit(" ");
    assert("fragment "@ =~= "fragment"@ + " "@);
    assert(" for "@ =~= " "@ + "for"@ + " "@);
    assert("entity "@ =~= "entity"@ + " "@);
    assert("fragment"@.len() != "entity"@.len());
}

pub proof fn lemma_fragment(fragment: FragmentModel, pad: Seq<char>, trail: Seq<char>)
    requires
        wf_fragment(fragment),
        is_blank(pad),
        is_blank(trail),
    ensures
        pieces_ok(fragment_pieces(fragment, pad, trail)),
        rendered(fragment_pieces(fragment, pad, trail)) == fragment_text(fragment, pad) + trail,
        fragment_pieces(fragment, pad, trail).len() > 0,
        ends_safely(fragment_pieces(fragment, pad, trail).last()),
{
    lemma_blanks();
    lemma_symbols();
    lemma_keywords();
    lemma_blank_add(pad, level());
    lemma_blank_add("\n"@, trail);
    let inner = pad + level();
    let name = fragment.name.data.value;
    let entity = fragment.for_entity.data.value;
    let a0 = seq![
        word(pad, "fragment"@, " "@),
        word(none(), name, " "@),
        word(none(), "for"@, " "@),
        word(none(), entity, none()),
        sym(" "@, TokenKind::LeftBrace, none()),
    ];
    let a1 = grants_block_pieces(fragment.grants, inner);
    let a2 = rules_pieces(fragment.rules, inner, "\n"@, fragment.rules.len());
    let a3 = seq![sym(pad, TokenKind::RightBrace, "\n"@ + trail)];
    lemma_word_ok(pad, "fragment"@, " "@);
    lemma_word_ok(none(), name, " "@);
    lemma_word_ok(none(), "for"@, " "@);
    lemma_word_ok(none(), entity, none());
    lemma_sym_ok(" "@, TokenKind::LeftBrace, none());
    lemma_sym_ok(pad, TokenKind::RightBrace, "\n"@ + trail);
    assert(pieces_ok(a0));
    lemma_grants_block(fragment.grants, inner);
    lemma_rules(fragment.rules, inner, "\n"@, fragment.rules.len());
    lemma_join(a0, a1);
    lemma_join(a0 + a1, a2);
    lemma_join(a0 + a1 + a2, a3);
    lemma_render_one(a3[0]);
    assert(rendered(a0) =~= pad + "fragment "@ + name + " for "@ + entity + " {"@) by {
        reveal_with_fuel(render, 6);
    }
    assert(rendered(a2) == rules_block(fragment.rules, inner)) by {
        if fragment.rules.len() == 0 {
            assert(rendered(a2) =~= none());
        }
    }
    assert(rendered(a3) =~= pad + "}\n"@ + trail);
    assert(rendered(fragment_pieces(fragment, pad, trail)) =~= fragment_text(fragment, pad)
        + trail);
}

/// Whether a relationship can be written and read back.
pub open spec fn wf_relationship(rel: RelationshipModel) -> bool {
    &&& is_word(rel.relationship_name.data.value)
    &&& rel.relationship_name.data.kind == IdentifierKind::Rule
    &&& is_word(rel.entity_name.data.value)
    &&& rel.entity_name.data.kind == IdentifierKind::Entity
    &&& wf_attributes(rel.attributes)
}

/// The pieces of a relationship of an entity.
pub open spec fn relationship_pieces(rel: RelationshipModel, pad: Seq<char>) -> Seq<Piece> {
    seq![
        word(pad, rel.relationship_name.data.value, none()),
        sym(none(), TokenKind::Colon, " "@),
        word(none(), rel.entity_name.data.value, none()),
    ] + (if rel.attributes.len() > 0 {
        seq![sym(" "@, TokenKind::LeftBrace, " "@)] + attributes_pieces(
            rel.attributes,
            rel.attributes.len(),
        ) + seq![sym(" "@, TokenKind::RightBrace, "\n"@)]
    } else {
        seq![sym(none(), TokenKind::Semicolon, "\n"@)]
    })
}

pub proof fn lemma_relationship(rel: RelationshipModel, pad: Seq<char>)
    requires
        wf_relationship(rel),
        is_blank(pad),
    ensures
        pieces_ok(relationship_pieces(rel, pad)),
        rendered(relationship_pieces(rel, pad)) == relationship_text(rel, pad),
        relationship_pieces(rel, pad).len() > 0,
        ends_safely(relationship_pieces(rel, pad).last()),
{
    lemma_blanks();
    lemma_symbols();
    let name = rel.relationship_name.data.value;
    let target = rel.entity_name.data.value;
    let a0 = seq![
        word(pad, name, none()),
        sym(none(), TokenKind::Colon, " "@),
        word(none(), target, none()),
    ];
    lemma_word_ok(pad, name, none());
    lemma_sym_ok(none(), TokenKind::Colon, " "@);
    lemma_word_ok(none(), target, none());
    assert(pieces_ok(a0));
    assert(rendered(a0) =~= pad + name + ": "@ + target) by {
        reveal_with_fuel(render, 4);
    }
    if rel.attributes.len() > 0 {
        let open = seq![sym(" "@, TokenKind::LeftBrace, " "@)];
        let attrs = attributes_pieces(rel.attributes, rel.attributes.len());
        let close = seq![sym(" "@, TokenKind::RightBrace, "\n"@)];
        lemma_sym_ok(" "@, TokenKind::LeftBrace, " "@);
        lemma_sym_ok(" "@, TokenKind::RightBrace, "\n"@);
        lemma_attributes(rel.attributes, rel.attributes.len());
        lemma_render_one(open[0]);
        lemma_render_one(close[0]);
        lemma_join(open, attrs);
        lemma_join(open + attrs, close);
        lemma_join(a0, open + attrs + close);
        assert(rendered(open) =~= " { "@);
        assert(rendered(close) =~= " }\n"@);
        assert(rendered(relationship_pieces(rel, pad)) =~= relationship_text(rel, pad));
    } else {
        let semi = seq![sym(none(), TokenKind::Semicolon, "\n"@)];
        lemma_sym_ok(none(), TokenKind::Semicolon, "\n"@);
        lemma_render_one(semi[0]);
        lemma_join(a0, semi);
        assert(rendered(semi) =~= ";\n"@);
        assert(rendered(relationship_pieces(rel, pad)) =~= relationship_text(rel, pad));
    }
}

/// The pieces of the first `n` relationships.
pub open spec fn relationships_pieces(
    rels: Seq<ParsedModel<RelationshipModel>>,
    pad: Seq<char>,
    n: nat,
) -> Seq<Piece>
    decreases n,
{
    if n == 0 || n > rels.len() {
        Seq::empty()
    } else {
        relationships_pieces(rels, pad, (n - 1) as nat) + relationship_pieces(rels[n - 1].data, pad)
    }
}

/// Whether every relationship of a list can be written and read back.
pub open spec fn wf_relationships(rels: Seq<ParsedModel<RelationshipModel>>) -> bool {
    forall|i: int| 0 <= i < rels.len() ==> wf_relationship((#[trigger] rels[i]).data)
}

pub proof fn lemma_relationships(rels: Seq<ParsedModel<RelationshipModel>>, pad: Seq<char>, n: nat)
    requires
        wf_relationships(rels),
        is_blank(pad),
        n <= rels.len(),
    ensures
        pieces_ok(relationships_pieces(rels, pad, n)),
        rendered(relationships_pieces(rels, pad, n)) == relationships_text(rels, pad, n),
        n > 0 ==> relationships_pieces(rels, pad, n).len() > 0 && ends_safely(
            relationships_pieces(rels, pad, n).last(),
        ),
        n == 0 ==> relationships_pieces(rels, pad, n).len() == 0,
    decreases n,
{
    if n > 0 {
        lemma_relationships(rels, pad, (n - 1) as nat);
        lemma_relationship(rels[n - 1].data, pad);
        lemma_join(
            relationships_pieces(rels, pad, (n - 1) as nat),
            relationship_pieces(rels[n - 1].data, pad),
        );
    }
}

/// Whether an entity can be written and read back.
pub open spec fn wf_entity(entity: EntityModel) -> bool {
    &&& is_word(entity.name.data.value)
    &&& entity.name.data.kind == IdentifierKind::Entity
    &&& wf_relationships(entity.relationships)
    &&& wf_grants(entity.grants)
}

/// The pieces of an entity, with `trail` behind it.
pub open spec fn entity_pieces(entity: EntityModel, pad: Seq<char>, trail: Seq<char>) -> Seq<Piece> {
    seq![
        word(pad, "entity"@, " "@),
        word(none(), entity.name.data.value, none()),
        sym(" "@, TokenKind::LeftBrace, "\n"@),
    ] + relationships_pieces(entity.relationships, pad + level(), entity.relationships.len())
        + grant_lines_pieces(entity.grants, pad + level(), none(), entity.grants.len()) + seq![
        sym(pad, TokenKind::RightBrace, "\n"@ + trail),
    ]
}

pub proof fn lemma_entity(entity: EntityModel, pad: Seq<char>, trail: Seq<char>)
    requires
        wf_entity(entity),
        is_blank(pad),
        is_blank(trail),
    ensures
        pieces_ok(entity_pieces(entity, pad, trail)),
        rendered(entity_pieces(entity, pad, trail)) == entity_text(entity, pad) + trail,
        entity_pieces(entity, pad, trail).len() > 0,
        ends_safely(entity_pieces(entity, pad, trail).last()),
{
    lemma_blanks();
    lemma_symbols();
    lemma_keywords();
    lemma_blank_add(pad, level());
    lemma_blank_add("\n"@, trail);
    let inner = pad + level();
    let name = entity.name.data.value;
    let a0 = seq![
        word(pad, "entity"@, " "@),
        word(none(), name, none()),
        sym(" "@, TokenKind::LeftBrace, "\n"@),
    ];
    let a1 = relationships_pieces(entity.relationships, inner, entity.relationships.len());
    let a2 = grant_lines_pieces(entity.grants, inner, none(), entity.grants.len());
    let a3 = seq![sym(pad, TokenKind::RightBrace, "\n"@ + trail)];
    lemma_word_ok(pad, "entity"@, " "@);
    lemma_word_ok(none(), name, none());
    lemma_sym_ok(" "@, TokenKind::LeftBrace, "\n"@);
    lemma_sym_ok(pad, TokenKind::RightBrace, "\n"@ + trail);
    assert(pieces_ok(a0));
    lemma_relationships(entity.relationships, inner, entity.relationships.len());
    lemma_grant_lines(entity.grants, inner, none(), entity.grants.len());
    lemma_join(a0, a1);
    lemma_join(a0 + a1, a2);
    lemma_join(a0 + a1 + a2, a3);
    lemma_render_one(a3[0]);
    assert(rendered(a0) =~= pad + "entity "@ + name + " {\n"@) by {
        reveal_with_fuel(render, 4);
    }
    assert(rendered(a2) =~= grant_lines(entity.grants, inner, entity.grants.len())) by {
        if entity.grants.len() == 0 {
            assert(rendered(a2) =~= none());
        } else {
            assert(none() + grant_lines(entity.grants, inner, entity.grants.len())
                =~= grant_lines(entity.grants, inner, entity.grants.len()));
        }
    }
    assert(rendered(a3) =~= pad + "}\n"@ + trail);
    assert(rendered(entity_pieces(entity, pad, trail)) =~= entity_text(entity, pad) + trail);
}

/// The pieces of the first `n` entities, a blank line behind each.
pub open spec fn entities_pieces(entities: Seq<ParsedModel<EntityModel>>, pad: Seq<char>, n: nat) -> Seq<
    Piece,
>
    decreases n,
{
    if n == 0 || n > entities.len() {
        Seq::empty()
    } else {
        entities_pieces(entities, pad, (n - 1) as nat) + entity_pieces(
            entities[n - 1].data,
            pad,
            "\n"@,
        )
    }
}

/// Whether every entity of a list can be written and read back.
pub open spec fn wf_entities(entities: Seq<ParsedModel<EntityModel>>) -> bool {
    forall|i: int| 0 <= i < entities.len() ==> wf_entity((#[trigger] entities[i]).data)
}

pub proof fn lemma_entities(entities: Seq<ParsedModel<EntityModel>>, pad: Seq<char>, n: nat)
    requires
        wf_entities(entities),
        is_blank(pad),
        n <= entities.len(),
    ensures
        pieces_ok(entities_pieces(entities, pad, n)),
        rendered(entities_pieces(entities, pad, n)) == entities_text(entities, pad, n),
        n > 0 ==> entities_pieces(entities, pad, n).len() > 0 && ends_safely(
            entities_pieces(entities, pad, n).last(),
        ),
        n == 0 ==> entities_pieces(entities, pad, n).len() == 0,
    decreases n,
{
    if n > 0 {
        lemma_blanks();
        lemma_entities(entities, pad, (n - 1) as nat);
        lemma_entity(entities[n - 1].data, pad, "\n"@);
        lemma_join(
            entities_pieces(entities, pad, (n - 1) as nat),
            entity_pieces(entities[n - 1].data, pad, "\n"@),
        );
        assert(rendered(entities_pieces(entities, pad, n)) =~= entities_text(entities, pad, n));
    }
}

/// The pieces of the first `n` fragments, a blank line behind each.
pub open spec fn fragments_pieces(fragments: Seq<ParsedModel<FragmentModel>>, pad: Seq<char>, n: nat) -> Seq<
    Piece,
>
    decreases n,
{
    if n == 0 || n > fragments.len() {
        Seq::empty()
    } else {
        fragments_pieces(fragments, pad, (n - 1) as nat) + fragment_pieces(
            fragments[n - 1].data,
            pad,
            "\n"@,
        )
    }
}

/// Whether every fragment of a list can be written and read back.
pub open spec fn wf_fragments(fragments: Seq<ParsedModel<FragmentModel>>) -> bool {
    forall|i: int| 0 <= i < fragments.len() ==> wf_fragment((#[trigger] fragments[i]).data)
}

pub proof fn lemma_fragments(fragments: Seq<ParsedModel<FragmentModel>>, pad: Seq<char>, n: nat)
    requires
        wf_fragments(fragments),
        is_blank(pad),
        n <= fragments.len(),
    ensures
        pieces_ok(fragments_pieces(fragments, pad, n)),
        rendered(fragments_pieces(fragments, pad, n)) == fragments_text(fragments, pad, n),
        n > 0 ==> fragments_pieces(fragments, pad, n).len() > 0 && ends_safely(
            fragments_pieces(fragments, pad, n).last(),
        ),
        n == 0 ==> fragments_pieces(fragments, pad, n).len() == 0,
    decreases n,
{
    if n > 0 {
        lemma_blanks();
        lemma_fragments(fragments, pad, (n - 1) as nat);
        lemma_fragment(fragments[n - 1].data, pad, "\n"@);
        lemma_join(
            fragments_pieces(fragments, pad, (n - 1) as nat),
            fragment_pieces(fragments[n - 1].data, pad, "\n"@),
        );
        assert(rendered(fragments_pieces(fragments, pad, n)) =~= fragments_text(
            fragments,
            pad,
            n,
        ));
    }
}

/// The pieces of the first `n` entrypoints, with a blank line between
/// neighbours and `lead` before the first.
pub open spec fn entrypoints_pieces(
    entrypoints: Seq<ParsedModel<EntrypointModel>>,
    pad: Seq<char>,
    lead: Seq<char>,
    n: nat,
) -> Seq<Piece>
    decreases n,
{
    if n == 0 || n > entrypoints.len() {
        Seq::empty()
    } else {
        entrypoints_pieces(entrypoints, pad, lead, (n - 1) as nat) + entrypoint_pieces(
            entrypoints[n - 1].data,
            pad,
            rule_lead(n - 1, lead),
            "\n"@,
        )
    }
}

/// Whether every entrypoint of a list can be written and read back.
pub open spec fn wf_entrypoints(entrypoints: Seq<ParsedModel<EntrypointModel>>) -> bool {
    forall|i: int| 0 <= i < entrypoints.len() ==> wf_entrypoint((#[trigger] entrypoints[i]).data)
}

pub proof fn lemma_entrypoints(
    entrypoints: Seq<ParsedModel<EntrypointModel>>,
    pad: Seq<char>,
    lead: Seq<char>,
    n: nat,
)
    requires
        wf_entrypoints(entrypoints),
        is_blank(pad),
        is_blank(lead),
        n <= entrypoints.len(),
    ensures
        pieces_ok(entrypoints_pieces(entrypoints, pad, lead, n)),
        n > 0 ==> rendered(entrypoints_pieces(entrypoints, pad, lead, n)) == lead
            + entrypoints_text(entrypoints, pad, n),
        n == 0 ==> entrypoints_pieces(entrypoints, pad, lead, n).len() == 0,
    decreases n,
{
    if n > 0 {
        lemma_blanks();
        lemma_entrypoints(entrypoints, pad, lead, (n - 1) as nat);
        let before = entrypoints_pieces(entrypoints, pad, lead, (n - 1) as nat);
        let last = entrypoint_pieces(entrypoints[n - 1].data, pad, rule_lead(n - 1, lead), "\n"@);
        lemma_entrypoint(entrypoints[n - 1].data, pad, rule_lead(n - 1, lead), "\n"@);
        lemma_join(before, last);
        if n == 1 {
            assert(rendered(before) =~= none());
            assert(rendered(before + last) =~= lead + entrypoints_text(entrypoints, pad, n));
        } else {
            assert(rendered(before + last) =~= lead + entrypoints_text(entrypoints, pad, n));
        }
    }
}

/// Whether a file can be written and read back: every name in it is a word
/// of the kind that its place asks for, every argument of an attribute is a
/// word or a string, no grant is empty, and a wildcard holds nothing.
pub open spec fn wf_file(file: RuuLangFileModel) -> bool {
    wf_entities(file.entities) && wf_fragments(file.fragments) && wf_entrypoints(
        file.entrypoints,
    )
}

/// The white space between the fragments and the entrypoints of a file.
pub open spec fn gap(file: RuuLangFileModel) -> Seq<char> {
    if file.fragments.len() > 0 && file.entrypoints.len() > 0 {
        "\n"@
    } else {
        none()
    }
}

/// The pieces of a file.
pub open spec fn file_pieces(file: RuuLangFileModel) -> Seq<Piece> {
    entities_pieces(file.entities, none(), file.entities.len()) + fragments_pieces(
        file.fragments,
        none(),
        file.fragments.len(),
    ) + entrypoints_pieces(file.entrypoints, none(), gap(file), file.entrypoints.len())
}

/// The pieces of a file make up its text, and no word among them runs into
/// the next.
pub proof fn lemma_file(file: RuuLangFileModel)
    requires
        wf_file(file),
    ensures
        pieces_ok(file_pieces(file)),
        rendered(file_pieces(file)) == file_text(file, none()),
{
    lemma_blanks();
    let a0 = entities_pieces(file.entities, none(), file.entities.len());
    let a1 = fragments_pieces(file.fragments, none(), file.fragments.len());
    let a2 = entrypoints_pieces(file.entrypoints, none(), gap(file), file.entrypoints.len());
    lemma_entities(file.entities, none(), file.entities.len());
    lemma_fragments(file.fragments, none(), file.fragments.len());
    lemma_entrypoints(file.entrypoints, none(), gap(file), file.entrypoints.len());
    lemma_join(a0, a1);
    lemma_join(a0 + a1, a2);
    if file.entrypoints.len() == 0 {
        assert(rendered(a2) =~= none());
    }
    assert(rendered(file_pieces(file)) =~= file_text(file, none()));
}

} // verus!
