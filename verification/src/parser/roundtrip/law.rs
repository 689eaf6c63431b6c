//! A file that is written as source text reads back as the same file.
//!
//! The law holds of files that can be written so that the grammar takes
//! every name for a word: every name is a word of the kind that its place
//! asks for, every argument of an attribute is a word or a string, no grant
//! has an empty path, and a wildcard holds nothing. Every file that is read
//! from a text is such a file. What reads back is the same but for byte
//! ranges and documentation, which the text does not hold.

use vstd::prelude::*;
use vstd::utf8::{encode_utf8, encode_utf8_valid_utf8};
use crate::parser::assembler::{assembled_file, entities_of, entrypoints_of, fragments_of};
use crate::parser::grammar::{attach_state, attached, with_docstring, Parse, Source};
use crate::parser::lexer::{tokens_of, Token};
use crate::parser::parse_location::ParsedModel;
use crate::parser::parser_constructs::{parsed, StatementModel};
use crate::parser::parser_utils::docstring_of;
use crate::parser::roundtrip::layout::{
    entities_pieces, entity_pieces, entrypoint_pieces, entrypoints_pieces, file_pieces,
    fragment_pieces, fragments_pieces, gap, lemma_file, lemma_keywords, none, rule_lead,
    wf_entities, wf_entrypoints, wf_file, wf_fragments,
};
use crate::parser::roundtrip::pieces::{lemma_lex_pieces, pieces_ok};
use crate::parser::roundtrip::shape::lemma_read_file_is_well_formed;
use crate::parser::roundtrip::reading::{
    lemma_read_entity, lemma_read_entrypoint, lemma_read_fragment, lemma_reads_split,
    lemma_source_reads, reads, same_entity, same_entrypoint, same_fragment, source_of,
};
use crate::parser::ruulang_ast::{EntrypointModel, FragmentModel, RuuLangFileModel};
use crate::parser::schema_ast::EntityModel;
use crate::parser::serialize::{file_text, level};
use crate::utils::text::repeat;

verus! {

/// Files that are the same but for byte ranges and documentation: they
/// hold the same entities, fragments and entrypoints, each kind in the same
/// order.
pub open spec fn same_file(a: RuuLangFileModel, b: RuuLangFileModel) -> bool {
    &&& a.entities.len() == b.entities.len()
    &&& forall|i: int|
        0 <= i < a.entities.len() ==> same_entity((#[trigger] a.entities[i]).data, b.entities[i].data)
    &&& a.fragments.len() == b.fragments.len()
    &&& forall|i: int|
        0 <= i < a.fragments.len() ==> same_fragment(
            (#[trigger] a.fragments[i]).data,
            b.fragments[i].data,
        )
    &&& a.entrypoints.len() == b.entrypoints.len()
    &&& forall|i: int|
        0 <= i < a.entrypoints.len() ==> same_entrypoint(
            (#[trigger] a.entrypoints[i]).data,
            b.entrypoints[i].data,
        )
}

/// The statements of a file whose entities come first, then its fragments,
/// then its entrypoints.
pub open spec fn statements_in_order(
    entities: Seq<ParsedModel<EntityModel>>,
    fragments: Seq<ParsedModel<FragmentModel>>,
    entrypoints: Seq<ParsedModel<EntrypointModel>>,
) -> Seq<StatementModel> {
    Seq::new(entities.len(), |i: int| StatementModel::Entity(entities[i])) + Seq::new(
        fragments.len(),
        |i: int| StatementModel::Fragment(fragments[i]),
    ) + Seq::new(entrypoints.len(), |i: int| StatementModel::Entrypoint(entrypoints[i]))
}

proof fn lemma_reads_entity(
    src: Source,
    k: int,
    entities: Seq<ParsedModel<EntityModel>>,
    n: nat,
    j: int,
)
    requires
        reads(src, k, entities_pieces(entities, none(), n)),
        n <= entities.len(),
        0 <= j < n,
    ensures
        reads(
            src,
            k + entities_pieces(entities, none(), j as nat).len(),
            entity_pieces(entities[j].data, none(), "\n"@),
        ),
        entities_pieces(entities, none(), (j + 1) as nat).len() == entities_pieces(
            entities,
            none(),
            j as nat,
        ).len() + entity_pieces(entities[j].data, none(), "\n"@).len(),
    decreases n,
{
    lemma_reads_split(
        src,
        k,
        entities_pieces(entities, none(), (n - 1) as nat),
        entity_pieces(entities[n - 1].data, none(), "\n"@),
    );
    if j < n - 1 {
        lemma_reads_entity(src, k, entities, (n - 1) as nat, j);
    }
}

proof fn lemma_reads_fragment(
    src: Source,
    k: int,
    fragments: Seq<ParsedModel<FragmentModel>>,
    n: nat,
    j: int,
)
    requires
        reads(src, k, fragments_pieces(fragments, none(), n)),
        n <= fragments.len(),
        0 <= j < n,
    ensures
        reads(
            src,
            k + fragments_pieces(fragments, none(), j as nat).len(),
            fragment_pieces(fragments[j].data, none(), "\n"@),
        ),
        fragments_pieces(fragments, none(), (j + 1) as nat).len() == fragments_pieces(
            fragments,
            none(),
            j as nat,
        ).len() + fragment_pieces(fragments[j].data, none(), "\n"@).len(),
    decreases n,
{
    lemma_reads_split(
        src,
        k,
        fragments_pieces(fragments, none(), (n - 1) as nat),
        fragment_pieces(fragments[n - 1].data, none(), "\n"@),
    );
    if j < n - 1 {
        lemma_reads_fragment(src, k, fragments, (n - 1) as nat, j);
    }
}

proof fn lemma_reads_entrypoint(
    src: Source,
    k: int,
    entrypoints: Seq<ParsedModel<EntrypointModel>>,
    lead: Seq<char>,
    n: nat,
    j: int,
)
    requires
        reads(src, k, entrypoints_pieces(entrypoints, none(), lead, n)),
        n <= entrypoints.len(),
        0 <= j < n,
    ensures
        reads(
            src,
            k + entrypoints_pieces(entrypoints, none(), lead, j as nat).len(),
            entrypoint_pieces(entrypoints[j].data, none(), rule_lead(j, lead), "\n"@),
        ),
        entrypoints_pieces(entrypoints, none(), lead, (j + 1) as nat).len() == entrypoints_pieces(
            entrypoints,
            none(),
            lead,
            j as nat,
        ).len() + entrypoint_pieces(entrypoints[j].data, none(), rule_lead(j, lead), "\n"@).len(),
    decreases n,
{
    lemma_reads_split(
        src,
        k,
        entrypoints_pieces(entrypoints, none(), lead, (n - 1) as nat),
        entrypoint_pieces(entrypoints[n - 1].data, none(), rule_lead(n - 1, lead), "\n"@),
    );
    if j < n - 1 {
        lemma_reads_entrypoint(src, k, entrypoints, lead, (n - 1) as nat, j);
    }
}

/// Entities that are the same, one by one.
pub open spec fn same_entities(
    a: Seq<ParsedModel<EntityModel>>,
    b: Seq<ParsedModel<EntityModel>>,
) -> bool {
    a.len() == b.len() && forall|i: int|
        0 <= i < a.len() ==> same_entity((#[trigger] a[i]).data, b[i].data)
}

/// Fragments that are the same, one by one.
pub open spec fn same_fragments(
    a: Seq<ParsedModel<FragmentModel>>,
    b: Seq<ParsedModel<FragmentModel>>,
) -> bool {
    a.len() == b.len() && forall|i: int|
        0 <= i < a.len() ==> same_fragment((#[trigger] a[i]).data, b[i].data)
}

/// Entrypoints that are the same, one by one.
pub open spec fn same_entrypoints(
    a: Seq<ParsedModel<EntrypointModel>>,
    b: Seq<ParsedModel<EntrypointModel>>,
) -> bool {
    a.len() == b.len() && forall|i: int|
        0 <= i < a.len() ==> same_entrypoint((#[trigger] a[i]).data, b[i].data)
}

/// Reading the entities of a file back, from the `j`-th on.
proof fn lemma_read_entities_from(
    src: Source,
    k: int,
    entities: Seq<ParsedModel<EntityModel>>,
    j: int,
    read: Seq<ParsedModel<EntityModel>>,
) -> (all: Seq<ParsedModel<EntityModel>>)
    requires
        reads(src, k, entities_pieces(entities, none(), entities.len())),
        wf_entities(entities),
        0 <= j <= entities.len(),
        same_entities(read, entities.take(j)),
    ensures
        src.statements_at(
            k + entities_pieces(entities, none(), j as nat).len(),
            statements_in_order(read, Seq::empty(), Seq::empty()),
        ) == src.statements_at(
            k + entities_pieces(entities, none(), entities.len()).len(),
            statements_in_order(all, Seq::empty(), Seq::empty()),
        ),
        same_entities(all, entities),
    decreases entities.len() - j,
{
    let n = entities.len();
    let at = k + entities_pieces(entities, none(), j as nat).len();
    if j == n {
        assert(entities.take(j) =~= entities);
        read
    } else {
        lemma_reads_entity(src, k, entities, n, j);
        let m = lemma_read_entity(src, at, entities[j].data, none(), "\n"@);
        let grown = read.push(m);
        assert(same_entities(grown, entities.take(j + 1))) by {
            assert forall|i: int| 0 <= i < grown.len() implies same_entity(
                (#[trigger] grown[i]).data,
                entities.take(j + 1)[i].data,
            ) by {
                if i < j {
                    assert(grown[i] == read[i]);
                    assert(entities.take(j)[i] == entities[i]);
                }
            }
        }
        assert(statements_in_order(read, Seq::empty(), Seq::empty()).push(
            StatementModel::Entity(m),
        ) =~= statements_in_order(grown, Seq::empty(), Seq::empty()));
        lemma_read_entities_from(src, k, entities, j + 1, grown)
    }
}

/// Reading the fragments of a file back, from the `j`-th on.
proof fn lemma_read_fragments_from(
    src: Source,
    k: int,
    fragments: Seq<ParsedModel<FragmentModel>>,
    j: int,
    entities: Seq<ParsedModel<EntityModel>>,
    read: Seq<ParsedModel<FragmentModel>>,
) -> (all: Seq<ParsedModel<FragmentModel>>)
    requires
        reads(src, k, fragments_pieces(fragments, none(), fragments.len())),
        wf_fragments(fragments),
        0 <= j <= fragments.len(),
        same_fragments(read, fragments.take(j)),
    ensures
        src.statements_at(
            k + fragments_pieces(fragments, none(), j as nat).len(),
            statements_in_order(entities, read, Seq::empty()),
        ) == src.statements_at(
            k + fragments_pieces(fragments, none(), fragments.len()).len(),
            statements_in_order(entities, all, Seq::empty()),
        ),
        same_fragments(all, fragments),
    decreases fragments.len() - j,
{
    let n = fragments.len();
    let at = k + fragments_pieces(fragments, none(), j as nat).len();
    if j == n {
        assert(fragments.take(j) =~= fragments);
        read
    } else {
        lemma_keywords();
        lemma_reads_fragment(src, k, fragments, n, j);
        let m = lemma_read_fragment(src, at, fragments[j].data, none(), "\n"@);
        let grown = read.push(m);
        assert(same_fragments(grown, fragments.take(j + 1))) by {
            assert forall|i: int| 0 <= i < grown.len() implies same_fragment(
                (#[trigger] grown[i]).data,
                fragments.take(j + 1)[i].data,
            ) by {
                if i < j {
                    assert(grown[i] == read[i]);
                    assert(fragments.take(j)[i] == fragments[i]);
                }
            }
        }
        assert(statements_in_order(entities, read, Seq::empty()).push(
            StatementModel::Fragment(m),
        ) =~= statements_in_order(entities, grown, Seq::empty()));
        lemma_read_fragments_from(src, k, fragments, j + 1, entities, grown)
    }
}

/// Reading the entrypoints of a file back, from the `j`-th on.
proof fn lemma_read_entrypoints_from(
    src: Source,
    k: int,
    entrypoints: Seq<ParsedModel<EntrypointModel>>,
    lead: Seq<char>,
    j: int,
    entities: Seq<ParsedModel<EntityModel>>,
    fragments: Seq<ParsedModel<FragmentModel>>,
    read: Seq<ParsedModel<EntrypointModel>>,
) -> (all: Seq<ParsedModel<EntrypointModel>>)
    requires
        reads(src, k, entrypoints_pieces(entrypoints, none(), lead, entrypoints.len())),
        wf_entrypoints(entrypoints),
        0 <= j <= entrypoints.len(),
        same_entrypoints(read, entrypoints.take(j)),
    ensures
        src.statements_at(
            k + entrypoints_pieces(entrypoints, none(), lead, j as nat).len(),
            statements_in_order(entities, fragments, read),
        ) == src.statements_at(
            k + entrypoints_pieces(entrypoints, none(), lead, entrypoints.len()).len(),
            statements_in_order(entities, fragments, all),
        ),
        same_entrypoints(all, entrypoints),
    decreases entrypoints.len() - j,
{
    let n = entrypoints.len();
    let at = k + entrypoints_pieces(entrypoints, none(), lead, j as nat).len();
    if j == n {
        assert(entrypoints.take(j) =~= entrypoints);
        read
    } else {
        lemma_reads_entrypoint(src, k, entrypoints, lead, n, j);
        let m = lemma_read_entrypoint(
            src,
            at,
            entrypoints[j].data,
            none(),
            rule_lead(j, lead),
            "\n"@,
        );
        let grown = read.push(m);
        assert(same_entrypoints(grown, entrypoints.take(j + 1))) by {
            assert forall|i: int| 0 <= i < grown.len() implies same_entrypoint(
                (#[trigger] grown[i]).data,
                entrypoints.take(j + 1)[i].data,
            ) by {
                if i < j {
                    assert(grown[i] == read[i]);
                    assert(entrypoints.take(j)[i] == entrypoints[i]);
                }
            }
        }
        assert(statements_in_order(entities, fragments, read).push(
            StatementModel::Entrypoint(m),
        ) =~= statements_in_order(entities, fragments, grown));
        lemma_read_entrypoints_from(src, k, entrypoints, lead, j + 1, entities, fragments, grown)
    }
}

/// Statements without comments keep no documentation.
proof fn lemma_attach_plain(statements: Seq<StatementModel>, n: nat)
    requires
        n <= statements.len(),
        forall|i: int| 0 <= i < statements.len() ==> !((#[trigger] statements[i]) is Comment),
    ensures
        attach_state(statements, n).1 == Seq::<Seq<char>>::empty(),
        attach_state(statements, n).0.len() == n,
        forall|i: int|
            0 <= i < n ==> #[trigger] attach_state(statements, n).0[i] == with_docstring(
                statements[i],
                None,
            ),
    decreases n,
{
    if n > 0 {
        lemma_attach_plain(statements, (n - 1) as nat);
        assert(docstring_of(Seq::<Seq<char>>::empty()).is_none());
    }
}

/// The entities, fragments and entrypoints among statements in order.
proof fn lemma_assemble_in_order(
    entities: Seq<ParsedModel<EntityModel>>,
    fragments: Seq<ParsedModel<FragmentModel>>,
    entrypoints: Seq<ParsedModel<EntrypointModel>>,
    n: nat,
)
    requires
        n <= entities.len() + fragments.len() + entrypoints.len(),
    ensures
        ({
            let s = statements_in_order(entities, fragments, entrypoints);
            let ne = entities.len();
            let nf = fragments.len();
            &&& entities_of(s, n) == (if n <= ne {
                entities.take(n as int)
            } else {
                entities
            })
            &&& fragments_of(s, n) == (if n <= ne {
                Seq::empty()
            } else if n <= ne + nf {
                fragments.take(n - ne)
            } else {
                fragments
            })
            &&& entrypoints_of(s, n) == (if n <= ne + nf {
                Seq::empty()
            } else {
                entrypoints.take(n - ne - nf)
            })
        }),
    decreases n,
{
    let s = statements_in_order(entities, fragments, entrypoints);
    let ne = entities.len();
    let nf = fragments.len();
    if n == 0 {
        assert(entities.take(0) =~= Seq::<ParsedModel<EntityModel>>::empty());
    } else {
        lemma_assemble_in_order(entities, fragments, entrypoints, (n - 1) as nat);
        if n <= ne {
            assert(s[n - 1] == StatementModel::Entity(entities[n - 1]));
            assert(entities.take(n as int) =~= entities.take(n - 1).push(entities[n - 1]));
        } else if n <= ne + nf {
            assert(s[n - 1] == StatementModel::Fragment(fragments[n - 1 - ne]));
            assert(entities.take(ne as int) =~= entities);
            assert(fragments.take(0) =~= Seq::<ParsedModel<FragmentModel>>::empty());
            assert(fragments.take(n - ne) =~= fragments.take(n - 1 - ne).push(
                fragments[n - 1 - ne],
            ));
        } else {
            assert(s[n - 1] == StatementModel::Entrypoint(entrypoints[n - 1 - ne - nf]));
            assert(entities.take(ne as int) =~= entities);
            assert(fragments.take(nf as int) =~= fragments);
            assert(entrypoints.take(0) =~= Seq::<ParsedModel<EntrypointModel>>::empty());
            assert(entrypoints.take(n - ne - nf) =~= entrypoints.take(n - 1 - ne - nf).push(
                entrypoints[n - 1 - ne - nf],
            ));
        }
    }
}

/// The text of a file and its tokens.
proof fn lemma_file_source(file: RuuLangFileModel)
    requires
        wf_file(file),
        encode_utf8(file_text(file, none())).len() + 8 <= usize::MAX,
    ensures
        pieces_ok(file_pieces(file)),
        reads(source_of(file_pieces(file)), 0, file_pieces(file)),
        source_of(file_pieces(file)).tokens.len() == file_pieces(file).len(),
        source_of(file_pieces(file)).bytes == encode_utf8(file_text(file, none())),
        tokens_of(encode_utf8(file_text(file, none()))) == Ok::<Seq<Token>, usize>(
            source_of(file_pieces(file)).tokens,
        ),
{
    let ps = file_pieces(file);
    lemma_file(file);
    lemma_lex_pieces(ps);
    lemma_source_reads(ps);
}

/// The statements that the tokens of a file are read as.
proof fn lemma_file_statements(file: RuuLangFileModel) -> (read: (
    Seq<ParsedModel<EntityModel>>,
    Seq<ParsedModel<FragmentModel>>,
    Seq<ParsedModel<EntrypointModel>>,
))
    requires
        wf_file(file),
        reads(source_of(file_pieces(file)), 0, file_pieces(file)),
        source_of(file_pieces(file)).tokens.len() == file_pieces(file).len(),
    ensures
        source_of(file_pieces(file)).statements_at(0, Seq::empty()) == Parse::Done(
            statements_in_order(read.0, read.1, read.2),
            file_pieces(file).len() as int,
        ),
        same_entities(read.0, file.entities),
        same_fragments(read.1, file.fragments),
        same_entrypoints(read.2, file.entrypoints),
{
    let ps = file_pieces(file);
    let src = source_of(ps);
    let a0 = entities_pieces(file.entities, none(), file.entities.len());
    let a1 = fragments_pieces(file.fragments, none(), file.fragments.len());
    let a2 = entrypoints_pieces(file.entrypoints, none(), gap(file), file.entrypoints.len());
    lemma_reads_split(src, 0, a0 + a1, a2);
    lemma_reads_split(src, 0, a0, a1);
    assert(file.entities.take(0) =~= Seq::<ParsedModel<EntityModel>>::empty());
    assert(file.fragments.take(0) =~= Seq::<ParsedModel<FragmentModel>>::empty());
    assert(file.entrypoints.take(0) =~= Seq::<ParsedModel<EntrypointModel>>::empty());
    let es = lemma_read_entities_from(src, 0, file.entities, 0, Seq::empty());
    let fs = lemma_read_fragments_from(src, a0.len() as int, file.fragments, 0, es, Seq::empty());
    let eps = lemma_read_entrypoints_from(
        src,
        (a0.len() + a1.len()) as int,
        file.entrypoints,
        gap(file),
        0,
        es,
        fs,
        Seq::empty(),
    );
    assert(statements_in_order(
        Seq::<ParsedModel<EntityModel>>::empty(),
        Seq::<ParsedModel<FragmentModel>>::empty(),
        Seq::<ParsedModel<EntrypointModel>>::empty(),
    ) =~= Seq::<StatementModel>::empty());
    assert(ps.len() == a0.len() + a1.len() + a2.len());
    (es, fs, eps)
}

/// The file that statements in order, without comments, make up.
proof fn lemma_file_of_statements(
    es: Seq<ParsedModel<EntityModel>>,
    fs: Seq<ParsedModel<FragmentModel>>,
    eps: Seq<ParsedModel<EntrypointModel>>,
    file: RuuLangFileModel,
)
    requires
        same_entities(es, file.entities),
        same_fragments(fs, file.fragments),
        same_entrypoints(eps, file.entrypoints),
    ensures
        same_file(assembled_file(attached(statements_in_order(es, fs, eps))), file),
{
    let statements = statements_in_order(es, fs, eps);
    lemma_attach_plain(statements, statements.len());
    let plain = attach_state(statements, statements.len()).0;
    assert(attached(statements) =~= plain);
    let es2 = Seq::new(es.len(), |i: int| ParsedModel { docstring: None, ..es[i] });
    let fs2 = Seq::new(fs.len(), |i: int| ParsedModel { docstring: None, ..fs[i] });
    let eps2 = Seq::new(eps.len(), |i: int| ParsedModel { docstring: None, ..eps[i] });
    assert(plain =~= statements_in_order(es2, fs2, eps2));
    lemma_assemble_in_order(es2, fs2, eps2, plain.len());
    let read = assembled_file(plain);
    assert(es2.take(es2.len() as int) =~= es2);
    assert(fs2.take(fs2.len() as int) =~= fs2);
    assert(eps2.take(eps2.len() as int) =~= eps2);
    assert(read.entities == es2);
    assert(read.fragments == fs2);
    assert(read.entrypoints == eps2);
}

/// A file that is written as source text reads back as the same file, but
/// for byte ranges and documentation.
pub proof fn lemma_written_file_reads_back(file: RuuLangFileModel)
    requires
        wf_file(file),
        encode_utf8(file_text(file, repeat(level(), 0))).len() + 8 <= usize::MAX,
    ensures
        parsed(encode_utf8(file_text(file, repeat(level(), 0)))).is_ok(),
        same_file(
            assembled_file(parsed(encode_utf8(file_text(file, repeat(level(), 0)))).unwrap()),
            file,
        ),
{
    assert(repeat(level(), 0) == none());
    lemma_file_source(file);
    let read = lemma_file_statements(file);
    lemma_file_of_statements(read.0, read.1, read.2, file);
    let src = source_of(file_pieces(file));
    assert(Source { bytes: src.bytes, tokens: src.tokens } == src);
}

/// The round trip of a source text: where a text reads as a file, that file,
/// written as source text, reads back as the same file, but for byte ranges
/// and documentation.
pub proof fn lemma_round_trip(text: Seq<char>)
    requires
        parsed(encode_utf8(text)).is_ok(),
        encode_utf8(
            file_text(assembled_file(parsed(encode_utf8(text)).unwrap()), repeat(level(), 0)),
        ).len() + 8 <= usize::MAX,
    ensures
        parsed(
            encode_utf8(
                file_text(assembled_file(parsed(encode_utf8(text)).unwrap()), repeat(level(), 0)),
            ),
        ).is_ok(),
        same_file(
            assembled_file(
                parsed(
                    encode_utf8(
                        file_text(
                            assembled_file(parsed(encode_utf8(text)).unwrap()),
                            repeat(level(), 0),
                        ),
                    ),
                ).unwrap(),
            ),
            assembled_file(parsed(encode_utf8(text)).unwrap()),
        ),
{
    encode_utf8_valid_utf8(text);
    lemma_read_file_is_well_formed(encode_utf8(text));
    lemma_written_file_reads_back(assembled_file(parsed(encode_utf8(text)).unwrap()));
}

} // verus!
