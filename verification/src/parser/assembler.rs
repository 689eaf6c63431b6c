//! From the statements of a text to its schema and its file.

use vstd::prelude::*;
use crate::parser::parse_location::{Parsed, ParsedModel};
use crate::parser::parser_constructs::{ParserStatement, StatementModel};
use crate::parser::ruulang_ast::{
    Entrypoint, EntrypointModel, Fragment, FragmentModel, RuuLangFile, RuuLangFileModel,
};
use crate::parser::schema_ast::{Entity, EntityModel, RuuLangSchema};
use crate::utils::text::{lemma_views_push, views};

verus! {

/// The entities among the first `n` statements, in order.
pub open spec fn entities_of(statements: Seq<StatementModel>, n: nat) -> Seq<
    ParsedModel<EntityModel>,
>
    decreases n,
{
    if n == 0 || n > statements.len() {
        Seq::empty()
    } else {
        match statements[n - 1] {
            StatementModel::Entity(e) => entities_of(statements, (n - 1) as nat).push(e),
            _ => entities_of(statements, (n - 1) as nat),
        }
    }
}

/// The entrypoints among the first `n` statements, in order.
pub open spec fn entrypoints_of(statements: Seq<StatementModel>, n: nat) -> Seq<
    ParsedModel<EntrypointModel>,
>
    decreases n,
{
    if n == 0 || n > statements.len() {
        Seq::empty()
    } else {
        match statements[n - 1] {
            StatementModel::Entrypoint(e) => entrypoints_of(statements, (n - 1) as nat).push(e),
            _ => entrypoints_of(statements, (n - 1) as nat),
        }
    }
}

/// The fragments among the first `n` statements, in order.
pub open spec fn fragments_of(statements: Seq<StatementModel>, n: nat) -> Seq<
    ParsedModel<FragmentModel>,
>
    decreases n,
{
    if n == 0 || n > statements.len() {
        Seq::empty()
    } else {
        match statements[n - 1] {
            StatementModel::Fragment(f) => fragments_of(statements, (n - 1) as nat).push(f),
            _ => fragments_of(statements, (n - 1) as nat),
        }
    }
}

/// The file that a list of statements makes up: its entrypoints, its
/// fragments and its entities, each kind in the order of the text. Comments
/// are left out.
pub open spec fn assembled_file(statements: Seq<StatementModel>) -> RuuLangFileModel {
    RuuLangFileModel {
        entrypoints: entrypoints_of(statements, statements.len()),
        fragments: fragments_of(statements, statements.len()),
        entities: entities_of(statements, statements.len()),
    }
}

/// Statements that can be put together to a schema and a file.
pub trait ParserAssemble {
    spec fn statements(&self) -> Seq<StatementModel>;

    /// The schema and the file that the statements make up.
    fn assemble(&self) -> (r: (RuuLangSchema, RuuLangFile))
        ensures
            r.0@ == entities_of(self.statements(), self.statements().len()),
            r.1@ == assembled_file(self.statements()),
    ;
}

impl ParserAssemble for Vec<ParserStatement> {
    open spec fn statements(&self) -> Seq<StatementModel> {
        views(self@)
    }

    fn assemble(&self) -> (r: (RuuLangSchema, RuuLangFile)) {
        let mut fragments: Vec<Parsed<Fragment>> = Vec::new();
        let mut entrypoints: Vec<Parsed<Entrypoint>> = Vec::new();
        let mut entities: Vec<Parsed<Entity>> = Vec::new();
        let mut declared: Vec<Parsed<Entity>> = Vec::new();
        let ghost all = views(self@);
        assert(views(fragments@) =~= Seq::empty());
        assert(views(entrypoints@) =~= Seq::empty());
        assert(views(entities@) =~= Seq::empty());
        assert(views(declared@) =~= Seq::empty());
        let mut i: usize = 0;
        while i < self.len()
            invariant
                i <= self@.len(),
                all == views(self@),
                views(fragments@) == fragments_of(all, i as nat),
                views(entrypoints@) == entrypoints_of(all, i as nat),
                views(entities@) == entities_of(all, i as nat),
                views(declared@) == entities_of(all, i as nat),
            decreases self@.len() - i,
        {
            assert(all[i as int] == self@[i as int]@);
            match &self[i] {
                ParserStatement::Comment(_) => {},
                ParserStatement::Fragment(fragment) => {
                    let copy = fragment.clone();
                    proof {
                        lemma_views_push(fragments@, copy);
                    }
                    fragments.push(copy);
                },
                ParserStatement::Entrypoint(entrypoint) => {
                    let copy = entrypoint.clone();
                    proof {
                        lemma_views_push(entrypoints@, copy);
                    }
                    entrypoints.push(copy);
                },
                ParserStatement::Entity(entity) => {
                    let copy = entity.clone();
                    let second = entity.clone();
                    proof {
                        lemma_views_push(entities@, copy);
                        lemma_views_push(declared@, second);
                    }
                    entities.push(copy);
                    declared.push(second);
                },
            }
            i += 1;
        }
        let schema = RuuLangSchema { entities: declared };
        let file = RuuLangFile { entrypoints, fragments, entities };
        (schema, file)
    }
}

} // verus!
