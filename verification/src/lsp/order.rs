//! What an editor is shown at a position does not depend on the order in
//! which the files of the workspace, and the entity declarations of
//! different files, are kept.

use vstd::prelude::*;
use crate::codegen::codegen::lemma_representative;
use crate::codegen::determinism::{lemma_same_target_any_order, same_per_file};
use crate::codegen::python::target_entity;
use crate::lsp::server::{
    entity_named, hover_step, hover_text, hover_walk, lemma_standing, HoverState,
};
use crate::utils::order::{
    lemma_le_antisymmetric, lemma_le_reflexive, lemma_le_total, lemma_le_transitive, text_le,
};
use crate::workspace::patching::{distinct_paths, lemma_position, lemma_position_at};
use crate::parser::parse_location::{ContextModel, DescentModel, Parsed};
use crate::parser::schema_ast::Entity;
use crate::utils::with_origin::WithOrigin;
use crate::workspace::workspace::{
    entity_models, fragment_file, fragment_named, holds_fragment, position_of, TaggedFile,
    Workspace, WorkspaceModel,
};

verus! {

/// The declaration that stands for an entity, as hovering finds it, is the
/// one that code generation finds.
pub proof fn lemma_entity_named(entities: Seq<WithOrigin<Parsed<Entity>>>, name: Seq<char>)
    ensures
        entity_named(entity_models(entities), name) == target_entity(entities, name),
{
    lemma_standing(entities, name, entities.len());
    lemma_representative(entities, name, entities.len());
}

/// Whether two tables hold the same entries, each path once, in whatever
/// order.
pub open spec fn same_entries<A>(a: Seq<(Seq<char>, A)>, b: Seq<(Seq<char>, A)>) -> bool {
    &&& distinct_paths(a)
    &&& distinct_paths(b)
    &&& forall|i: int| 0 <= i < a.len() ==> b.contains(#[trigger] a[i])
    &&& forall|j: int| 0 <= j < b.len() ==> a.contains(#[trigger] b[j])
}

/// Tables with the same entries hold the same entry for a path, or both
/// none.
pub proof fn lemma_same_entry<A>(a: Seq<(Seq<char>, A)>, b: Seq<(Seq<char>, A)>, path: Seq<char>)
    requires
        same_entries(a, b),
    ensures
        (position_of(a, path, 0) < a.len()) == (position_of(b, path, 0) < b.len()),
        position_of(a, path, 0) < a.len() ==> a[position_of(a, path, 0) as int] == b[position_of(
            b,
            path,
            0,
        ) as int],
{
    lemma_position(a, path, 0);
    lemma_position(b, path, 0);
    let pa = position_of(a, path, 0) as int;
    let pb = position_of(b, path, 0) as int;
    if pa < a.len() {
        assert(b.contains(a[pa]));
        let j = choose|j: int| 0 <= j < b.len() && b[j] == a[pa];
        lemma_position_at(b, j);
    }
    if pb < b.len() {
        assert(a.contains(b[pb]));
        let i = choose|i: int| 0 <= i < a.len() && a[i] == b[pb];
        lemma_position_at(a, i);
    }
}

/// What makes a file the one whose fragment counts: it holds such a
/// fragment, and no file that holds one has a path that comes earlier.
pub proof fn lemma_fragment_file(files: Seq<TaggedFile>, name: Seq<char>, entity: Seq<char>, n: nat)
    requires
        n <= files.len(),
    ensures
        match fragment_file(files, name, entity, n) {
            Some(i) => {
                &&& 0 <= i < n
                &&& holds_fragment(files[i], name, entity)
                &&& forall|j: int|
                    0 <= j < n && holds_fragment(#[trigger] files[j], name, entity) ==> text_le(
                        files[i].0,
                        files[j].0,
                    )
            },
            None => forall|j: int| 0 <= j < n ==> !holds_fragment(#[trigger] files[j], name, entity),
        },
    decreases n,
{
    if n > 0 {
        lemma_fragment_file(files, name, entity, (n - 1) as nat);
        let last = files[n - 1];
        if holds_fragment(last, name, entity) {
            match fragment_file(files, name, entity, (n - 1) as nat) {
                Some(i) => {
                    if text_le(files[i].0, last.0) {
                    } else {
                        lemma_le_total(files[i].0, last.0);
                        assert forall|j: int|
                            0 <= j < n && holds_fragment(
                                #[trigger] files[j],
                                name,
                                entity,
                            ) implies text_le(last.0, files[j].0) by {
                            if j < n - 1 {
                                lemma_le_transitive(last.0, files[i].0, files[j].0);
                            } else {
                                lemma_le_reflexive(last.0);
                            }
                        }
                    }
                },
                None => {
                    lemma_le_reflexive(last.0);
                },
            }
        }
    }
}

/// Tables of files with the same entries find the same fragment under every
/// name.
pub proof fn lemma_same_fragment_named(
    a: Seq<TaggedFile>,
    b: Seq<TaggedFile>,
    name: Seq<char>,
    entity: Seq<char>,
)
    requires
        same_entries(a, b),
    ensures
        fragment_named(a, name, entity) == fragment_named(b, name, entity),
{
    lemma_fragment_file(a, name, entity, a.len());
    lemma_fragment_file(b, name, entity, b.len());
    match (fragment_file(a, name, entity, a.len()), fragment_file(b, name, entity, b.len())) {
        (Some(i), Some(j)) => {
            assert(b.contains(a[i]));
            let j2 = choose|j2: int| 0 <= j2 < b.len() && b[j2] == a[i];
            assert(holds_fragment(b[j2], name, entity));
            assert(a.contains(b[j]));
            let i2 = choose|i2: int| 0 <= i2 < a.len() && a[i2] == b[j];
            assert(holds_fragment(a[i2], name, entity));
            lemma_le_antisymmetric(a[i].0, b[j].0);
            if j2 < j {
                assert(b[j2].0 != b[j].0);
            } else if j < j2 {
                assert(b[j].0 != b[j2].0);
            }
        },
        (Some(i), None) => {
            assert(b.contains(a[i]));
            let j2 = choose|j2: int| 0 <= j2 < b.len() && b[j2] == a[i];
            assert(holds_fragment(b[j2], name, entity));
        },
        (None, Some(j)) => {
            assert(a.contains(b[j]));
            let i2 = choose|i2: int| 0 <= i2 < a.len() && a[i2] == b[j];
            assert(holds_fragment(a[i2], name, entity));
        },
        (None, None) => {},
    }
}

/// Two workspaces find the same declaration under every entity name, and
/// the same fragment under every pair of names.
pub open spec fn same_entities_named(a: WorkspaceModel, b: WorkspaceModel) -> bool {
    &&& forall|name: Seq<char>| #[trigger]
        entity_named(a.entities, name) == entity_named(b.entities, name)
    &&& forall|name: Seq<char>, entity: Seq<char>| #[trigger]
        fragment_named(a.files, name, entity) == fragment_named(b.files, name, entity)
}

proof fn lemma_same_step(a: WorkspaceModel, b: WorkspaceModel, state: HoverState, context: ContextModel)
    requires
        same_entities_named(a, b),
    ensures
        hover_step(a, state, context) == hover_step(b, state, context),
{
}

proof fn lemma_same_walk(a: WorkspaceModel, b: WorkspaceModel, stack: Seq<DescentModel>, n: nat)
    requires
        same_entities_named(a, b),
    ensures
        hover_walk(a, stack, n) == hover_walk(b, stack, n),
    decreases n,
{
    if n > 0 && n <= stack.len() {
        lemma_same_walk(a, b, stack, (n - 1) as nat);
        lemma_same_step(a, b, hover_walk(a, stack, (n - 1) as nat), stack[n - 1].context);
    }
}

/// Two workspaces that hold the same texts and the same files, in whatever
/// order, and in which every file has the same entity declarations, show
/// the same at every position: the order in which the files were read makes
/// no difference. A workspace after a patch and the workspace that a reload
/// gives with the new text in the file are two such.
pub proof fn lemma_hover_any_order(a: Workspace, b: Workspace, path: Seq<char>, location: usize)
    requires
        same_entries(a@.sources, b@.sources),
        same_entries(a@.files, b@.files),
        same_per_file(a.entities@, b.entities@),
    ensures
        hover_text(a@, path, location) == hover_text(b@, path, location),
{
    assert forall|name: Seq<char>| #[trigger]
        entity_named(a@.entities, name) == entity_named(b@.entities, name) by {
        lemma_entity_named(a.entities@, name);
        lemma_entity_named(b.entities@, name);
        lemma_same_target_any_order(a.entities@, b.entities@, name);
    }
    assert forall|name: Seq<char>, entity: Seq<char>| #[trigger]
        fragment_named(a@.files, name, entity) == fragment_named(b@.files, name, entity) by {
        lemma_same_fragment_named(a@.files, b@.files, name, entity);
    }
    lemma_same_entry(a@.files, b@.files, path);
    lemma_same_entry(a@.sources, b@.sources, path);
    let at = position_of(a@.files, path, 0);
    if at < a@.files.len() {
        match a@.files[at as int].1 {
            Ok(file) => match crate::parser::descent::file_stack(file, (location, location)) {
                Some(stack) => {
                    lemma_same_walk(a@, b@, stack, stack.len());
                },
                None => {},
            },
            Err(_) => {},
        }
    }
}

} // verus!
