//! The symbol index of a workspace and the validation of a file against it.
//!
//! An entity may be declared in several files. The index holds one record per
//! entity name: the relationships of all its declarations, where the first
//! declaration of a relationship name stays and later ones are dropped, and
//! the grants of all its declarations. Fragments are known by their name and
//! the entity they are for; a second fragment under the same pair changes
//! nothing that validation reads.
//!
//! The index takes the declarations file by file, the files in the order of
//! a dictionary by their paths, and the declarations of a file in the order
//! in which they stand there. So the first declaration of a relationship
//! name is the same whatever the order in which the files were read.

use vstd::prelude::*;
use crate::parser::parse_location::{IdentifierModel, Parsed, ParsedModel};
use crate::parser::ruulang_ast::{
    lemma_rule_children, Entrypoint, EntrypointModel, Fragment, FragmentModel, Rule, RuleModel,
    RuuLangFile, RuuLangFileModel,
};
use crate::parser::schema_ast::{Entity, EntityModel, Relationship, RelationshipModel};
use crate::typechecker::tc_ast::{empty_record, relationship_key, TcEntity, TcEntityModel};
use crate::utils::error::{general, Result, RuuLangError, RuuLangErrorModel, TypecheckError};
use crate::utils::order::{sort_texts, text_order};
use crate::utils::text::{
    join, join_texts, lemma_views_add, lemma_views_push, same_text, texts, views,
};
use crate::utils::trie::{has_prefix, Path};
use crate::utils::with_origin::WithOrigin;

verus! {

/// The mathematical value of a [`Typechecker`]: the entity records by name,
/// and the pairs of fragment name and entity name that are declared.
pub struct IndexModel {
    pub entities: Map<Seq<char>, TcEntityModel>,
    pub fragments: Set<(Seq<char>, Seq<char>)>,
}

/// A node with `origin` as its file name.
pub open spec fn retag<M>(p: ParsedModel<M>, origin: Seq<char>) -> ParsedModel<M> {
    ParsedModel { loc: p.loc, file_name: Some(origin), docstring: p.docstring, data: p.data }
}

/// `known` after the first `n` of `rels` were declared in `origin`, in order:
/// a name that is taken stays as it is.
pub open spec fn merge_relationships(
    known: Map<Seq<char>, ParsedModel<RelationshipModel>>,
    rels: Seq<ParsedModel<RelationshipModel>>,
    origin: Seq<char>,
    n: nat,
) -> Map<Seq<char>, ParsedModel<RelationshipModel>>
    decreases n,
{
    if n == 0 || n > rels.len() {
        known
    } else {
        let before = merge_relationships(known, rels, origin, (n - 1) as nat);
        let rel = rels[n - 1];
        if before.contains_key(relationship_key(rel)) {
            before
        } else {
            before.insert(relationship_key(rel), retag(rel, origin))
        }
    }
}

/// `known` after the first `n` of `grants` were declared in `origin`, in
/// order: an empty path is skipped, and a path that is stored stays as it is.
pub open spec fn merge_grants(
    known: Map<Path, ParsedModel<Path>>,
    grants: Seq<ParsedModel<Path>>,
    origin: Seq<char>,
    n: nat,
) -> Map<Path, ParsedModel<Path>>
    decreases n,
{
    if n == 0 || n > grants.len() {
        known
    } else {
        let before = merge_grants(known, grants, origin, (n - 1) as nat);
        let grant = grants[n - 1];
        if grant.data.len() == 0 || before.contains_key(grant.data) {
            before
        } else {
            before.insert(grant.data, retag(grant, origin))
        }
    }
}

/// The record `rec` after one more declaration of its entity, found in the
/// file `origin`.
pub open spec fn absorb(rec: TcEntityModel, origin: Seq<char>, decl: EntityModel) -> TcEntityModel {
    TcEntityModel {
        name: rec.name,
        relationships: merge_relationships(
            rec.relationships,
            decl.relationships,
            origin,
            decl.relationships.len(),
        ),
        grants: merge_grants(rec.grants, decl.grants, origin, decl.grants.len()),
    }
}

/// The name of the entity that a declaration declares.
pub open spec fn declared_name(decl: WithOrigin<Parsed<Entity>>) -> Seq<char> {
    decl.data@.data.name.data.value
}

/// The entity records `before` after one more declaration.
pub open spec fn index_step(
    before: Map<Seq<char>, TcEntityModel>,
    decl: WithOrigin<Parsed<Entity>>,
) -> Map<Seq<char>, TcEntityModel> {
    let name = declared_name(decl);
    let rec = if before.contains_key(name) {
        before[name]
    } else {
        empty_record(name)
    };
    before.insert(name, absorb(rec, decl.origin@, decl.data@.data))
}

/// The entity records after the first `n` declarations, in order.
pub open spec fn index_entities(entities: Seq<WithOrigin<Parsed<Entity>>>, n: nat) -> Map<
    Seq<char>,
    TcEntityModel,
>
    decreases n,
{
    if n == 0 || n > entities.len() {
        Map::empty()
    } else {
        index_step(index_entities(entities, (n - 1) as nat), entities[n - 1])
    }
}

/// The paths of the files that the first `n` declarations come from, each
/// once, in the order in which they first occur.
pub open spec fn origins(entities: Seq<WithOrigin<Parsed<Entity>>>, n: nat) -> Seq<Seq<char>>
    decreases n,
{
    if n == 0 || n > entities.len() {
        Seq::empty()
    } else {
        let before = origins(entities, (n - 1) as nat);
        if before.contains(entities[n - 1].origin@) {
            before
        } else {
            before.push(entities[n - 1].origin@)
        }
    }
}

/// The paths of the files that the declarations come from, each once, in the
/// order of a dictionary.
pub open spec fn file_order(entities: Seq<WithOrigin<Parsed<Entity>>>) -> Seq<Seq<char>> {
    origins(entities, entities.len()).sort_by(text_order())
}

/// The declarations among the first `n` that come from the file `origin`, in
/// order.
pub open spec fn of_file(
    entities: Seq<WithOrigin<Parsed<Entity>>>,
    origin: Seq<char>,
    n: nat,
) -> Seq<WithOrigin<Parsed<Entity>>>
    decreases n,
{
    if n == 0 || n > entities.len() {
        Seq::empty()
    } else if entities[n - 1].origin@ == origin {
        of_file(entities, origin, (n - 1) as nat).push(entities[n - 1])
    } else {
        of_file(entities, origin, (n - 1) as nat)
    }
}

/// The declarations that come from the first `k` of `files`, file by file.
pub open spec fn of_files(
    entities: Seq<WithOrigin<Parsed<Entity>>>,
    files: Seq<Seq<char>>,
    k: nat,
) -> Seq<WithOrigin<Parsed<Entity>>>
    decreases k,
{
    if k == 0 || k > files.len() {
        Seq::empty()
    } else {
        of_files(entities, files, (k - 1) as nat) + of_file(
            entities,
            files[k - 1],
            entities.len(),
        )
    }
}

/// The declarations in the order in which the index takes them: file by
/// file, the files in the order of a dictionary by their paths, the
/// declarations of a file as they stand.
pub open spec fn in_file_order(entities: Seq<WithOrigin<Parsed<Entity>>>) -> Seq<
    WithOrigin<Parsed<Entity>>,
> {
    of_files(entities, file_order(entities), file_order(entities).len())
}

/// The entity records of all of `entities`, taken in the order in which
/// they stand.
pub open spec fn index_all(entities: Seq<WithOrigin<Parsed<Entity>>>) -> Map<
    Seq<char>,
    TcEntityModel,
> {
    index_entities(entities, entities.len())
}

/// The records do not depend on what follows the declarations they are made
/// from.
pub proof fn lemma_index_prefix(
    a: Seq<WithOrigin<Parsed<Entity>>>,
    c: Seq<WithOrigin<Parsed<Entity>>>,
    n: nat,
)
    requires
        n <= a.len(),
        a.len() <= c.len(),
        forall|i: int| 0 <= i < a.len() ==> a[i] == c[i],
    ensures
        index_entities(c, n) == index_entities(a, n),
    decreases n,
{
    if n > 0 {
        lemma_index_prefix(a, c, (n - 1) as nat);
    }
}

/// One more declaration is one more step.
pub proof fn lemma_index_push(a: Seq<WithOrigin<Parsed<Entity>>>, decl: WithOrigin<Parsed<Entity>>)
    ensures
        index_all(a.push(decl)) == index_step(index_all(a), decl),
{
    lemma_index_prefix(a, a.push(decl), a.len());
}

/// The pair under which a fragment is known.
pub open spec fn fragment_key(fragment: ParsedModel<FragmentModel>) -> (Seq<char>, Seq<char>) {
    (fragment.data.name.data.value, fragment.data.for_entity.data.value)
}

/// The fragments of the first `n` of `fragments`, as pairs.
pub open spec fn file_fragments(fragments: Seq<ParsedModel<FragmentModel>>, n: int) -> Set<
    (Seq<char>, Seq<char>),
> {
    Set::new(
        |k: (Seq<char>, Seq<char>)|
            exists|j: int| 0 <= j < n && j < fragments.len() && fragment_key(#[trigger] fragments[j]) == k,
    )
}

/// The fragments of a file that was read, as pairs; none for a file that
/// could not be read.
pub open spec fn schema_fragments(schema: WithOrigin<Result<RuuLangFile>>) -> Set<
    (Seq<char>, Seq<char>),
> {
    match schema.data {
        Ok(file) => file_fragments(file@.fragments, file@.fragments.len() as int),
        Err(_) => Set::empty(),
    }
}

/// The fragments of the first `n` files, as pairs.
pub open spec fn index_fragments(schemas: Seq<WithOrigin<Result<RuuLangFile>>>, n: int) -> Set<
    (Seq<char>, Seq<char>),
> {
    Set::new(
        |k: (Seq<char>, Seq<char>)|
            exists|i: int|
                0 <= i < n && i < schemas.len() && (#[trigger] schema_fragments(
                    schemas[i],
                )).contains(k),
    )
}

/// The index of a workspace: what its entity declarations, taken file by
/// file in the order of a dictionary, and its files add up to.
pub open spec fn index_of(
    entities: Seq<WithOrigin<Parsed<Entity>>>,
    schemas: Seq<WithOrigin<Result<RuuLangFile>>>,
) -> IndexModel {
    IndexModel {
        entities: index_all(in_file_order(entities)),
        fragments: index_fragments(schemas, schemas.len() as int),
    }
}

/// The diagnostic with `message` at the place of `node`.
pub open spec fn at_node<M>(node: ParsedModel<M>, message: Seq<char>) -> RuuLangErrorModel {
    general(
        ParsedModel {
            loc: node.loc,
            file_name: node.file_name,
            docstring: node.docstring,
            data: message,
        },
    )
}

pub open spec fn unknown_entity_message(name: Seq<char>) -> Seq<char> {
    "Unable to find entity name: "@ + name
}

pub open spec fn disallowed_grant_message(entity: Seq<char>, grant: Path) -> Seq<char> {
    "Entity "@ + entity + " does not allow grant: "@ + join(grant, "."@)
}

pub open spec fn unknown_relationship_message(relationship: Seq<char>, entity: Seq<char>) -> Seq<
    char,
> {
    "Relationship "@ + relationship + " not found for entity "@ + entity
}

pub open spec fn invalid_grant_message(grant: Path) -> Seq<char> {
    "Invalid grant "@ + join(grant, "."@)
}

pub open spec fn unknown_fragment_message(fragment: Seq<char>, entity: Seq<char>) -> Seq<char> {
    "Unable to find fragment name: "@ + fragment + " for entity "@ + entity
}

/// Whether a rule names the wildcard relationship.
pub open spec fn is_wildcard(rule: ParsedModel<RuleModel>) -> bool {
    rule.data.relationship.data.value == "*"@
}

/// Whether `entity` allows `grant`: the grant is, or leads towards, one of the
/// entity's declared grants.
pub open spec fn allows(entity: TcEntityModel, grant: Path) -> bool {
    has_prefix(entity.grants.dom(), grant)
}

/// The diagnostics for the first `n` grants of a fragment for `entity`.
pub open spec fn fragment_grant_diagnostics(
    entity: TcEntityModel,
    grants: Seq<ParsedModel<Path>>,
    n: nat,
) -> Seq<RuuLangErrorModel>
    decreases n,
{
    if n == 0 || n > grants.len() {
        Seq::empty()
    } else {
        let before = fragment_grant_diagnostics(entity, grants, (n - 1) as nat);
        let grant = grants[n - 1];
        if allows(entity, grant.data) {
            before
        } else {
            before.push(at_node(grant, disallowed_grant_message(entity.name, grant.data)))
        }
    }
}

/// The diagnostics for the first `n` grants of a rule that leads to `entity`.
pub open spec fn rule_grant_diagnostics(
    entity: TcEntityModel,
    grants: Seq<ParsedModel<Path>>,
    n: nat,
) -> Seq<RuuLangErrorModel>
    decreases n,
{
    if n == 0 || n > grants.len() {
        Seq::empty()
    } else {
        let before = rule_grant_diagnostics(entity, grants, (n - 1) as nat);
        let grant = grants[n - 1];
        if allows(entity, grant.data) {
            before
        } else {
            before.push(at_node(grant, invalid_grant_message(grant.data)))
        }
    }
}

/// The diagnostics for the first `n` fragment includes of a rule that leads
/// to `entity`.
pub open spec fn include_diagnostics(
    ix: IndexModel,
    entity: TcEntityModel,
    includes: Seq<ParsedModel<IdentifierModel>>,
    n: nat,
) -> Seq<RuuLangErrorModel>
    decreases n,
{
    if n == 0 || n > includes.len() {
        Seq::empty()
    } else {
        let before = include_diagnostics(ix, entity, includes, (n - 1) as nat);
        let included = includes[n - 1];
        if ix.fragments.contains((included.data.value, entity.name)) {
            before
        } else {
            before.push(at_node(included, unknown_fragment_message(included.data.value, entity.name)))
        }
    }
}

/// The diagnostics for one rule, read with `scope` as the current entity.
///
/// A wildcard rule is accepted as it is. A rule whose relationship `scope`
/// does not declare is reported, and nothing below it is read. Otherwise the
/// relationship leads to an entity: if the index has no such entity, the
/// relationship is reported; else the rule's grants and fragment includes are
/// checked against that entity, and the rules below are read with it as the
/// current entity.
pub open spec fn rule_diagnostics(
    ix: IndexModel,
    scope: TcEntityModel,
    rule: ParsedModel<RuleModel>,
) -> Seq<RuuLangErrorModel>
    decreases rule, 0nat,
{
    let name = rule.data.relationship.data.value;
    if is_wildcard(rule) {
        Seq::empty()
    } else if !scope.relationships.contains_key(name) {
        seq![at_node(rule, unknown_relationship_message(name, scope.name))]
    } else {
        let rel = scope.relationships[name];
        let target_name = rel.data.entity_name.data.value;
        if !ix.entities.contains_key(target_name) {
            seq![at_node(rel, unknown_entity_message(target_name))]
        } else {
            let target = ix.entities[target_name];
            rule_grant_diagnostics(target, rule.data.grants, rule.data.grants.len())
                + include_diagnostics(
                ix,
                target,
                rule.data.include_fragments,
                rule.data.include_fragments.len(),
            ) + rules_diagnostics(ix, target, rule.data.rules, rule.data.rules.len())
        }
    }
}

/// The diagnostics for the first `n` of `rules`, each read with `scope` as
/// the current entity.
pub open spec fn rules_diagnostics(
    ix: IndexModel,
    scope: TcEntityModel,
    rules: Seq<ParsedModel<RuleModel>>,
    n: nat,
) -> Seq<RuuLangErrorModel>
    decreases rules, n,
{
    if n == 0 || n > rules.len() {
        Seq::empty()
    } else {
        rules_diagnostics(ix, scope, rules, (n - 1) as nat) + rule_diagnostics(
            ix,
            scope,
            rules[n - 1],
        )
    }
}

/// The diagnostics for one entrypoint.
pub open spec fn entrypoint_diagnostics(ix: IndexModel, entrypoint: ParsedModel<EntrypointModel>) -> Seq<
    RuuLangErrorModel,
> {
    let name = entrypoint.data.entrypoint.data.value;
    if !ix.entities.contains_key(name) {
        seq![at_node(entrypoint, unknown_entity_message(name))]
    } else {
        rules_diagnostics(ix, ix.entities[name], entrypoint.data.rules, entrypoint.data.rules.len())
    }
}

/// The diagnostics for one fragment.
pub open spec fn fragment_diagnostics(ix: IndexModel, fragment: ParsedModel<FragmentModel>) -> Seq<
    RuuLangErrorModel,
> {
    let name = fragment.data.for_entity.data.value;
    if !ix.entities.contains_key(name) {
        seq![at_node(fragment, unknown_entity_message(name))]
    } else {
        fragment_grant_diagnostics(
            ix.entities[name],
            fragment.data.grants,
            fragment.data.grants.len(),
        ) + rules_diagnostics(
            ix,
            ix.entities[name],
            fragment.data.rules,
            fragment.data.rules.len(),
        )
    }
}

/// The diagnostics for the first `n` fragments of a file.
pub open spec fn fragments_diagnostics(
    ix: IndexModel,
    fragments: Seq<ParsedModel<FragmentModel>>,
    n: nat,
) -> Seq<RuuLangErrorModel>
    decreases n,
{
    if n == 0 || n > fragments.len() {
        Seq::empty()
    } else {
        fragments_diagnostics(ix, fragments, (n - 1) as nat) + fragment_diagnostics(
            ix,
            fragments[n - 1],
        )
    }
}

/// The diagnostics for the first `n` entrypoints of a file.
pub open spec fn entrypoints_diagnostics(
    ix: IndexModel,
    entrypoints: Seq<ParsedModel<EntrypointModel>>,
    n: nat,
) -> Seq<RuuLangErrorModel>
    decreases n,
{
    if n == 0 || n > entrypoints.len() {
        Seq::empty()
    } else {
        entrypoints_diagnostics(ix, entrypoints, (n - 1) as nat) + entrypoint_diagnostics(
            ix,
            entrypoints[n - 1],
        )
    }
}

/// The diagnostics for a file: those of its fragments, then those of its
/// entrypoints.
pub open spec fn file_diagnostics(ix: IndexModel, file: RuuLangFileModel) -> Seq<RuuLangErrorModel> {
    fragments_diagnostics(ix, file.fragments, file.fragments.len()) + entrypoints_diagnostics(
        ix,
        file.entrypoints,
        file.entrypoints.len(),
    )
}

/// The diagnostic with `message` at the place of `node`.
fn diagnostic<T: View>(node: &Parsed<T>, message: String) -> (r: RuuLangError)
    ensures
        r@ == at_node(node@, message@),
{
    RuuLangError::TypecheckError(TypecheckError::GeneralError(node.as_with_data(message)))
}

/// Where the record named `name` is kept.
pub closed spec fn table_position(table: Seq<TcEntity>, name: Seq<char>) -> Option<int> {
    if exists|i: int| 0 <= i < table.len() && (#[trigger] table[i])@.name == name {
        Some(choose|i: int| 0 <= i < table.len() && (#[trigger] table[i])@.name == name)
    } else {
        None
    }
}

/// The records of a table, by name.
pub closed spec fn table_view(table: Seq<TcEntity>) -> Map<Seq<char>, TcEntityModel> {
    Map::new(
        |k: Seq<char>| table_position(table, k).is_some(),
        |k: Seq<char>| table[table_position(table, k).unwrap()]@,
    )
}

/// Every record is well-formed and no two records share a name.
pub closed spec fn table_wf(table: Seq<TcEntity>) -> bool {
    &&& forall|i: int| 0 <= i < table.len() ==> (#[trigger] table[i]).wf()
    &&& forall|i: int, j: int|
        0 <= i < j < table.len() ==> (#[trigger] table[i])@.name != (#[trigger] table[j])@.name
}

/// The pairs held in a list of fragment keys.
pub closed spec fn pair_set(pairs: Seq<(String, String)>) -> Set<(Seq<char>, Seq<char>)> {
    Set::new(
        |k: (Seq<char>, Seq<char>)|
            exists|i: int|
                0 <= i < pairs.len() && ((#[trigger] pairs[i]).0@, pairs[i].1@) == k,
    )
}

proof fn lemma_table_position(table: Seq<TcEntity>, i: int)
    requires
        table_wf(table),
        0 <= i < table.len(),
    ensures
        table_position(table, table[i]@.name) == Some(i),
{
    let name = table[i]@.name;
    let j = choose|j: int| 0 <= j < table.len() && (#[trigger] table[j])@.name == name;
    if j < i {
        assert(table[j]@.name != table[i]@.name);
    } else if i < j {
        assert(table[i]@.name != table[j]@.name);
    }
}

proof fn lemma_table_lookup(table: Seq<TcEntity>, name: Seq<char>)
    requires
        table_wf(table),
    ensures
        match table_position(table, name) {
            Some(i) => 0 <= i < table.len() && table[i]@.name == name && table_view(
                table,
            ).contains_key(name) && table_view(table)[name] == table[i]@,
            None => !table_view(table).contains_key(name) && forall|i: int|
                0 <= i < table.len() ==> (#[trigger] table[i])@.name != name,
        },
{
}

/// A table with one more record under a name that is not in it.
proof fn lemma_table_push(table: Seq<TcEntity>, rec: TcEntity)
    requires
        table_wf(table),
        rec.wf(),
        !table_view(table).contains_key(rec@.name),
    ensures
        table_wf(table.push(rec)),
        table_view(table.push(rec)) == table_view(table).insert(rec@.name, rec@),
{
    let after = table.push(rec);
    let n = table.len() as int;
    lemma_table_lookup(table, rec@.name);
    assert forall|i: int| 0 <= i < after.len() implies (#[trigger] after[i]).wf() by {
        if i < n {
            assert(after[i] == table[i]);
        }
    }
    assert forall|i: int, j: int| 0 <= i < j < after.len() implies (#[trigger] after[i])@.name != (
    #[trigger] after[j])@.name by {
        assert(after[i] == table[i]);
        if j < n {
            assert(after[j] == table[j]);
        }
    }
    assert(table_wf(after));
    assert forall|k: Seq<char>| #[trigger]
        table_view(after).contains_key(k) == table_view(table).insert(rec@.name, rec@).contains_key(
            k,
        ) by {
        lemma_table_lookup(table, k);
        lemma_table_lookup(after, k);
        if k == rec@.name {
            lemma_table_position(after, n);
        } else {
            match table_position(table, k) {
                Some(i) => {
                    assert(after[i] == table[i]);
                    lemma_table_position(after, i);
                },
                None => {
                    match table_position(after, k) {
                        Some(i) => {
                            assert(i < n);
                            assert(after[i] == table[i]);
                        },
                        None => {},
                    }
                },
            }
        }
    }
    assert forall|k: Seq<char>| #[trigger] table_view(after).contains_key(k) implies table_view(
        after,
    )[k] == table_view(table).insert(rec@.name, rec@)[k] by {
        lemma_table_lookup(table, k);
        lemma_table_lookup(after, k);
        if k == rec@.name {
            lemma_table_position(after, n);
        } else {
            let i = table_position(after, k).unwrap();
            assert(i < n);
            assert(after[i] == table[i]);
            lemma_table_position(table, i);
        }
    }
    assert(table_view(after) =~= table_view(table).insert(rec@.name, rec@));
}

/// A table without one of its records.
proof fn lemma_table_remove(table: Seq<TcEntity>, idx: int)
    requires
        table_wf(table),
        0 <= idx < table.len(),
    ensures
        table_wf(table.remove(idx)),
        table_view(table.remove(idx)) == table_view(table).remove(table[idx]@.name),
{
    let after = table.remove(idx);
    let name = table[idx]@.name;
    assert forall|i: int| 0 <= i < after.len() implies (#[trigger] after[i]).wf() by {
        if i < idx {
            assert(after[i] == table[i]);
        } else {
            assert(after[i] == table[i + 1]);
        }
    }
    assert forall|i: int, j: int| 0 <= i < j < after.len() implies (#[trigger] after[i])@.name != (
    #[trigger] after[j])@.name by {
        let a = if i < idx { i } else { i + 1 };
        let b = if j < idx { j } else { j + 1 };
        assert(after[i] == table[a]);
        assert(after[j] == table[b]);
        assert(table[a]@.name != table[b]@.name);
    }
    assert(table_wf(after));
    assert forall|k: Seq<char>| #[trigger]
        table_view(after).contains_key(k) == table_view(table).remove(name).contains_key(k) by {
        lemma_table_lookup(table, k);
        lemma_table_lookup(after, k);
        match table_position(after, k) {
            Some(i) => {
                let a = if i < idx { i } else { i + 1 };
                assert(after[i] == table[a]);
                lemma_table_position(table, a);
                lemma_table_position(table, idx);
                if k == name {
                    assert(a == idx);
                }
            },
            None => {
                match table_position(table, k) {
                    Some(a) => {
                        if a != idx {
                            let i = if a < idx { a } else { a - 1 };
                            assert(after[i] == table[a]);
                        } else {
                        }
                    },
                    None => {},
                }
            },
        }
    }
    assert forall|k: Seq<char>| #[trigger] table_view(after).contains_key(k) implies table_view(
        after,
    )[k] == table_view(table).remove(name)[k] by {
        lemma_table_lookup(table, k);
        lemma_table_lookup(after, k);
        let i = table_position(after, k).unwrap();
        let a = if i < idx { i } else { i + 1 };
        assert(after[i] == table[a]);
        lemma_table_position(table, a);
    }
    assert(table_view(after) =~= table_view(table).remove(name));
}

fn table_find(table: &Vec<TcEntity>, name: &String) -> (r: Option<usize>)
    requires
        table_wf(table@),
    ensures
        match r {
            Some(i) => i < table@.len() && table_position(table@, name@) == Some(i as int),
            None => table_position(table@, name@).is_none(),
        },
{
    let mut i: usize = 0;
    while i < table.len()
        invariant
            table_wf(table@),
            i <= table@.len(),
            forall|k: int| 0 <= k < i ==> (#[trigger] table@[k])@.name != name@,
        decreases table@.len() - i,
    {
        if *table[i].name() == *name {
            proof {
                lemma_table_position(table@, i as int);
            }
            return Some(i);
        }
        i += 1;
    }
    None
}

/// Adds one declaration of an entity, found in the file `origin`, to the
/// entity's record.
fn absorb_into(rec: &mut TcEntity, origin: &String, decl: &Entity)
    requires
        old(rec).wf(),
    ensures
        final(rec).wf(),
        final(rec)@ == absorb(old(rec)@, origin@, decl@),
{
    let ghost before = rec@;
    let mut i: usize = 0;
    while i < decl.relationships.len()
        invariant
            rec.wf(),
            i <= decl.relationships@.len(),
            rec@.name == before.name,
            rec@.grants == before.grants,
            rec@.relationships == merge_relationships(
                before.relationships,
                decl@.relationships,
                origin@,
                i as nat,
            ),
        decreases decl.relationships@.len() - i,
    {
        let (tagged, _) = decl.relationships[i].clone().into_with_filename(origin.clone());
        assert(tagged@ == retag(decl@.relationships[i as int], origin@));
        rec.add_relationship(tagged);
        i += 1;
    }
    let ghost middle = rec@;
    let mut j: usize = 0;
    while j < decl.grants.len()
        invariant
            rec.wf(),
            j <= decl.grants@.len(),
            rec@.name == before.name,
            rec@.relationships == middle.relationships,
            rec@.grants == merge_grants(before.grants, decl@.grants, origin@, j as nat),
        decreases decl.grants@.len() - j,
    {
        let (tagged, _) = decl.grants[j].clone().into_with_filename(origin.clone());
        assert(tagged@ == retag(decl@.grants[j as int], origin@));
        rec.add_grant(tagged);
        j += 1;
    }
}

/// The entities and fragments of a workspace, ready to validate files against.
pub struct Typechecker {
    entities: Vec<TcEntity>,
    fragments: Vec<(String, String)>,
}

impl View for Typechecker {
    type V = IndexModel;

    closed spec fn view(&self) -> IndexModel {
        IndexModel { entities: table_view(self.entities@), fragments: pair_set(self.fragments@) }
    }
}

impl Typechecker {
    /// The invariant of the representation.
    pub closed spec fn wf(self) -> bool {
        table_wf(self.entities@)
    }

    /// The index of the given entity declarations and files.
    pub fn new(
        entities: &Vec<WithOrigin<Parsed<Entity>>>,
        schemas: &Vec<WithOrigin<Result<RuuLangFile>>>,
    ) -> (r: Self)
        ensures
            r.wf(),
            r@ == index_of(entities@, schemas@),
    {
        let entity_map = Typechecker::parse_entities(entities);
        let fragments = Typechecker::parse_fragments(schemas);
        Typechecker { entities: entity_map, fragments }
    }

    /// The paths of the files that the declarations come from, each once,
    /// in the order of a dictionary.
    fn files_in_order(entities: &Vec<WithOrigin<Parsed<Entity>>>) -> (r: Vec<String>)
        ensures
            texts(r@) == file_order(entities@),
    {
        let mut names: Vec<String> = Vec::new();
        assert(texts(names@) =~= origins(entities@, 0));
        let mut i: usize = 0;
        while i < entities.len()
            invariant
                i <= entities@.len(),
                texts(names@) == origins(entities@, i as nat),
            decreases entities@.len() - i,
        {
            let origin = &entities[i].origin;
            let mut known = false;
            let mut k: usize = 0;
            while k < names.len()
                invariant
                    k <= names@.len(),
                    known == texts(names@).take(k as int).contains(origin@),
                decreases names@.len() - k,
            {
                proof {
                    let seen = texts(names@).take(k as int);
                    let more = texts(names@).take(k + 1);
                    assert(more =~= seen.push(names@[k as int]@));
                    if seen.contains(origin@) {
                        let at = choose|at: int| 0 <= at < seen.len() && seen[at] == origin@;
                        assert(more[at] == origin@);
                    }
                    if more.contains(origin@) && names@[k as int]@ != origin@ {
                        let at = choose|at: int| 0 <= at < more.len() && more[at] == origin@;
                        assert(seen[at] == origin@);
                    }
                    if names@[k as int]@ == origin@ {
                        assert(more[k as int] == origin@);
                    }
                }
                if names[k] == *origin {
                    known = true;
                }
                k += 1;
            }
            assert(texts(names@).take(names@.len() as int) =~= texts(names@));
            if !known {
                let ghost before = texts(names@);
                names.push(origin.clone());
                assert(texts(names@) =~= before.push(origin@));
            }
            i += 1;
        }
        sort_texts(names)
    }

    /// The records `table` after one more declaration.
    fn upsert(table: &mut Vec<TcEntity>, decl: &WithOrigin<Parsed<Entity>>)
        requires
            table_wf(old(table)@),
        ensures
            table_wf(final(table)@),
            table_view(final(table)@) == index_step(table_view(old(table)@), *decl),
    {
        let name = &decl.data.data.name.data.value;
        let ghost previous = table@;
        proof {
            lemma_table_lookup(previous, name@);
        }
        let mut rec = match table_find(table, name) {
            Some(idx) => {
                proof {
                    lemma_table_remove(previous, idx as int);
                }
                table.remove(idx)
            },
            None => {
                proof {
                    assert(table_view(previous).remove(name@) =~= table_view(previous));
                }
                TcEntity::new(name.clone())
            },
        };
        assert(table_view(table@) == table_view(previous).remove(name@));
        assert(rec@.name == name@);
        absorb_into(&mut rec, &decl.origin, &decl.data.data);
        proof {
            lemma_table_push(table@, rec);
            assert(table_view(previous).remove(name@).insert(name@, rec@) =~= table_view(
                previous,
            ).insert(name@, rec@));
        }
        table.push(rec);
    }

    /// One record per entity name, from the declarations taken file by
    /// file.
    fn parse_entities(entities: &Vec<WithOrigin<Parsed<Entity>>>) -> (r: Vec<TcEntity>)
        ensures
            table_wf(r@),
            table_view(r@) == index_all(in_file_order(entities@)),
    {
        let files = Typechecker::files_in_order(entities);
        let ghost order = texts(files@);
        let mut table: Vec<TcEntity> = Vec::new();
        proof {
            assert(table_view(table@) =~= Map::empty());
        }
        let mut k: usize = 0;
        while k < files.len()
            invariant
                k <= files@.len(),
                order == texts(files@),
                table_wf(table@),
                table_view(table@) == index_all(of_files(entities@, order, k as nat)),
            decreases files@.len() - k,
        {
            let ghost done = of_files(entities@, order, k as nat);
            let mut i: usize = 0;
            assert(done + of_file(entities@, order[k as int], 0) =~= done);
            while i < entities.len()
                invariant
                    i <= entities@.len(),
                    k < files@.len(),
                    order == texts(files@),
                    done == of_files(entities@, order, k as nat),
                    table_wf(table@),
                    table_view(table@) == index_all(
                        done + of_file(entities@, order[k as int], i as nat),
                    ),
                decreases entities@.len() - i,
            {
                if entities[i].origin == files[k] {
                    let ghost so_far = done + of_file(entities@, order[k as int], i as nat);
                    proof {
                        lemma_index_push(so_far, entities@[i as int]);
                        assert(so_far.push(entities@[i as int]) =~= done + of_file(
                            entities@,
                            order[k as int],
                            (i + 1) as nat,
                        ));
                    }
                    Typechecker::upsert(&mut table, &entities[i]);
                }
                i += 1;
            }
            k += 1;
        }
        table
    }

    /// The pairs of fragment name and entity name of every file that was read.
    fn parse_fragments(schemas: &Vec<WithOrigin<Result<RuuLangFile>>>) -> (r: Vec<
        (String, String),
    >)
        ensures
            pair_set(r@) == index_fragments(schemas@, schemas@.len() as int),
    {
        let mut pairs: Vec<(String, String)> = Vec::new();
        proof {
            assert(pair_set(pairs@) =~= index_fragments(schemas@, 0));
        }
        let mut i: usize = 0;
        while i < schemas.len()
            invariant
                i <= schemas@.len(),
                pair_set(pairs@) == index_fragments(schemas@, i as int),
            decreases schemas@.len() - i,
        {
            let ghost outer = pairs@;
            match &schemas[i].data {
                Ok(file) => {
                    let mut j: usize = 0;
                    proof {
                        assert(pair_set(pairs@) =~= index_fragments(schemas@, i as int)
                            + file_fragments(file@.fragments, 0));
                    }
                    while j < file.fragments.len()
                        invariant
                            j <= file.fragments@.len(),
                            pair_set(pairs@) == index_fragments(schemas@, i as int)
                                + file_fragments(file@.fragments, j as int),
                        decreases file.fragments@.len() - j,
                    {
                        let fragment = &file.fragments[j];
                        let ghost inner = pairs@;
                        pairs.push(
                            (
                                fragment.data.name.data.value.clone(),
                                fragment.data.for_entity.data.value.clone(),
                            ),
                        );
                        proof {
                            let key = fragment_key(file@.fragments[j as int]);
                            assert(pairs@[j + 0 + inner.len() - j].0@ == key.0);
                            assert forall|k: (Seq<char>, Seq<char>)|
                                #[trigger] pair_set(pairs@).contains(k) == (pair_set(
                                    inner,
                                ).contains(k) || k == key) by {
                                if pair_set(inner).contains(k) {
                                    let a = choose|a: int|
                                        0 <= a < inner.len() && ((#[trigger] inner[a]).0@, inner[a].1@) == k;
                                    assert(pairs@[a] == inner[a]);
                                }
                                if k == key {
                                    let a = inner.len() as int;
                                    assert((pairs@[a].0@, pairs@[a].1@) == k);
                                }
                                if pair_set(pairs@).contains(k) {
                                    let a = choose|a: int|
                                        0 <= a < pairs@.len() && ((#[trigger] pairs@[a]).0@, pairs@[a].1@) == k;
                                    if a < inner.len() {
                                        assert(pairs@[a] == inner[a]);
                                    }
                                }
                            }
                            assert forall|k: (Seq<char>, Seq<char>)|
                                #[trigger] file_fragments(file@.fragments, j + 1).contains(k) == (
                                file_fragments(file@.fragments, j as int).contains(k) || k
                                    == key) by {
                                if file_fragments(file@.fragments, j + 1).contains(k) {
                                    let b = choose|b: int|
                                        0 <= b < j + 1 && b < file@.fragments.len() && fragment_key(
                                            #[trigger] file@.fragments[b],
                                        ) == k;
                                    if b < j {
                                    }
                                }
                                if file_fragments(file@.fragments, j as int).contains(k) {
                                    let b = choose|b: int|
                                        0 <= b < j && b < file@.fragments.len() && fragment_key(
                                            #[trigger] file@.fragments[b],
                                        ) == k;
                                    assert(0 <= b < j + 1);
                                }
                                if k == key {
                                    assert(fragment_key(file@.fragments[j as int]) == k);
                                }
                            }
                            let target = index_fragments(schemas@, i as int) + file_fragments(
                                file@.fragments,
                                j + 1,
                            );
                            assert forall|k: (Seq<char>, Seq<char>)|
                                pair_set(pairs@).contains(k) == target.contains(k) by {
                                assert(pair_set(pairs@).contains(k) == (pair_set(inner).contains(k)
                                    || k == key));
                                assert(file_fragments(file@.fragments, j + 1).contains(k) == (
                                file_fragments(file@.fragments, j as int).contains(k) || k
                                    == key));
                                assert(pair_set(inner).contains(k) == (index_fragments(
                                    schemas@,
                                    i as int,
                                ).contains(k) || file_fragments(file@.fragments, j as int).contains(
                                    k,
                                )));
                            }
                            assert(pair_set(pairs@) =~= target);
                        }
                        j += 1;
                    }
                },
                Err(_) => {},
            }
            proof {
                let here = schema_fragments(schemas@[i as int]);
                assert(pair_set(pairs@) == index_fragments(schemas@, i as int) + here);
                assert forall|k: (Seq<char>, Seq<char>)|
                    #[trigger] index_fragments(schemas@, i + 1).contains(k) == (index_fragments(
                        schemas@,
                        i as int,
                    ).contains(k) || here.contains(k)) by {
                    if index_fragments(schemas@, i + 1).contains(k) {
                        let a = choose|a: int|
                            0 <= a < i + 1 && a < schemas@.len() && (#[trigger] schema_fragments(
                                schemas@[a],
                            )).contains(k);
                        if a < i {
                        }
                    }
                    if index_fragments(schemas@, i as int).contains(k) {
                        let a = choose|a: int|
                            0 <= a < i && a < schemas@.len() && (#[trigger] schema_fragments(
                                schemas@[a],
                            )).contains(k);
                        assert(0 <= a < i + 1);
                    }
                    if here.contains(k) {
                        assert(schema_fragments(schemas@[i as int]).contains(k));
                    }
                }
                assert(pair_set(pairs@) =~= index_fragments(schemas@, i + 1));
            }
            i += 1;
        }
        pairs
    }
    /// The record of the entity named `name`, if there is one.
    fn entity<'a>(&'a self, name: &String) -> (r: Option<&'a TcEntity>)
        requires
            self.wf(),
        ensures
            r.is_some() == self@.entities.contains_key(name@),
            r.is_some() ==> r.unwrap().wf() && r.unwrap()@ == self@.entities[name@],
    {
        proof {
            lemma_table_lookup(self.entities@, name@);
        }
        match table_find(&self.entities, name) {
            Some(i) => Some(&self.entities[i]),
            None => None,
        }
    }

    /// Whether a fragment `name` for the entity `entity` is declared.
    fn has_fragment(&self, name: &String, entity: &String) -> (r: bool)
        ensures
            r == self@.fragments.contains((name@, entity@)),
    {
        let mut i: usize = 0;
        while i < self.fragments.len()
            invariant
                i <= self.fragments@.len(),
                forall|k: int|
                    0 <= k < i ==> ((#[trigger] self.fragments@[k]).0@, self.fragments@[k].1@) != (
                        name@,
                        entity@,
                    ),
            decreases self.fragments@.len() - i,
        {
            if self.fragments[i].0 == *name && self.fragments[i].1 == *entity {
                return true;
            }
            i += 1;
        }
        false
    }

    /// Every diagnostic of `file`, in the order in which the file is read:
    /// fragments first, then entrypoints. Nothing stops at the first finding.
    pub fn validate_file(&self, file: &RuuLangFile) -> (r: Vec<RuuLangError>)
        requires
            self.wf(),
        ensures
            views(r@) == file_diagnostics(self@, file@),
    {
        let mut violations: Vec<RuuLangError> = Vec::new();
        assert(views(violations@) =~= Seq::empty());
        let mut i: usize = 0;
        while i < file.fragments.len()
            invariant
                self.wf(),
                i <= file.fragments@.len(),
                views(violations@) == fragments_diagnostics(self@, file@.fragments, i as nat),
            decreases file.fragments@.len() - i,
        {
            let mut downstream_errors = self.validate_fragment(&file.fragments[i]);
            proof {
                lemma_views_add(violations@, downstream_errors@);
            }
            violations.append(&mut downstream_errors);
            i += 1;
        }
        let ghost first = views(violations@);
        let ghost head = violations@;
        let mut j: usize = 0;
        assert(violations@ =~= head + Seq::empty());
        let mut tail: Vec<RuuLangError> = Vec::new();
        assert(views(tail@) =~= Seq::empty());
        while j < file.entrypoints.len()
            invariant
                self.wf(),
                j <= file.entrypoints@.len(),
                views(tail@) == entrypoints_diagnostics(self@, file@.entrypoints, j as nat),
            decreases file.entrypoints@.len() - j,
        {
            let mut downstream_errors = self.validate_entrypoint(&file.entrypoints[j]);
            proof {
                lemma_views_add(tail@, downstream_errors@);
            }
            tail.append(&mut downstream_errors);
            j += 1;
        }
        proof {
            lemma_views_add(violations@, tail@);
        }
        violations.append(&mut tail);
        violations
    }

    /// The diagnostics of one entrypoint.
    pub fn validate_entrypoint(&self, entrypoint: &Parsed<Entrypoint>) -> (r: Vec<RuuLangError>)
        requires
            self.wf(),
        ensures
            views(r@) == entrypoint_diagnostics(self@, entrypoint@),
    {
        let mut violations: Vec<RuuLangError> = Vec::new();
        let name = &entrypoint.data.entrypoint.data.value;
        let starting_entity = match self.entity(name) {
            None => {
                let mut message = "Unable to find entity name: ".to_owned();
                message.append(name.as_str());
                let d = diagnostic(entrypoint, message);
                violations.push(d);
                assert(views(violations@) =~= seq![d@]);
                return violations;
            },
            Some(c) => c,
        };
        self.validate_rules(starting_entity, &entrypoint.data.rules)
    }

    /// The diagnostics of one fragment.
    pub fn validate_fragment(&self, fragment: &Parsed<Fragment>) -> (r: Vec<RuuLangError>)
        requires
            self.wf(),
        ensures
            views(r@) == fragment_diagnostics(self@, fragment@),
    {
        let mut violations: Vec<RuuLangError> = Vec::new();
        let name = &fragment.data.for_entity.data.value;
        let starting_entity = match self.entity(name) {
            None => {
                let mut message = "Unable to find entity name: ".to_owned();
                message.append(name.as_str());
                let d = diagnostic(fragment, message);
                violations.push(d);
                assert(views(violations@) =~= seq![d@]);
                return violations;
            },
            Some(c) => c,
        };
        assert(views(violations@) =~= Seq::empty());
        let mut i: usize = 0;
        while i < fragment.data.grants.len()
            invariant
                starting_entity.wf(),
                i <= fragment.data.grants@.len(),
                views(violations@) == fragment_grant_diagnostics(
                    starting_entity@,
                    fragment@.data.grants,
                    i as nat,
                ),
            decreases fragment.data.grants@.len() - i,
        {
            let grant = &fragment.data.grants[i];
            if !starting_entity.allows_grant(&grant.data.grant) {
                let grant_str = join_texts(&grant.data.grant, ".");
                let mut message = "Entity ".to_owned();
                message.append(starting_entity.name().as_str());
                message.append(" does not allow grant: ");
                message.append(grant_str.as_str());
                let d = diagnostic(grant, message);
                proof {
                    lemma_views_push(violations@, d);
                }
                violations.push(d);
            }
            i += 1;
        }
        let mut below = self.validate_rules(starting_entity, &fragment.data.rules);
        proof {
            lemma_views_add(violations@, below@);
        }
        violations.append(&mut below);
        violations
    }

    /// The diagnostics of a list of rules, each read with `scope` as the
    /// current entity.
    pub fn validate_rules(&self, scope: &TcEntity, rules: &Vec<Parsed<Rule>>) -> (r: Vec<RuuLangError>)
        requires
            self.wf(),
            scope.wf(),
        ensures
            views(r@) == rules_diagnostics(self@, scope@, views(rules@), rules@.len()),
        decreases rules, 1nat,
    {
        let mut violations: Vec<RuuLangError> = Vec::new();
        assert(views(violations@) =~= Seq::empty());
        let mut i: usize = 0;
        while i < rules.len()
            invariant
                self.wf(),
                scope.wf(),
                i <= rules@.len(),
                views(violations@) == rules_diagnostics(self@, scope@, views(rules@), i as nat),
            decreases rules@.len() - i,
        {
            let mut downstream_errors = self.validate_rule(scope, &rules[i]);
            proof {
                lemma_views_add(violations@, downstream_errors@);
            }
            violations.append(&mut downstream_errors);
            i += 1;
        }
        violations
    }

    /// The diagnostics of one rule, read with `starting_entity` as the
    /// current entity.
    pub fn validate_rule(&self, starting_entity: &TcEntity, current_rule: &Parsed<Rule>) -> (r: Vec<
        RuuLangError,
    >)
        requires
            self.wf(),
            starting_entity.wf(),
        ensures
            views(r@) == rule_diagnostics(self@, starting_entity@, current_rule@),
        decreases current_rule, 0nat,
    {
        let mut violations: Vec<RuuLangError> = Vec::new();
        let rel_name = &current_rule.data.relationship.data.value;
        if same_text(rel_name.as_str(), "*") {
            assert(views(violations@) =~= Seq::empty());
            return violations;
        }
        let current_rel = match starting_entity.get_rule(rel_name) {
            None => {
                let mut message = "Relationship ".to_owned();
                message.append(rel_name.as_str());
                message.append(" not found for entity ");
                message.append(starting_entity.name().as_str());
                let d = diagnostic(current_rule, message);
                violations.push(d);
                assert(views(violations@) =~= seq![d@]);
                return violations;
            },
            Some(c) => c,
        };
        let target_name = &current_rel.data.entity_name.data.value;
        let current_entity = match self.entity(target_name) {
            None => {
                let mut message = "Unable to find entity name: ".to_owned();
                message.append(target_name.as_str());
                let d = diagnostic(current_rel, message);
                violations.push(d);
                assert(views(violations@) =~= seq![d@]);
                return violations;
            },
            Some(c) => c,
        };
        assert(views(violations@) =~= Seq::empty());
        let mut i: usize = 0;
        while i < current_rule.data.grants.len()
            invariant
                current_entity.wf(),
                i <= current_rule.data.grants@.len(),
                views(violations@) == rule_grant_diagnostics(
                    current_entity@,
                    current_rule@.data.grants,
                    i as nat,
                ),
            decreases current_rule.data.grants@.len() - i,
        {
            let grant = &current_rule.data.grants[i];
            if !current_entity.allows_grant(&grant.data.grant) {
                let grant_name = join_texts(&grant.data.grant, ".");
                let mut message = "Invalid grant ".to_owned();
                message.append(grant_name.as_str());
                let d = diagnostic(grant, message);
                proof {
                    lemma_views_push(violations@, d);
                }
                violations.push(d);
            }
            i += 1;
        }
        let mut includes: Vec<RuuLangError> = Vec::new();
        assert(views(includes@) =~= Seq::empty());
        let mut j: usize = 0;
        while j < current_rule.data.include_fragments.len()
            invariant
                self.wf(),
                current_entity.wf(),
                j <= current_rule.data.include_fragments@.len(),
                views(includes@) == include_diagnostics(
                    self@,
                    current_entity@,
                    current_rule@.data.include_fragments,
                    j as nat,
                ),
            decreases current_rule.data.include_fragments@.len() - j,
        {
            let included_fragment = &current_rule.data.include_fragments[j];
            if !self.has_fragment(&included_fragment.data.value, current_entity.name()) {
                let mut message = "Unable to find fragment name: ".to_owned();
                message.append(included_fragment.data.value.as_str());
                message.append(" for entity ");
                message.append(current_entity.name().as_str());
                let d = diagnostic(included_fragment, message);
                proof {
                    lemma_views_push(includes@, d);
                }
                includes.push(d);
            }
            j += 1;
        }
        proof {
            lemma_views_add(violations@, includes@);
        }
        violations.append(&mut includes);
        proof {
            assert(current_rule@.data.rules =~= views(current_rule.data.rules@)) by {
                if current_rule.data.rules@.len() > 0 {
                    lemma_rule_children(current_rule.data, 0);
                }
            }
        }
        let mut below = self.validate_rules(current_entity, &current_rule.data.rules);
        proof {
            lemma_views_add(violations@, below@);
        }
        violations.append(&mut below);
        violations
    }
}

} // verus!
