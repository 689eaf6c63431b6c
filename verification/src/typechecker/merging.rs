//! How the declarations of an entity add up to its one record in the index.
//!
//! The first part speaks of declarations that are taken in the order in
//! which they stand. The index of a workspace takes them file by file, the
//! files in the order of a dictionary; the last part says what that makes
//! of the declarations of a workspace.

use vstd::prelude::*;
use crate::parser::parse_location::{Parsed, ParsedModel};
use crate::parser::schema_ast::{Entity, RelationshipModel};
use crate::typechecker::tc_ast::{empty_record, relationship_key};
use crate::parser::ruulang_ast::RuuLangFile;
use crate::typechecker::ordering::{
    lemma_declared_is_taken, lemma_file_order, lemma_places_in_order, lemma_taken_is_declared,
    place_of,
};
use crate::typechecker::typechecker::{
    declared_name, file_order, in_file_order, index_entities, index_of, merge_grants,
    merge_relationships, retag,
};
use crate::utils::error::Result;
use crate::utils::order::{lemma_le_reflexive, text_le, text_order};
use crate::utils::trie::Path;
use crate::utils::with_origin::WithOrigin;

verus! {

/// The `j`-th relationship of the `i`-th declaration, which is one of the
/// first `n` and declares the entity `name`, is named `r`.
pub open spec fn declares_relationship(
    entities: Seq<WithOrigin<Parsed<Entity>>>,
    n: int,
    name: Seq<char>,
    i: int,
    j: int,
    r: Seq<char>,
) -> bool {
    &&& 0 <= i < n
    &&& i < entities.len()
    &&& declared_name(entities[i]) == name
    &&& 0 <= j < entities[i].data@.data.relationships.len()
    &&& relationship_key(entities[i].data@.data.relationships[j]) == r
}

/// The `j`-th grant of the `i`-th declaration, which is one of the first `n`
/// and declares the entity `name`, is the path `g`.
pub open spec fn declares_grant(
    entities: Seq<WithOrigin<Parsed<Entity>>>,
    n: int,
    name: Seq<char>,
    i: int,
    j: int,
    g: Path,
) -> bool {
    &&& 0 <= i < n
    &&& i < entities.len()
    &&& declared_name(entities[i]) == name
    &&& 0 <= j < entities[i].data@.data.grants.len()
    &&& entities[i].data@.data.grants[j].data == g
}

/// Position `(i2, j2)` comes before position `(i, j)`.
pub open spec fn earlier(i2: int, j2: int, i: int, j: int) -> bool {
    i2 < i || (i2 == i && j2 < j)
}

/// The first of the first `n` relationships that is named `r`, or -1.
pub open spec fn first_named(rels: Seq<ParsedModel<RelationshipModel>>, n: nat, r: Seq<char>) -> int
    decreases n,
{
    if n == 0 || n > rels.len() {
        -1
    } else {
        let before = first_named(rels, (n - 1) as nat, r);
        if before >= 0 {
            before
        } else if relationship_key(rels[n - 1]) == r {
            n - 1
        } else {
            -1
        }
    }
}

proof fn lemma_first_named(rels: Seq<ParsedModel<RelationshipModel>>, n: nat, r: Seq<char>)
    requires
        n <= rels.len(),
    ensures
        ({
            let p = first_named(rels, n, r);
            &&& -1 <= p < n
            &&& p >= 0 ==> relationship_key(rels[p]) == r
            &&& forall|j: int| 0 <= j < n && j < p ==> relationship_key(#[trigger] rels[j]) != r
            &&& p < 0 ==> forall|j: int| 0 <= j < n ==> relationship_key(#[trigger] rels[j]) != r
        }),
    decreases n,
{
    if n > 0 {
        lemma_first_named(rels, (n - 1) as nat, r);
    }
}

proof fn lemma_merge_relationships(
    known: Map<Seq<char>, ParsedModel<RelationshipModel>>,
    rels: Seq<ParsedModel<RelationshipModel>>,
    origin: Seq<char>,
    n: nat,
    r: Seq<char>,
)
    requires
        n <= rels.len(),
    ensures
        ({
            let m = merge_relationships(known, rels, origin, n);
            let p = first_named(rels, n, r);
            &&& known.contains_key(r) ==> m.contains_key(r) && m[r] == known[r]
            &&& !known.contains_key(r) ==> (m.contains_key(r) <==> p >= 0)
            &&& !known.contains_key(r) && p >= 0 ==> m[r] == retag(rels[p], origin)
        }),
    decreases n,
{
    if n > 0 {
        lemma_merge_relationships(known, rels, origin, (n - 1) as nat, r);
        lemma_first_named(rels, (n - 1) as nat, r);
    }
}

proof fn lemma_merge_grants(
    known: Map<Path, ParsedModel<Path>>,
    grants: Seq<ParsedModel<Path>>,
    origin: Seq<char>,
    n: nat,
    g: Path,
)
    requires
        n <= grants.len(),
    ensures
        merge_grants(known, grants, origin, n).contains_key(g) <==> (known.contains_key(g) || (
        g.len() > 0 && exists|j: int| 0 <= j < n && (#[trigger] grants[j]).data == g)),
    decreases n,
{
    if n > 0 {
        lemma_merge_grants(known, grants, origin, (n - 1) as nat, g);
        let before = merge_grants(known, grants, origin, (n - 1) as nat);
        let m = merge_grants(known, grants, origin, n);
        if g.len() > 0 && exists|j: int| 0 <= j < n && (#[trigger] grants[j]).data == g {
            let j = choose|j: int| 0 <= j < n && (#[trigger] grants[j]).data == g;
            if j < n - 1 {
                assert(before.contains_key(g));
            }
            assert(m.contains_key(g));
        }
        if m.contains_key(g) && !known.contains_key(g) {
            if before.contains_key(g) {
                let j = choose|j: int| 0 <= j < n - 1 && (#[trigger] grants[j]).data == g;
                assert(0 <= j < n && grants[j].data == g);
            } else {
                assert(grants[n - 1].data == g);
            }
        }
    }
}

/// The first position among the first `n` declarations at which the entity
/// `name` declares a relationship named `r`, or `(-1, -1)`.
pub open spec fn first_declaration(
    entities: Seq<WithOrigin<Parsed<Entity>>>,
    n: nat,
    name: Seq<char>,
    r: Seq<char>,
) -> (int, int)
    decreases n,
{
    if n == 0 || n > entities.len() {
        (-1, -1)
    } else {
        let before = first_declaration(entities, (n - 1) as nat, name, r);
        let rels = entities[n - 1].data@.data.relationships;
        if before.0 >= 0 {
            before
        } else if declared_name(entities[n - 1]) == name && first_named(rels, rels.len(), r) >= 0 {
            (n - 1, first_named(rels, rels.len(), r))
        } else {
            (-1, -1)
        }
    }
}

proof fn lemma_first_declaration(
    entities: Seq<WithOrigin<Parsed<Entity>>>,
    n: nat,
    name: Seq<char>,
    r: Seq<char>,
)
    requires
        n <= entities.len(),
    ensures
        ({
            let p = first_declaration(entities, n, name, r);
            &&& p.0 >= 0 ==> declares_relationship(entities, n as int, name, p.0, p.1, r)
            &&& forall|i: int, j: int| #[trigger]
                declares_relationship(entities, n as int, name, i, j, r) ==> p.0 >= 0 && !earlier(
                    i,
                    j,
                    p.0,
                    p.1,
                )
        }),
    decreases n,
{
    if n > 0 {
        lemma_first_declaration(entities, (n - 1) as nat, name, r);
        let rels = entities[n - 1].data@.data.relationships;
        lemma_first_named(rels, rels.len(), r);
        let before = first_declaration(entities, (n - 1) as nat, name, r);
        let p = first_declaration(entities, n, name, r);
        assert forall|i: int, j: int| #[trigger]
            declares_relationship(entities, n as int, name, i, j, r) implies p.0 >= 0 && !earlier(
            i,
            j,
            p.0,
            p.1,
        ) by {
            if i < n - 1 {
                assert(declares_relationship(entities, n - 1, name, i, j, r));
            } else {
                assert(relationship_key(rels[j]) == r);
            }
        }
    }
}

/// The records of the first `n` declarations: which names have one, and what
/// each holds.
proof fn lemma_index_entities(
    entities: Seq<WithOrigin<Parsed<Entity>>>,
    n: nat,
    name: Seq<char>,
    r: Seq<char>,
    g: Path,
)
    requires
        n <= entities.len(),
    ensures
        ({
            let ix = index_entities(entities, n);
            let p = first_declaration(entities, n, name, r);
            &&& ix.contains_key(name) <==> exists|i: int|
                0 <= i < n && declared_name(#[trigger] entities[i]) == name
            &&& ix.contains_key(name) ==> ix[name].name == name
            &&& ix.contains_key(name) ==> (ix[name].relationships.contains_key(r) <==> p.0 >= 0)
            &&& ix.contains_key(name) && p.0 >= 0 ==> ix[name].relationships[r] == retag(
                entities[p.0].data@.data.relationships[p.1],
                entities[p.0].origin@,
            )
            &&& ix.contains_key(name) ==> (ix[name].grants.contains_key(g) <==> g.len() > 0
                && exists|i: int, j: int| #[trigger]
                declares_grant(entities, n as int, name, i, j, g))
        }),
    decreases n,
{
    if n > 0 {
        lemma_index_entities(entities, (n - 1) as nat, name, r, g);
        let before = index_entities(entities, (n - 1) as nat);
        let ix = index_entities(entities, n);
        let decl = entities[n - 1];
        let here = declared_name(decl);
        let rels = decl.data@.data.relationships;
        let grants = decl.data@.data.grants;
        let rec = if before.contains_key(here) {
            before[here]
        } else {
            empty_record(here)
        };
        lemma_first_named(rels, rels.len(), r);
        lemma_merge_relationships(rec.relationships, rels, decl.origin@, rels.len(), r);
        lemma_merge_grants(rec.grants, grants, decl.origin@, grants.len(), g);
        if ix.contains_key(name) {
            if here == name {
                assert(declared_name(entities[n - 1]) == name);
            } else {
                let i = choose|i: int|
                    0 <= i < n - 1 && declared_name(#[trigger] entities[i]) == name;
                assert(0 <= i < n && declared_name(entities[i]) == name);
            }
        }
        if exists|i: int| 0 <= i < n && declared_name(#[trigger] entities[i]) == name {
            let i = choose|i: int| 0 <= i < n && declared_name(#[trigger] entities[i]) == name;
            if i < n - 1 {
                assert(before.contains_key(name));
            }
        }
        if ix.contains_key(name) {
            let old_has = exists|i: int, j: int| #[trigger]
                declares_grant(entities, n - 1, name, i, j, g);
            let new_has = exists|i: int, j: int| #[trigger]
                declares_grant(entities, n as int, name, i, j, g);
            if old_has {
                let (i, j) = choose|i: int, j: int| #[trigger]
                    declares_grant(entities, n - 1, name, i, j, g);
                assert(declares_grant(entities, n as int, name, i, j, g));
            }
            if here == name {
                if exists|j: int| 0 <= j < grants.len() && (#[trigger] grants[j]).data == g {
                    let j = choose|j: int| 0 <= j < grants.len() && (#[trigger] grants[j]).data == g;
                    assert(declares_grant(entities, n as int, name, n - 1, j, g));
                }
                if new_has {
                    let (i, j) = choose|i: int, j: int| #[trigger]
                        declares_grant(entities, n as int, name, i, j, g);
                    if i < n - 1 {
                        assert(declares_grant(entities, n - 1, name, i, j, g));
                        assert(before.contains_key(name));
                    } else {
                        assert(grants[j].data == g);
                    }
                }
                if !before.contains_key(name) {
                    if old_has {
                        let (i, j) = choose|i: int, j: int| #[trigger]
                            declares_grant(entities, n - 1, name, i, j, g);
                        assert(declared_name(entities[i]) == name);
                    }
                    let before_first = first_declaration(entities, (n - 1) as nat, name, r);
                    lemma_first_declaration(entities, (n - 1) as nat, name, r);
                    if before_first.0 >= 0 {
                        assert(declared_name(entities[before_first.0]) == name);
                    }
                }
            } else {
                if new_has {
                    let (i, j) = choose|i: int, j: int| #[trigger]
                        declares_grant(entities, n as int, name, i, j, g);
                    assert(declares_grant(entities, n - 1, name, i, j, g));
                }
            }
        }
    }
}

/// Every entity that is declared has a record, under its name, and only
/// those have one.
pub proof fn lemma_one_record_per_name(entities: Seq<WithOrigin<Parsed<Entity>>>, name: Seq<char>)
    ensures
        index_entities(entities, entities.len()).contains_key(name) <==> exists|i: int|
            0 <= i < entities.len() && declared_name(#[trigger] entities[i]) == name,
        index_entities(entities, entities.len()).contains_key(name) ==> index_entities(
            entities,
            entities.len(),
        )[name].name == name,
{
    lemma_index_entities(entities, entities.len(), name, Seq::empty(), Seq::empty());
}

/// The relationships of a record are those of all declarations of its
/// entity, and under each name stands the first declaration of that name,
/// tagged with the file it came from.
pub proof fn lemma_relationships_first_wins(
    entities: Seq<WithOrigin<Parsed<Entity>>>,
    name: Seq<char>,
    i: int,
    j: int,
    r: Seq<char>,
)
    requires
        declares_relationship(entities, entities.len() as int, name, i, j, r),
    ensures
        index_entities(entities, entities.len()).contains_key(name),
        index_entities(entities, entities.len())[name].relationships.contains_key(r),
        (forall|i2: int, j2: int| #[trigger]
            declares_relationship(entities, entities.len() as int, name, i2, j2, r) ==> !earlier(
                i2,
                j2,
                i,
                j,
            )) ==> index_entities(entities, entities.len())[name].relationships[r] == retag(
            entities[i].data@.data.relationships[j],
            entities[i].origin@,
        ),
{
    lemma_index_entities(entities, entities.len(), name, r, Seq::empty());
    lemma_first_declaration(entities, entities.len(), name, r);
    assert(declared_name(entities[i]) == name);
    let p = first_declaration(entities, entities.len(), name, r);
    assert(p.0 >= 0 && !earlier(i, j, p.0, p.1));
    if forall|i2: int, j2: int| #[trigger]
        declares_relationship(entities, entities.len() as int, name, i2, j2, r) ==> !earlier(
            i2,
            j2,
            i,
            j,
        ) {
        assert(declares_relationship(entities, entities.len() as int, name, p.0, p.1, r));
        assert(!earlier(p.0, p.1, i, j));
        assert(p.0 == i && p.1 == j);
    }
}

/// A relationship of a record was declared for its entity: the result is the
/// position of a declaration of it.
pub proof fn lemma_relationship_was_declared(
    entities: Seq<WithOrigin<Parsed<Entity>>>,
    name: Seq<char>,
    r: Seq<char>,
) -> (at: (int, int))
    requires
        index_entities(entities, entities.len()).contains_key(name),
        index_entities(entities, entities.len())[name].relationships.contains_key(r),
    ensures
        declares_relationship(entities, entities.len() as int, name, at.0, at.1, r),
{
    lemma_index_entities(entities, entities.len(), name, r, Seq::empty());
    lemma_first_declaration(entities, entities.len(), name, r);
    first_declaration(entities, entities.len(), name, r)
}

/// The grants of a record are the non-empty grant paths of all declarations
/// of its entity.
pub proof fn lemma_grants_are_union(
    entities: Seq<WithOrigin<Parsed<Entity>>>,
    name: Seq<char>,
    g: Path,
)
    requires
        index_entities(entities, entities.len()).contains_key(name),
    ensures
        index_entities(entities, entities.len())[name].grants.contains_key(g) <==> (g.len() > 0
            && exists|i: int, j: int| #[trigger]
            declares_grant(entities, entities.len() as int, name, i, j, g)),
{
    lemma_index_entities(entities, entities.len(), name, Seq::empty(), g);
}

/// Every entity that is declared in a workspace has a record in its index,
/// under its name, and only those have one.
pub proof fn lemma_index_one_record_per_name(
    entities: Seq<WithOrigin<Parsed<Entity>>>,
    files: Seq<WithOrigin<Result<RuuLangFile>>>,
    name: Seq<char>,
)
    ensures
        index_of(entities, files).entities.contains_key(name) <==> exists|i: int|
            0 <= i < entities.len() && declared_name(#[trigger] entities[i]) == name,
        index_of(entities, files).entities.contains_key(name) ==> index_of(
            entities,
            files,
        ).entities[name].name == name,
{
    let taken = in_file_order(entities);
    lemma_one_record_per_name(taken, name);
    if exists|i: int| 0 <= i < entities.len() && declared_name(#[trigger] entities[i]) == name {
        let i = choose|i: int| 0 <= i < entities.len() && declared_name(#[trigger] entities[i]) == name;
        let f = lemma_declared_is_taken(entities, i);
        let k = place_of(entities, file_order(entities), f, i);
        assert(declared_name(taken[k]) == name);
    }
    if exists|k: int| 0 <= k < taken.len() && declared_name(#[trigger] taken[k]) == name {
        let k = choose|k: int| 0 <= k < taken.len() && declared_name(#[trigger] taken[k]) == name;
        let at = lemma_taken_is_declared(entities, k);
        assert(declared_name(entities[at.0]) == name);
    }
}

/// The grants of a record in the index of a workspace are the non-empty
/// grant paths of all declarations of its entity, in whatever file.
pub proof fn lemma_index_grants_are_union(
    entities: Seq<WithOrigin<Parsed<Entity>>>,
    files: Seq<WithOrigin<Result<RuuLangFile>>>,
    name: Seq<char>,
    g: Path,
)
    requires
        index_of(entities, files).entities.contains_key(name),
    ensures
        index_of(entities, files).entities[name].grants.contains_key(g) <==> (g.len() > 0
            && exists|i: int, j: int| #[trigger]
            declares_grant(entities, entities.len() as int, name, i, j, g)),
{
    let taken = in_file_order(entities);
    lemma_grants_are_union(taken, name, g);
    if exists|i: int, j: int| #[trigger]
        declares_grant(entities, entities.len() as int, name, i, j, g) {
        let (i, j) = choose|i: int, j: int| #[trigger]
            declares_grant(entities, entities.len() as int, name, i, j, g);
        let f = lemma_declared_is_taken(entities, i);
        let k = place_of(entities, file_order(entities), f, i);
        assert(declares_grant(taken, taken.len() as int, name, k, j, g));
    }
    if exists|k: int, j: int| #[trigger] declares_grant(taken, taken.len() as int, name, k, j, g) {
        let (k, j) = choose|k: int, j: int| #[trigger]
            declares_grant(taken, taken.len() as int, name, k, j, g);
        let at = lemma_taken_is_declared(entities, k);
        assert(declares_grant(entities, entities.len() as int, name, at.0, j, g));
    }
}

/// A relationship that is declared for an entity stands in the record of
/// that entity in the index of the workspace.
pub proof fn lemma_index_holds_relationship(
    entities: Seq<WithOrigin<Parsed<Entity>>>,
    files: Seq<WithOrigin<Result<RuuLangFile>>>,
    name: Seq<char>,
    i: int,
    j: int,
    r: Seq<char>,
)
    requires
        declares_relationship(entities, entities.len() as int, name, i, j, r),
    ensures
        index_of(entities, files).entities.contains_key(name),
        index_of(entities, files).entities[name].relationships.contains_key(r),
{
    let taken = in_file_order(entities);
    let f = lemma_declared_is_taken(entities, i);
    let k = place_of(entities, file_order(entities), f, i);
    assert(declares_relationship(taken, taken.len() as int, name, k, j, r));
    lemma_relationships_first_wins(taken, name, k, j, r);
}

/// Which declaration of a relationship name stands in the record of an
/// entity in the index of a workspace: one from the file that comes first in
/// the dictionary among the files that declare the name for the entity, and
/// in that file the first. The result is its place: the declaration and the
/// relationship in it.
pub proof fn lemma_index_relationship_first_wins(
    entities: Seq<WithOrigin<Parsed<Entity>>>,
    files: Seq<WithOrigin<Result<RuuLangFile>>>,
    name: Seq<char>,
    r: Seq<char>,
) -> (at: (int, int))
    requires
        index_of(entities, files).entities.contains_key(name),
        index_of(entities, files).entities[name].relationships.contains_key(r),
    ensures
        declares_relationship(entities, entities.len() as int, name, at.0, at.1, r),
        index_of(entities, files).entities[name].relationships[r] == retag(
            entities[at.0].data@.data.relationships[at.1],
            entities[at.0].origin@,
        ),
        forall|i2: int, j2: int| #[trigger]
            declares_relationship(entities, entities.len() as int, name, i2, j2, r) ==> text_le(
                entities[at.0].origin@,
                entities[i2].origin@,
            ) && (entities[i2].origin@ == entities[at.0].origin@ ==> !earlier(
                i2,
                j2,
                at.0,
                at.1,
            )),
{
    let taken = in_file_order(entities);
    let order = file_order(entities);
    lemma_index_entities(taken, taken.len(), name, r, Seq::empty());
    lemma_first_declaration(taken, taken.len(), name, r);
    lemma_file_order(entities);
    let p = first_declaration(taken, taken.len(), name, r);
    assert(declares_relationship(taken, taken.len() as int, name, p.0, p.1, r));
    let found = lemma_taken_is_declared(entities, p.0);
    let i = found.0;
    let f = found.1;
    assert forall|i2: int, j2: int| #[trigger]
        declares_relationship(entities, entities.len() as int, name, i2, j2, r) implies text_le(
        entities[i].origin@,
        entities[i2].origin@,
    ) && (entities[i2].origin@ == entities[i].origin@ ==> !earlier(i2, j2, i, p.1)) by {
        let f2 = lemma_declared_is_taken(entities, i2);
        let k2 = place_of(entities, order, f2, i2);
        assert(declares_relationship(taken, taken.len() as int, name, k2, j2, r));
        assert(!earlier(k2, j2, p.0, p.1));
        if f2 < f {
            lemma_places_in_order(entities, f2, i2, f, i);
        } else if f2 == f {
            lemma_le_reflexive(order[f]);
            if i2 < i {
                lemma_places_in_order(entities, f2, i2, f, i);
            }
        } else {
            assert(text_order()(order[f], order[f2]));
        }
        if entities[i2].origin@ == entities[i].origin@ {
            assert(f2 == f);
        }
    }
    (i, p.1)
}

} // verus!
