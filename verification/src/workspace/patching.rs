//! Patching one file leaves the workspace as reading everything anew would.
//!
//! After a patch the texts and the files of the workspace are exactly those
//! that a reload gives when the patched file holds the new text, and each
//! file has exactly the entity declarations that the reload gives it. The
//! declarations of the patched file stand at the end after a patch and in the
//! file's place after a reload; where the patched file is the last one, or a
//! new one, the two agree in that too. The index takes the declarations file
//! by file, so it is the same after a patch and after a reload, and with it
//! the diagnostics of every file.

use vstd::prelude::*;
use crate::codegen::determinism::{declared_in, same_per_file};
use crate::parser::parse_location::{Parsed, ParsedModel};
use crate::parser::ruulang_ast::RuuLangFile;
use crate::parser::schema_ast::{Entity, EntityModel};
use crate::typechecker::ordering::{holds_fragments, lemma_index_any_order, same_fragments_per_file};
use crate::typechecker::typechecker::{index_of, schema_fragments};
use crate::utils::error::Result;
use crate::utils::with_origin::WithOrigin;
use crate::workspace::workspace::{entity_models, file_models, Workspace};
use crate::workspace::workspace::{
    keyed, loaded, loaded_entities, loaded_files, outcome, patched, position_of, replaced, tagged,
    without_origin, TaggedEntity,
};

verus! {

/// No path stands twice in a table.
pub open spec fn distinct_paths<A>(table: Seq<(Seq<char>, A)>) -> bool {
    forall|i: int, j: int|
        0 <= i < j < table.len() ==> (#[trigger] table[i]).0 != (#[trigger] table[j]).0
}

/// The declarations among the first `n` that come from the file `origin`,
/// in order.
pub open spec fn entities_from(entities: Seq<TaggedEntity>, origin: Seq<char>, n: nat) -> Seq<
    ParsedModel<EntityModel>,
>
    decreases n,
{
    if n == 0 || n > entities.len() {
        Seq::empty()
    } else if entities[n - 1].0 == origin {
        entities_from(entities, origin, (n - 1) as nat).push(entities[n - 1].1)
    } else {
        entities_from(entities, origin, (n - 1) as nat)
    }
}

/// Where a path stands in a table: at the first entry for it, or behind the
/// table.
pub proof fn lemma_position<A>(pairs: Seq<(Seq<char>, A)>, path: Seq<char>, from: nat)
    requires
        from <= pairs.len(),
    ensures
        from <= position_of(pairs, path, from) <= pairs.len(),
        position_of(pairs, path, from) < pairs.len() ==> pairs[position_of(
            pairs,
            path,
            from,
        ) as int].0 == path,
        forall|i: int| from <= i < position_of(pairs, path, from) ==> (#[trigger] pairs[i]).0 != path,
    decreases pairs.len() - from,
{
    if from < pairs.len() && pairs[from as int].0 != path {
        lemma_position(pairs, path, from + 1);
    }
}

/// The position of a path depends on the paths alone.
proof fn lemma_position_same_paths<A, B>(
    a: Seq<(Seq<char>, A)>,
    b: Seq<(Seq<char>, B)>,
    path: Seq<char>,
    from: nat,
)
    requires
        a.len() == b.len(),
        forall|i: int| 0 <= i < a.len() ==> (#[trigger] a[i]).0 == (#[trigger] b[i]).0,
    ensures
        position_of(a, path, from) == position_of(b, path, from),
    decreases a.len() - from,
{
    if from < a.len() {
        assert(a[from as int].0 == b[from as int].0);
        if a[from as int].0 != path {
            lemma_position_same_paths(a, b, path, from + 1);
        }
    }
}

/// Where a path stands in a table of distinct paths.
pub proof fn lemma_position_at<A>(pairs: Seq<(Seq<char>, A)>, k: int)
    requires
        distinct_paths(pairs),
        0 <= k < pairs.len(),
    ensures
        position_of(pairs, pairs[k].0, 0) == k,
{
    lemma_position(pairs, pairs[k].0, 0);
    let at = position_of(pairs, pairs[k].0, 0);
    if at < k {
        assert(pairs[at as int].0 != pairs[k].0);
    }
}

/// A table with a text replaced is a table of distinct paths still.
pub proof fn lemma_replaced_distinct<A>(table: Seq<(Seq<char>, A)>, path: Seq<char>, value: A)
    requires
        distinct_paths(table),
    ensures
        distinct_paths(replaced(table, path, value)),
        replaced(table, path, value).len() == (if position_of(table, path, 0) < table.len() {
            table.len()
        } else {
            table.len() + 1
        }),
{
    lemma_position(table, path, 0);
    let after = replaced(table, path, value);
    let at = position_of(table, path, 0);
    assert forall|i: int, j: int| 0 <= i < j < after.len() implies (#[trigger] after[i]).0 != (
    #[trigger] after[j]).0 by {
        if at < table.len() {
            assert(after[i].0 == table[i].0);
            assert(after[j].0 == table[j].0);
        } else {
            assert(after[i] == table[i]);
            if j < table.len() {
                assert(after[j] == table[j]);
            }
        }
    }
}

/// The table that a reload makes of its sources holds each path once.
pub proof fn lemma_keyed_distinct(sources: Seq<(Seq<char>, Seq<char>)>, n: nat)
    requires
        n <= sources.len(),
    ensures
        distinct_paths(keyed(sources, n)),
    decreases n,
{
    if n > 0 {
        lemma_keyed_distinct(sources, (n - 1) as nat);
        lemma_replaced_distinct(keyed(sources, (n - 1) as nat), sources[n - 1].0, sources[n - 1].1);
    }
}

/// What is read of the first files does not depend on the files behind them.
proof fn lemma_loaded_prefix(a: Seq<(Seq<char>, Seq<char>)>, b: Seq<(Seq<char>, Seq<char>)>, n: nat)
    requires
        n <= a.len(),
        n <= b.len(),
        forall|i: int| 0 <= i < n ==> a[i] == b[i],
    ensures
        loaded_entities(a, n) == loaded_entities(b, n),
        loaded_files(a, n) == loaded_files(b, n),
    decreases n,
{
    if n > 0 {
        lemma_loaded_prefix(a, b, (n - 1) as nat);
    }
}

proof fn lemma_loaded_files_shape(table: Seq<(Seq<char>, Seq<char>)>, n: nat)
    requires
        n <= table.len(),
    ensures
        loaded_files(table, n).len() == n,
        forall|i: int|
            0 <= i < n ==> (#[trigger] loaded_files(table, n)[i]) == (
                table[i].0,
                outcome(table[i].1).1,
            ),
    decreases n,
{
    if n > 0 {
        lemma_loaded_files_shape(table, (n - 1) as nat);
    }
}

/// The files after a patch are the files of the patched table.
proof fn lemma_files_agree(table: Seq<(Seq<char>, Seq<char>)>, path: Seq<char>, contents: Seq<char>)
    ensures
        loaded_files(replaced(table, path, contents), replaced(table, path, contents).len())
            == replaced(loaded_files(table, table.len()), path, outcome(contents).1),
{
    let after = replaced(table, path, contents);
    let files = loaded_files(table, table.len());
    lemma_position(table, path, 0);
    lemma_loaded_files_shape(table, table.len());
    lemma_loaded_files_shape(after, after.len());
    lemma_position_same_paths(table, files, path, 0);
    assert(loaded_files(after, after.len()) =~= replaced(files, path, outcome(contents).1));
}

proof fn lemma_from_add(a: Seq<TaggedEntity>, b: Seq<TaggedEntity>, origin: Seq<char>, n: nat)
    requires
        n <= b.len(),
    ensures
        entities_from(a + b, origin, a.len() + n) == entities_from(a, origin, a.len())
            + entities_from(b, origin, n),
    decreases n,
{
    if n == 0 {
        lemma_from_prefix(a, a + b, origin, a.len());
        assert(entities_from(a, origin, a.len()) + Seq::<ParsedModel<EntityModel>>::empty()
            =~= entities_from(a, origin, a.len()));
    } else {
        lemma_from_add(a, b, origin, (n - 1) as nat);
        assert((a + b)[a.len() + n - 1] == b[n - 1]);
        if b[n - 1].0 == origin {
            assert(entities_from(a, origin, a.len()) + entities_from(b, origin, n)
                =~= (entities_from(a, origin, a.len()) + entities_from(
                b,
                origin,
                (n - 1) as nat,
            )).push(b[n - 1].1));
        }
    }
}

proof fn lemma_from_prefix(a: Seq<TaggedEntity>, c: Seq<TaggedEntity>, origin: Seq<char>, n: nat)
    requires
        n <= a.len(),
        a.len() <= c.len(),
        forall|i: int| 0 <= i < a.len() ==> a[i] == c[i],
    ensures
        entities_from(c, origin, n) == entities_from(a, origin, n),
    decreases n,
{
    if n > 0 {
        lemma_from_prefix(a, c, origin, (n - 1) as nat);
    }
}

proof fn lemma_from_tagged(
    path: Seq<char>,
    entities: Seq<ParsedModel<EntityModel>>,
    origin: Seq<char>,
    n: nat,
)
    requires
        n <= entities.len(),
    ensures
        entities_from(tagged(path, entities), origin, n) == (if path == origin {
            entities.take(n as int)
        } else {
            Seq::empty()
        }),
    decreases n,
{
    if n > 0 {
        lemma_from_tagged(path, entities, origin, (n - 1) as nat);
        if path == origin {
            assert(entities.take(n as int) =~= entities.take(n - 1).push(entities[n - 1]));
        }
    } else {
        assert(entities.take(0) =~= Seq::empty());
    }
}

proof fn lemma_from_without(entities: Seq<TaggedEntity>, path: Seq<char>, origin: Seq<char>, n: nat)
    requires
        n <= entities.len(),
    ensures
        entities_from(
            without_origin(entities, path, n),
            origin,
            without_origin(entities, path, n).len(),
        ) == (if origin == path {
            Seq::empty()
        } else {
            entities_from(entities, origin, n)
        }),
    decreases n,
{
    if n > 0 {
        lemma_from_without(entities, path, origin, (n - 1) as nat);
        let before = without_origin(entities, path, (n - 1) as nat);
        if entities[n - 1].0 != path {
            let now = before.push(entities[n - 1]);
            lemma_from_prefix(before, now, origin, before.len());
        }
    }
}

/// The declarations that a reload gives a file are those of its text.
proof fn lemma_from_loaded(table: Seq<(Seq<char>, Seq<char>)>, origin: Seq<char>, n: nat)
    requires
        distinct_paths(table),
        n <= table.len(),
    ensures
        entities_from(loaded_entities(table, n), origin, loaded_entities(table, n).len()) == (
        if position_of(table, origin, 0) < n {
            outcome(table[position_of(table, origin, 0) as int].1).0
        } else {
            Seq::empty()
        }),
    decreases n,
{
    lemma_position(table, origin, 0);
    if n > 0 {
        lemma_from_loaded(table, origin, (n - 1) as nat);
        let before = loaded_entities(table, (n - 1) as nat);
        let path = table[n - 1].0;
        let found = outcome(table[n - 1].1).0;
        lemma_from_add(before, tagged(path, found), origin, found.len());
        lemma_from_tagged(path, found, origin, found.len());
        assert(found.take(found.len() as int) =~= found);
        let at = position_of(table, origin, 0);
        if path == origin {
            lemma_position_at(table, n - 1);
            assert(Seq::<ParsedModel<EntityModel>>::empty() + found =~= found);
        } else {
            assert(at != n - 1);
            assert(entities_from(before, origin, before.len()) + Seq::<
                ParsedModel<EntityModel>,
            >::empty() =~= entities_from(before, origin, before.len()));
        }
    }
}

/// Patching a file leaves the workspace as a reload would with the new text
/// in the file: the texts are the same, the files are the same, and every
/// file has the same entity declarations.
pub proof fn lemma_patch_like_reload(
    table: Seq<(Seq<char>, Seq<char>)>,
    path: Seq<char>,
    contents: Seq<char>,
    origin: Seq<char>,
)
    requires
        distinct_paths(table),
    ensures
        patched(loaded(table), path, contents).sources == loaded(
            replaced(table, path, contents),
        ).sources,
        patched(loaded(table), path, contents).files == loaded(
            replaced(table, path, contents),
        ).files,
        entities_from(
            patched(loaded(table), path, contents).entities,
            origin,
            patched(loaded(table), path, contents).entities.len(),
        ) == entities_from(
            loaded(replaced(table, path, contents)).entities,
            origin,
            loaded(replaced(table, path, contents)).entities.len(),
        ),
{
    let after = replaced(table, path, contents);
    let old_entities = loaded_entities(table, table.len());
    let kept = without_origin(old_entities, path, old_entities.len());
    let fresh = outcome(contents).0;
    lemma_files_agree(table, path, contents);
    lemma_replaced_distinct(table, path, contents);
    lemma_position(table, path, 0);
    lemma_position(table, origin, 0);
    lemma_position(after, origin, 0);
    // the patched side
    lemma_from_add(kept, tagged(path, fresh), origin, fresh.len());
    lemma_from_tagged(path, fresh, origin, fresh.len());
    lemma_from_without(old_entities, path, origin, old_entities.len());
    lemma_from_loaded(table, origin, table.len());
    assert(fresh.take(fresh.len() as int) =~= fresh);
    // the reloaded side
    lemma_from_loaded(after, origin, after.len());
    let at = position_of(table, path, 0);
    if origin == path {
        if at < table.len() {
            lemma_position_at(after, at as int);
        } else {
            lemma_position_at(after, table.len() as int);
        }
        assert(Seq::<ParsedModel<EntityModel>>::empty() + fresh =~= fresh);
    } else {
        let k = position_of(table, origin, 0);
        if k < table.len() {
            assert(after[k as int] == table[k as int]);
            lemma_position_at(after, k as int);
        } else {
            let k2 = position_of(after, origin, 0);
            if k2 < after.len() {
                if k2 < table.len() {
                    assert(after[k2 as int].0 == table[k2 as int].0);
                }
            }
        }
        assert(entities_from(old_entities, origin, old_entities.len()) + Seq::<
            ParsedModel<EntityModel>,
        >::empty() =~= entities_from(old_entities, origin, old_entities.len()));
    }
}

/// Dropping the declarations of a file from declarations that hold none of
/// that file changes nothing.
proof fn lemma_without_none(entities: Seq<TaggedEntity>, path: Seq<char>, n: nat)
    requires
        n <= entities.len(),
        forall|i: int| 0 <= i < n ==> (#[trigger] entities[i]).0 != path,
    ensures
        without_origin(entities, path, n) == entities.take(n as int),
    decreases n,
{
    if n > 0 {
        lemma_without_none(entities, path, (n - 1) as nat);
        assert(entities.take(n as int) =~= entities.take(n - 1).push(entities[n - 1]));
    } else {
        assert(entities.take(0) =~= Seq::empty());
    }
}

proof fn lemma_without_add(a: Seq<TaggedEntity>, b: Seq<TaggedEntity>, path: Seq<char>, n: nat)
    requires
        n <= b.len(),
        forall|i: int| 0 <= i < b.len() ==> (#[trigger] b[i]).0 == path,
    ensures
        without_origin(a + b, path, a.len() + n) == without_origin(a, path, a.len()),
    decreases n,
{
    if n == 0 {
        lemma_without_prefix(a, a + b, path, a.len());
    } else {
        lemma_without_add(a, b, path, (n - 1) as nat);
        assert((a + b)[a.len() + n - 1] == b[n - 1]);
    }
}

proof fn lemma_without_prefix(a: Seq<TaggedEntity>, c: Seq<TaggedEntity>, path: Seq<char>, n: nat)
    requires
        n <= a.len(),
        a.len() <= c.len(),
        forall|i: int| 0 <= i < a.len() ==> a[i] == c[i],
    ensures
        without_origin(c, path, n) == without_origin(a, path, n),
    decreases n,
{
    if n > 0 {
        lemma_without_prefix(a, c, path, (n - 1) as nat);
    }
}

/// The declarations of the first `n` files come from those files.
proof fn lemma_loaded_origins(table: Seq<(Seq<char>, Seq<char>)>, n: nat, i: int)
    requires
        n <= table.len(),
        0 <= i < loaded_entities(table, n).len(),
    ensures
        exists|k: int| 0 <= k < n && (#[trigger] table[k]).0 == loaded_entities(table, n)[i].0,
    decreases n,
{
    if n > 0 {
        let before = loaded_entities(table, (n - 1) as nat);
        if i < before.len() {
            lemma_loaded_origins(table, (n - 1) as nat, i);
            let k = choose|k: int|
                0 <= k < n - 1 && (#[trigger] table[k]).0 == loaded_entities(
                    table,
                    (n - 1) as nat,
                )[i].0;
            assert(0 <= k < n && table[k].0 == loaded_entities(table, n)[i].0);
        } else {
            assert(table[n - 1].0 == loaded_entities(table, n)[i].0);
        }
    }
}

/// Patching the last file of the workspace, or a file that the workspace
/// does not hold yet, leaves the workspace exactly as a reload would with the
/// new text in the file.
pub proof fn lemma_patch_last_is_reload(
    table: Seq<(Seq<char>, Seq<char>)>,
    path: Seq<char>,
    contents: Seq<char>,
)
    requires
        distinct_paths(table),
        position_of(table, path, 0) + 1 >= table.len(),
    ensures
        patched(loaded(table), path, contents) == loaded(replaced(table, path, contents)),
{
    let after = replaced(table, path, contents);
    let old_entities = loaded_entities(table, table.len());
    let fresh = tagged(path, outcome(contents).0);
    lemma_files_agree(table, path, contents);
    lemma_position(table, path, 0);
    let at = position_of(table, path, 0);
    if at < table.len() {
        let n = (table.len() - 1) as nat;
        let before = loaded_entities(table, n);
        let last = tagged(path, outcome(table[n as int].1).0);
        assert(old_entities == before + last);
        assert forall|i: int| 0 <= i < before.len() implies (#[trigger] before[i]).0 != path by {
            lemma_loaded_origins(table, n, i);
            let k = choose|k: int| 0 <= k < n && (#[trigger] table[k]).0 == before[i].0;
            assert(table[k].0 != table[n as int].0);
        }
        lemma_without_add(before, last, path, last.len());
        lemma_without_none(before, path, before.len());
        assert(before.take(before.len() as int) =~= before);
        lemma_loaded_prefix(table, after, n);
        assert(loaded_entities(after, after.len()) == loaded_entities(after, n) + fresh);
    } else {
        assert forall|i: int| 0 <= i < old_entities.len() implies (#[trigger] old_entities[i]).0
            != path by {
            lemma_loaded_origins(table, table.len(), i);
            let k = choose|k: int|
                0 <= k < table.len() && (#[trigger] table[k]).0 == old_entities[i].0;
        }
        lemma_without_none(old_entities, path, old_entities.len());
        assert(old_entities.take(old_entities.len() as int) =~= old_entities);
        lemma_loaded_prefix(table, after, table.len());
        assert(loaded_entities(after, after.len()) == loaded_entities(after, table.len())
            + fresh);
    }
}

proof fn lemma_from_is_declared(entities: Seq<WithOrigin<Parsed<Entity>>>, q: Seq<char>, n: nat)
    requires
        n <= entities.len(),
    ensures
        entities_from(entity_models(entities), q, n) == declared_in(entities, q, n),
    decreases n,
{
    if n > 0 {
        lemma_from_is_declared(entities, q, (n - 1) as nat);
    }
}

proof fn lemma_same_files_same_fragments(
    a: Seq<WithOrigin<Result<RuuLangFile>>>,
    b: Seq<WithOrigin<Result<RuuLangFile>>>,
)
    requires
        file_models(a) == file_models(b),
    ensures
        same_fragments_per_file(a, b),
{
    assert(a.len() == b.len()) by {
        assert(file_models(a).len() == a.len());
        assert(file_models(b).len() == b.len());
    }
    assert forall|i: int| 0 <= i < a.len() implies schema_fragments(#[trigger] a[i])
        == schema_fragments(b[i]) by {
        assert(file_models(a)[i] == file_models(b)[i]);
    }
    assert forall|i: int| 0 <= i < a.len() implies holds_fragments(
        b,
        schema_fragments(#[trigger] a[i]),
    ) by {
        assert(schema_fragments(b[i]) == schema_fragments(a[i]));
    }
    assert forall|j: int| 0 <= j < b.len() implies holds_fragments(
        a,
        schema_fragments(#[trigger] b[j]),
    ) by {
        assert(schema_fragments(a[j]) == schema_fragments(b[j]));
    }
}

/// Two workspaces with the same files, in which every file has the same
/// entity declarations, check every file alike: the order in which the
/// declarations of different files stand makes no difference to the index.
pub proof fn lemma_same_files_same_index(a: Workspace, b: Workspace)
    requires
        a@.files == b@.files,
        forall|q: Seq<char>| #[trigger]
            entities_from(a@.entities, q, a@.entities.len()) == entities_from(
                b@.entities,
                q,
                b@.entities.len(),
            ),
    ensures
        same_per_file(a.entities@, b.entities@),
        index_of(a.entities@, a.files@) == index_of(b.entities@, b.files@),
{
    assert(same_per_file(a.entities@, b.entities@)) by {
        assert forall|q: Seq<char>| #[trigger]
            declared_in(a.entities@, q, a.entities@.len()) == declared_in(
                b.entities@,
                q,
                b.entities@.len(),
            ) by {
            lemma_from_is_declared(a.entities@, q, a.entities@.len());
            lemma_from_is_declared(b.entities@, q, b.entities@.len());
            assert(entities_from(a@.entities, q, a@.entities.len()) == entities_from(
                b@.entities,
                q,
                b@.entities.len(),
            ));
        }
    }
    lemma_same_files_same_fragments(a.files@, b.files@);
    lemma_index_any_order(a.entities@, a.files@, b.entities@, b.files@);
}

/// A workspace in which a file was patched is, to all that reads it, the
/// workspace that a reload gives with the new text in the file: it holds the
/// same texts and the same files, every file has the same entity
/// declarations, and the index is the same, so that every file has the same
/// diagnostics. Generated code is the same too: it depends on the entity
/// declarations file by file alone.
pub proof fn lemma_patch_checks_like_reload(
    a: Workspace,
    b: Workspace,
    table: Seq<(Seq<char>, Seq<char>)>,
    path: Seq<char>,
    contents: Seq<char>,
)
    requires
        distinct_paths(table),
        a@ == patched(loaded(table), path, contents),
        b@ == loaded(replaced(table, path, contents)),
    ensures
        a@.sources == b@.sources,
        a@.files == b@.files,
        same_per_file(a.entities@, b.entities@),
        index_of(a.entities@, a.files@) == index_of(b.entities@, b.files@),
{
    lemma_patch_like_reload(table, path, contents, path);
    assert forall|q: Seq<char>| #[trigger]
        entities_from(a@.entities, q, a@.entities.len()) == entities_from(
            b@.entities,
            q,
            b@.entities.len(),
        ) by {
        lemma_patch_like_reload(table, path, contents, q);
    }
    lemma_same_files_same_index(a, b);
}

} // verus!
