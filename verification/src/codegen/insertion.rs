//! The text of a typed binding module does not depend on the order in which
//! imports and exports were added to the state: both are sets, and they are
//! written in ascending order.

use vstd::prelude::*;
use vstd::multiset::Multiset;
use vstd::seq_lib::{
    lemma_sorted_unique, to_multiset_build, to_multiset_contains, to_multiset_len,
    to_multiset_remove,
};
use crate::codegen::codegen::{output, output_parts, StateModel};
use crate::codegen::python::{
    bare_modules, global_pairs, imports_code, local_module, local_pairs, PythonCodegen,
    PythonImport, PythonImportModel,
};
use crate::codegen::python_imports::{from_lines, from_section, pair_keys, pair_values};
use crate::utils::order::{lemma_text_order_total, text_order};

verus! {

/// How many of the first `n` items `f` turns into `y`.
pub open spec fn count_for<A, B>(items: Seq<A>, f: spec_fn(A) -> Option<B>, y: B, n: nat) -> nat
    decreases n,
{
    if n == 0 || n > items.len() {
        0
    } else if f(items[n - 1]) == Some(y) {
        count_for(items, f, y, (n - 1) as nat) + 1
    } else {
        count_for(items, f, y, (n - 1) as nat)
    }
}

/// What `f` makes of the first `n` items, in order, without those that it
/// makes nothing of.
pub open spec fn picked<A, B>(items: Seq<A>, f: spec_fn(A) -> Option<B>, n: nat) -> Seq<B>
    decreases n,
{
    if n == 0 || n > items.len() {
        Seq::empty()
    } else {
        match f(items[n - 1]) {
            Some(y) => picked(items, f, (n - 1) as nat).push(y),
            None => picked(items, f, (n - 1) as nat),
        }
    }
}

proof fn lemma_count_prefix<A, B>(a: Seq<A>, c: Seq<A>, f: spec_fn(A) -> Option<B>, y: B, n: nat)
    requires
        n <= a.len(),
        a.len() <= c.len(),
        forall|i: int| 0 <= i < a.len() ==> a[i] == c[i],
    ensures
        count_for(c, f, y, n) == count_for(a, f, y, n),
    decreases n,
{
    if n > 0 {
        lemma_count_prefix(a, c, f, y, (n - 1) as nat);
    }
}

proof fn lemma_count_remove<A, B>(b: Seq<A>, f: spec_fn(A) -> Option<B>, y: B, k: int, n: nat)
    requires
        0 <= k < b.len(),
        n <= b.len(),
    ensures
        n <= k ==> count_for(b, f, y, n) == count_for(b.remove(k), f, y, n),
        n > k ==> count_for(b, f, y, n) == count_for(b.remove(k), f, y, (n - 1) as nat) + (if f(
            b[k],
        ) == Some(y) {
            1nat
        } else {
            0nat
        }),
    decreases n,
{
    if n > 0 {
        lemma_count_remove(b, f, y, k, (n - 1) as nat);
        if n - 1 > k {
            assert(b.remove(k)[n - 2] == b[n - 1]);
        } else if n - 1 < k {
            assert(b.remove(k)[n - 1] == b[n - 1]);
        }
    }
}

/// How many items turn into `y` depends on the items alone, not on their
/// order.
proof fn lemma_count_any_order<A, B>(a: Seq<A>, b: Seq<A>, f: spec_fn(A) -> Option<B>, y: B)
    requires
        a.to_multiset() == b.to_multiset(),
    ensures
        count_for(a, f, y, a.len()) == count_for(b, f, y, b.len()),
    decreases a.len(),
{
    broadcast use vstd::multiset::group_multiset_axioms;

    to_multiset_len(a);
    to_multiset_len(b);
    if a.len() > 0 {
        let x = a.last();
        let shorter = a.drop_last();
        assert(a =~= shorter.push(x));
        to_multiset_build(shorter, x);
        to_multiset_contains(b, x);
        assert(b.to_multiset().count(x) > 0);
        let k = choose|k: int| 0 <= k < b.len() && b[k] == x;
        to_multiset_remove(b, k);
        assert(b.remove(k).to_multiset() =~= shorter.to_multiset());
        lemma_count_any_order(shorter, b.remove(k), f, y);
        lemma_count_prefix(shorter, a, f, y, shorter.len());
        lemma_count_remove(b, f, y, k, b.len());
    }
}

proof fn lemma_picked_count<A, B>(items: Seq<A>, f: spec_fn(A) -> Option<B>, y: B, n: nat)
    requires
        n <= items.len(),
    ensures
        picked(items, f, n).to_multiset().count(y) == count_for(items, f, y, n),
    decreases n,
{
    broadcast use vstd::multiset::group_multiset_axioms;

    if n == 0 {
        assert(picked(items, f, n).to_multiset() =~= Multiset::<B>::empty()) by {
            to_multiset_len(picked(items, f, n));
            assert(picked(items, f, n).to_multiset().len() == 0);
        }
    } else {
        lemma_picked_count(items, f, y, (n - 1) as nat);
        match f(items[n - 1]) {
            Some(z) => {
                to_multiset_build(picked(items, f, (n - 1) as nat), z);
            },
            None => {},
        }
    }
}

/// What is picked from items depends on the items alone, but for its order.
pub proof fn lemma_picked_any_order<A, B>(a: Seq<A>, b: Seq<A>, f: spec_fn(A) -> Option<B>)
    requires
        a.to_multiset() == b.to_multiset(),
    ensures
        picked(a, f, a.len()).to_multiset() == picked(b, f, b.len()).to_multiset(),
{
    assert forall|y: B|
        picked(a, f, a.len()).to_multiset().count(y) == picked(b, f, b.len()).to_multiset().count(
            y,
        ) by {
        lemma_picked_count(a, f, y, a.len());
        lemma_picked_count(b, f, y, b.len());
        lemma_count_any_order(a, b, f, y);
    }
    assert(picked(a, f, a.len()).to_multiset() =~= picked(b, f, b.len()).to_multiset());
}

/// Texts that are the same but for their order are the same in ascending
/// order.
pub proof fn lemma_sorted_any_order(a: Seq<Seq<char>>, b: Seq<Seq<char>>)
    requires
        a.to_multiset() == b.to_multiset(),
    ensures
        a.sort_by(text_order()) == b.sort_by(text_order()),
        a.len() == b.len(),
{
    lemma_text_order_total();
    a.lemma_sort_by_ensures(text_order());
    b.lemma_sort_by_ensures(text_order());
    lemma_sorted_unique(a.sort_by(text_order()), b.sort_by(text_order()), text_order());
    to_multiset_len(a);
    to_multiset_len(b);
}

/// The plain module of an import, if it is one.
pub open spec fn bare_of() -> spec_fn(PythonImportModel) -> Option<Seq<char>> {
    |import: PythonImportModel|
        match import {
            PythonImportModel::Global(module, None) => Some(module),
            _ => None,
        }
}

/// The module and the name of an import of a name from a module.
pub open spec fn global_of() -> spec_fn(PythonImportModel) -> Option<(Seq<char>, Seq<char>)> {
    |import: PythonImportModel|
        match import {
            PythonImportModel::Global(module, Some(name)) => Some((module, name)),
            _ => None,
        }
}

/// The module and the name of an import from a generated module.
pub open spec fn local_of(entity_map: Map<Seq<char>, Seq<char>>, own: Seq<char>, root: Seq<char>) -> spec_fn(
    PythonImportModel,
) -> Option<(Seq<char>, Seq<char>)> {
    |import: PythonImportModel|
        match import {
            PythonImportModel::LocalImport(entity, value) => match local_module(
                entity_map,
                own,
                root,
                entity,
            ) {
                Some(module) => Some((module, value)),
                None => None,
            },
            _ => None,
        }
}

/// The second part of a pair whose first part is `key`.
pub open spec fn value_of(key: Seq<char>) -> spec_fn((Seq<char>, Seq<char>)) -> Option<Seq<char>> {
    |pair: (Seq<char>, Seq<char>)|
        if pair.0 == key {
            Some(pair.1)
        } else {
            None
        }
}

proof fn lemma_bare_picked(imports: Seq<PythonImportModel>, n: nat)
    requires
        n <= imports.len(),
    ensures
        bare_modules(imports, n) == picked(imports, bare_of(), n),
    decreases n,
{
    if n > 0 {
        lemma_bare_picked(imports, (n - 1) as nat);
    }
}

proof fn lemma_global_picked(imports: Seq<PythonImportModel>, n: nat)
    requires
        n <= imports.len(),
    ensures
        global_pairs(imports, n) == picked(imports, global_of(), n),
    decreases n,
{
    if n > 0 {
        lemma_global_picked(imports, (n - 1) as nat);
    }
}

proof fn lemma_local_picked(
    imports: Seq<PythonImportModel>,
    entity_map: Map<Seq<char>, Seq<char>>,
    own: Seq<char>,
    root: Seq<char>,
    n: nat,
)
    requires
        n <= imports.len(),
    ensures
        local_pairs(imports, entity_map, own, root, n) == picked(
            imports,
            local_of(entity_map, own, root),
            n,
        ),
    decreases n,
{
    if n > 0 {
        lemma_local_picked(imports, entity_map, own, root, (n - 1) as nat);
    }
}

proof fn lemma_values_picked(pairs: Seq<(Seq<char>, Seq<char>)>, key: Seq<char>, n: nat)
    requires
        n <= pairs.len(),
    ensures
        pair_values(pairs, key, n) == picked(pairs, value_of(key), n),
    decreases n,
{
    if n > 0 {
        lemma_values_picked(pairs, key, (n - 1) as nat);
    }
}

/// The first parts of pairs: each once, and those of the pairs.
proof fn lemma_pair_keys(pairs: Seq<(Seq<char>, Seq<char>)>, n: nat)
    requires
        n <= pairs.len(),
    ensures
        pair_keys(pairs, n).no_duplicates(),
        forall|k: Seq<char>|
            pair_keys(pairs, n).contains(k) <==> exists|i: int|
                0 <= i < n && (#[trigger] pairs[i]).0 == k,
    decreases n,
{
    if n > 0 {
        lemma_pair_keys(pairs, (n - 1) as nat);
        let before = pair_keys(pairs, (n - 1) as nat);
        let all = pair_keys(pairs, n);
        assert forall|k: Seq<char>|
            all.contains(k) <==> exists|i: int| 0 <= i < n && (#[trigger] pairs[i]).0 == k by {
            if all.contains(k) {
                let at = choose|at: int| 0 <= at < all.len() && all[at] == k;
                if at < before.len() {
                    assert(before[at] == k);
                    assert(before.contains(k));
                    let i = choose|i: int| 0 <= i < n - 1 && (#[trigger] pairs[i]).0 == k;
                    assert(0 <= i < n && pairs[i].0 == k);
                } else {
                    assert(pairs[n - 1].0 == k);
                }
            }
            if exists|i: int| 0 <= i < n && (#[trigger] pairs[i]).0 == k {
                let i = choose|i: int| 0 <= i < n && (#[trigger] pairs[i]).0 == k;
                if i < n - 1 {
                    assert(before.contains(k));
                    let at = choose|at: int| 0 <= at < before.len() && before[at] == k;
                    assert(all[at] == k);
                } else if before.contains(k) {
                } else {
                    assert(all[before.len() as int] == k);
                }
            }
        }
    }
}

proof fn lemma_same_lines(
    a: Seq<(Seq<char>, Seq<char>)>,
    b: Seq<(Seq<char>, Seq<char>)>,
    keys: Seq<Seq<char>>,
    n: nat,
)
    requires
        a.to_multiset() == b.to_multiset(),
        n <= keys.len(),
    ensures
        from_lines(a, keys, n) == from_lines(b, keys, n),
    decreases n,
{
    if n > 0 {
        lemma_same_lines(a, b, keys, (n - 1) as nat);
        let key = keys[n - 1];
        lemma_values_picked(a, key, a.len());
        lemma_values_picked(b, key, b.len());
        lemma_picked_any_order(a, b, value_of(key));
        lemma_sorted_any_order(pair_values(a, key, a.len()), pair_values(b, key, b.len()));
    }
}

/// The `from` lines for pairs depend on the pairs alone, not on their order.
proof fn lemma_same_from_section(a: Seq<(Seq<char>, Seq<char>)>, b: Seq<(Seq<char>, Seq<char>)>)
    requires
        a.to_multiset() == b.to_multiset(),
    ensures
        from_section(a) == from_section(b),
{
    to_multiset_len(a);
    to_multiset_len(b);
    lemma_pair_keys(a, a.len());
    lemma_pair_keys(b, b.len());
    let ka = pair_keys(a, a.len());
    let kb = pair_keys(b, b.len());
    assert forall|k: Seq<char>| ka.contains(k) == kb.contains(k) by {
        if ka.contains(k) {
            let i = choose|i: int| 0 <= i < a.len() && (#[trigger] a[i]).0 == k;
            to_multiset_contains(a, a[i]);
            to_multiset_contains(b, a[i]);
            assert(a.contains(a[i]));
            let j = choose|j: int| 0 <= j < b.len() && b[j] == a[i];
            assert(b[j].0 == k);
        }
        if kb.contains(k) {
            let j = choose|j: int| 0 <= j < b.len() && (#[trigger] b[j]).0 == k;
            to_multiset_contains(a, b[j]);
            to_multiset_contains(b, b[j]);
            assert(b.contains(b[j]));
            let i = choose|i: int| 0 <= i < a.len() && a[i] == b[j];
            assert(a[i].0 == k);
        }
    }
    ka.lemma_multiset_has_no_duplicates();
    kb.lemma_multiset_has_no_duplicates();
    assert forall|k: Seq<char>| ka.to_multiset().count(k) == kb.to_multiset().count(k) by {
        to_multiset_contains(ka, k);
        to_multiset_contains(kb, k);
    }
    assert(ka.to_multiset() =~= kb.to_multiset());
    lemma_sorted_any_order(ka, kb);
    let keys = ka.sort_by(text_order());
    lemma_same_lines(a, b, keys, keys.len());
}

/// The import lines of a module depend on the imports alone, not on the
/// order in which they were added.
pub proof fn lemma_same_imports_code(
    a: Seq<PythonImportModel>,
    b: Seq<PythonImportModel>,
    entity_map: Map<Seq<char>, Seq<char>>,
    own: Seq<char>,
    root: Seq<char>,
)
    requires
        a.to_multiset() == b.to_multiset(),
    ensures
        imports_code(a, entity_map, own, root) == imports_code(b, entity_map, own, root),
{
    lemma_bare_picked(a, a.len());
    lemma_bare_picked(b, b.len());
    lemma_picked_any_order(a, b, bare_of());
    lemma_sorted_any_order(bare_modules(a, a.len()), bare_modules(b, b.len()));
    lemma_global_picked(a, a.len());
    lemma_global_picked(b, b.len());
    lemma_picked_any_order(a, b, global_of());
    lemma_same_from_section(global_pairs(a, a.len()), global_pairs(b, b.len()));
    lemma_local_picked(a, entity_map, own, root, a.len());
    lemma_local_picked(b, entity_map, own, root, b.len());
    lemma_picked_any_order(a, b, local_of(entity_map, own, root));
    lemma_same_from_section(
        local_pairs(a, entity_map, own, root, a.len()),
        local_pairs(b, entity_map, own, root, b.len()),
    );
}

/// Two states that hold the same imports, the same exports and the same
/// code give the same text, in whatever order the imports and the exports
/// were added.
pub proof fn lemma_insertion_order_does_not_matter(
    c: PythonCodegen,
    x: StateModel<PythonImportModel>,
    y: StateModel<PythonImportModel>,
)
    requires
        x.imports.to_multiset() == y.imports.to_multiset(),
        x.exports.to_multiset() == y.exports.to_multiset(),
        x.code_blocks == y.code_blocks,
    ensures
        output::<PythonImport, PythonCodegen>(c, x) == output::<PythonImport, PythonCodegen>(c, y),
{
    to_multiset_len(x.imports);
    to_multiset_len(y.imports);
    lemma_sorted_any_order(x.exports, y.exports);
    let entity_map = crate::codegen::codegen::entity_paths(c.entities@, c.entities@.len());
    lemma_same_imports_code(
        x.imports,
        y.imports,
        entity_map,
        crate::utils::paths::path_with_extension(c.file_name@, Seq::empty()),
        c.config.workspace.root.unwrap()@,
    );
    assert(output_parts::<PythonImport, PythonCodegen>(c, x) == output_parts::<
        PythonImport,
        PythonCodegen,
    >(c, y));
}

} // verus!
