//! The index of a workspace does not depend on the order in which its files
//! were read.

use vstd::prelude::*;
use vstd::relations::sorted_by;
use vstd::seq_lib::{lemma_sorted_unique, to_multiset_contains};
use crate::codegen::determinism::{
    declared_in, lemma_counterpart, lemma_same_per_file_symmetric, same_declarations,
    same_per_file,
};
use crate::parser::parse_location::Parsed;
use crate::parser::ruulang_ast::RuuLangFile;
use crate::parser::schema_ast::Entity;
use crate::typechecker::typechecker::{
    file_diagnostics, file_order, in_file_order, index_all, index_entities, index_fragments,
    index_of, of_file, of_files, origins, schema_fragments,
};
use crate::utils::error::Result;
use crate::utils::order::{lemma_text_order_total, text_order};
use crate::utils::with_origin::WithOrigin;

verus! {

/// Whether one of the files holds exactly the fragments `set`.
pub open spec fn holds_fragments(
    files: Seq<WithOrigin<Result<RuuLangFile>>>,
    set: Set<(Seq<char>, Seq<char>)>,
) -> bool {
    exists|j: int| 0 <= j < files.len() && #[trigger] schema_fragments(files[j]) == set
}

/// Whether two lists of files hold the same fragments, file by file: every
/// file of one has its like in the other.
pub open spec fn same_fragments_per_file(
    a: Seq<WithOrigin<Result<RuuLangFile>>>,
    b: Seq<WithOrigin<Result<RuuLangFile>>>,
) -> bool {
    &&& forall|i: int| 0 <= i < a.len() ==> holds_fragments(b, schema_fragments(#[trigger] a[i]))
    &&& forall|j: int| 0 <= j < b.len() ==> holds_fragments(a, schema_fragments(#[trigger] b[j]))
}

/// The paths of the files of declarations: each once, and those of the
/// files that a declaration comes from.
pub proof fn lemma_origins(entities: Seq<WithOrigin<Parsed<Entity>>>, n: nat)
    requires
        n <= entities.len(),
    ensures
        origins(entities, n).no_duplicates(),
        forall|q: Seq<char>|
            origins(entities, n).contains(q) <==> exists|i: int|
                0 <= i < n && (#[trigger] entities[i]).origin@ == q,
    decreases n,
{
    if n > 0 {
        lemma_origins(entities, (n - 1) as nat);
        let before = origins(entities, (n - 1) as nat);
        let last = entities[n - 1].origin@;
        let all = origins(entities, n);
        assert forall|q: Seq<char>|
            all.contains(q) <==> exists|i: int| 0 <= i < n && (#[trigger] entities[i]).origin@ == q by {
            if all.contains(q) {
                let at = choose|at: int| 0 <= at < all.len() && all[at] == q;
                if at < before.len() {
                    assert(before[at] == q);
                    assert(before.contains(q));
                    let i = choose|i: int| 0 <= i < n - 1 && (#[trigger] entities[i]).origin@ == q;
                    assert(0 <= i < n && entities[i].origin@ == q);
                } else {
                    assert(entities[n - 1].origin@ == q);
                }
            }
            if exists|i: int| 0 <= i < n && (#[trigger] entities[i]).origin@ == q {
                let i = choose|i: int| 0 <= i < n && (#[trigger] entities[i]).origin@ == q;
                if i < n - 1 {
                    assert(before.contains(q));
                    let at = choose|at: int| 0 <= at < before.len() && before[at] == q;
                    assert(all[at] == q);
                } else if before.contains(q) {
                } else {
                    assert(all[before.len() as int] == q);
                }
            }
        }
    }
}

/// The place at which the index takes the `i`-th declaration, which comes
/// from the `f`-th of `files`: behind the declarations of the files before
/// it, and behind the declarations of its own file that stand before it.
pub open spec fn place_of(
    entities: Seq<WithOrigin<Parsed<Entity>>>,
    files: Seq<Seq<char>>,
    f: int,
    i: int,
) -> int {
    (of_files(entities, files, f as nat).len() + of_file(entities, files[f], i as nat).len()) as int
}

proof fn lemma_of_file_grows(entities: Seq<WithOrigin<Parsed<Entity>>>, q: Seq<char>, i: nat, n: nat)
    requires
        i <= n <= entities.len(),
    ensures
        of_file(entities, q, i).len() <= of_file(entities, q, n).len(),
        forall|k: int|
            0 <= k < of_file(entities, q, i).len() ==> of_file(entities, q, n)[k] == of_file(
                entities,
                q,
                i,
            )[k],
    decreases n - i,
{
    if i < n {
        lemma_of_file_grows(entities, q, i, (n - 1) as nat);
    }
}

proof fn lemma_of_file_at(entities: Seq<WithOrigin<Parsed<Entity>>>, q: Seq<char>, n: nat, i: int)
    requires
        0 <= i < n <= entities.len(),
        entities[i].origin@ == q,
    ensures
        of_file(entities, q, i as nat).len() < of_file(entities, q, n).len(),
        of_file(entities, q, n)[of_file(entities, q, i as nat).len() as int] == entities[i],
{
    lemma_of_file_grows(entities, q, (i + 1) as nat, n);
    let upto = of_file(entities, q, (i + 1) as nat);
    assert(upto == of_file(entities, q, i as nat).push(entities[i]));
    assert(upto[of_file(entities, q, i as nat).len() as int] == entities[i]);
}

proof fn lemma_of_file_from(entities: Seq<WithOrigin<Parsed<Entity>>>, q: Seq<char>, n: nat, k: int) -> (i:
    int)
    requires
        n <= entities.len(),
        0 <= k < of_file(entities, q, n).len(),
    ensures
        0 <= i < n,
        entities[i] == of_file(entities, q, n)[k],
        entities[i].origin@ == q,
        of_file(entities, q, i as nat).len() == k,
    decreases n,
{
    if entities[n - 1].origin@ == q && k == of_file(entities, q, (n - 1) as nat).len() {
        n - 1
    } else {
        lemma_of_file_from(entities, q, (n - 1) as nat, k)
    }
}

proof fn lemma_of_files_grow(
    entities: Seq<WithOrigin<Parsed<Entity>>>,
    files: Seq<Seq<char>>,
    f: nat,
    m: nat,
)
    requires
        f <= m <= files.len(),
    ensures
        of_files(entities, files, f).len() <= of_files(entities, files, m).len(),
        forall|k: int|
            0 <= k < of_files(entities, files, f).len() ==> of_files(entities, files, m)[k]
                == of_files(entities, files, f)[k],
    decreases m - f,
{
    if f < m {
        lemma_of_files_grow(entities, files, f, (m - 1) as nat);
    }
}

proof fn lemma_of_files_at(
    entities: Seq<WithOrigin<Parsed<Entity>>>,
    files: Seq<Seq<char>>,
    f: int,
    i: int,
)
    requires
        0 <= f < files.len(),
        0 <= i < entities.len(),
        files[f] == entities[i].origin@,
    ensures
        0 <= place_of(entities, files, f, i) < of_files(entities, files, files.len()).len(),
        of_files(entities, files, files.len())[place_of(entities, files, f, i)] == entities[i],
        place_of(entities, files, f, i) < of_files(entities, files, (f + 1) as nat).len(),
{
    lemma_of_file_at(entities, files[f], entities.len(), i);
    lemma_of_files_grow(entities, files, (f + 1) as nat, files.len());
    let upto = of_files(entities, files, (f + 1) as nat);
    assert(upto[place_of(entities, files, f, i)] == entities[i]);
}

proof fn lemma_of_files_from(
    entities: Seq<WithOrigin<Parsed<Entity>>>,
    files: Seq<Seq<char>>,
    m: nat,
    k: int,
) -> (at: (int, int))
    requires
        m <= files.len(),
        0 <= k < of_files(entities, files, m).len(),
    ensures
        0 <= at.0 < entities.len(),
        0 <= at.1 < m,
        entities[at.0] == of_files(entities, files, m)[k],
        files[at.1] == entities[at.0].origin@,
        place_of(entities, files, at.1, at.0) == k,
    decreases m,
{
    let before = of_files(entities, files, (m - 1) as nat);
    if k < before.len() {
        lemma_of_files_from(entities, files, (m - 1) as nat, k)
    } else {
        let i = lemma_of_file_from(entities, files[m - 1], entities.len(), k - before.len());
        (i, m - 1)
    }
}

/// The files of the index are those that a declaration comes from, each
/// once, in the order of a dictionary.
pub proof fn lemma_file_order(entities: Seq<WithOrigin<Parsed<Entity>>>)
    ensures
        file_order(entities).no_duplicates(),
        sorted_by(file_order(entities), text_order()),
        forall|q: Seq<char>|
            file_order(entities).contains(q) <==> exists|i: int|
                0 <= i < entities.len() && (#[trigger] entities[i]).origin@ == q,
{
    let found = origins(entities, entities.len());
    let files = file_order(entities);
    lemma_origins(entities, entities.len());
    lemma_text_order_total();
    found.lemma_sort_by_ensures(text_order());
    found.lemma_multiset_has_no_duplicates();
    files.lemma_multiset_has_no_duplicates_conv();
    assert forall|q: Seq<char>| files.contains(q) == found.contains(q) by {
        to_multiset_contains(files, q);
        to_multiset_contains(found, q);
    }
}

/// What the index takes at a place is a declaration: the result is where
/// that declaration stands, and in which of the files it lies.
pub proof fn lemma_taken_is_declared(entities: Seq<WithOrigin<Parsed<Entity>>>, k: int) -> (at: (
    int,
    int,
))
    requires
        0 <= k < in_file_order(entities).len(),
    ensures
        0 <= at.0 < entities.len(),
        0 <= at.1 < file_order(entities).len(),
        entities[at.0] == in_file_order(entities)[k],
        file_order(entities)[at.1] == entities[at.0].origin@,
        place_of(entities, file_order(entities), at.1, at.0) == k,
{
    lemma_of_files_from(entities, file_order(entities), file_order(entities).len(), k)
}

/// The index takes every declaration: the result is the file of the
/// declaration among the files of the index, and the declaration stands at
/// its place.
pub proof fn lemma_declared_is_taken(entities: Seq<WithOrigin<Parsed<Entity>>>, i: int) -> (f: int)
    requires
        0 <= i < entities.len(),
    ensures
        0 <= f < file_order(entities).len(),
        file_order(entities)[f] == entities[i].origin@,
        0 <= place_of(entities, file_order(entities), f, i) < in_file_order(entities).len(),
        in_file_order(entities)[place_of(entities, file_order(entities), f, i)] == entities[i],
{
    let files = file_order(entities);
    lemma_file_order(entities);
    assert(files.contains(entities[i].origin@));
    let f = choose|f: int| 0 <= f < files.len() && files[f] == entities[i].origin@;
    lemma_of_files_at(entities, files, f, i);
    f
}

/// A declaration from a file that comes earlier in the dictionary is taken
/// earlier, and of two declarations from one file the one that stands
/// first is taken first.
pub proof fn lemma_places_in_order(
    entities: Seq<WithOrigin<Parsed<Entity>>>,
    f2: int,
    i2: int,
    f: int,
    i: int,
)
    requires
        0 <= i2 < entities.len(),
        0 <= i < entities.len(),
        0 <= f2 < file_order(entities).len(),
        0 <= f < file_order(entities).len(),
        file_order(entities)[f2] == entities[i2].origin@,
        file_order(entities)[f] == entities[i].origin@,
        f2 < f || (f2 == f && i2 < i),
    ensures
        place_of(entities, file_order(entities), f2, i2) < place_of(
            entities,
            file_order(entities),
            f,
            i,
        ),
{
    let files = file_order(entities);
    if f2 < f {
        lemma_of_files_at(entities, files, f2, i2);
        lemma_of_files_grow(entities, files, (f2 + 1) as nat, f as nat);
    } else {
        lemma_of_file_grows(entities, files[f], (i2 + 1) as nat, i as nat);
        assert(of_file(entities, files[f], (i2 + 1) as nat) == of_file(
            entities,
            files[f],
            i2 as nat,
        ).push(entities[i2]));
    }
}

/// Lists that hold the same declarations file by file come from the same
/// files.
proof fn lemma_same_file_order(
    a: Seq<WithOrigin<Parsed<Entity>>>,
    b: Seq<WithOrigin<Parsed<Entity>>>,
)
    requires
        same_per_file(a, b),
    ensures
        file_order(a) == file_order(b),
{
    lemma_origins(a, a.len());
    lemma_origins(b, b.len());
    lemma_same_per_file_symmetric(a, b);
    let oa = origins(a, a.len());
    let ob = origins(b, b.len());
    assert forall|q: Seq<char>| oa.contains(q) == ob.contains(q) by {
        if oa.contains(q) {
            let i = choose|i: int| 0 <= i < a.len() && (#[trigger] a[i]).origin@ == q;
            let j = lemma_counterpart(b, a, i);
            assert(0 <= j < b.len() && b[j].origin@ == q);
        }
        if ob.contains(q) {
            let j = choose|j: int| 0 <= j < b.len() && (#[trigger] b[j]).origin@ == q;
            let i = lemma_counterpart(a, b, j);
            assert(0 <= i < a.len() && a[i].origin@ == q);
        }
    }
    oa.lemma_multiset_has_no_duplicates();
    ob.lemma_multiset_has_no_duplicates();
    assert forall|q: Seq<char>| oa.to_multiset().count(q) == ob.to_multiset().count(q) by {
        to_multiset_contains(oa, q);
        to_multiset_contains(ob, q);
    }
    assert(oa.to_multiset() =~= ob.to_multiset());
    lemma_text_order_total();
    oa.lemma_sort_by_ensures(text_order());
    ob.lemma_sort_by_ensures(text_order());
    lemma_sorted_unique(oa.sort_by(text_order()), ob.sort_by(text_order()), text_order());
}

/// The declarations of a file, as values.
proof fn lemma_of_file(entities: Seq<WithOrigin<Parsed<Entity>>>, q: Seq<char>, n: nat)
    requires
        n <= entities.len(),
    ensures
        of_file(entities, q, n).len() == declared_in(entities, q, n).len(),
        forall|i: int|
            0 <= i < of_file(entities, q, n).len() ==> (#[trigger] of_file(entities, q, n)[i]).origin@
                == q && of_file(entities, q, n)[i].data@ == declared_in(entities, q, n)[i],
    decreases n,
{
    if n > 0 {
        lemma_of_file(entities, q, (n - 1) as nat);
    }
}

/// The records depend on the values of the declarations alone.
proof fn lemma_index_same_values(
    x: Seq<WithOrigin<Parsed<Entity>>>,
    y: Seq<WithOrigin<Parsed<Entity>>>,
    n: nat,
)
    requires
        same_declarations(x, y),
        n <= x.len(),
    ensures
        index_entities(x, n) == index_entities(y, n),
    decreases n,
{
    if n > 0 {
        lemma_index_same_values(x, y, (n - 1) as nat);
        assert(x[n - 1].origin@ == y[n - 1].origin@ && x[n - 1].data@ == y[n - 1].data@);
    }
}

/// Lists that hold the same declarations file by file give the same
/// declarations for any files, taken file by file.
proof fn lemma_of_files_same(
    a: Seq<WithOrigin<Parsed<Entity>>>,
    b: Seq<WithOrigin<Parsed<Entity>>>,
    files: Seq<Seq<char>>,
    k: nat,
)
    requires
        same_per_file(a, b),
        k <= files.len(),
    ensures
        same_declarations(of_files(a, files, k), of_files(b, files, k)),
    decreases k,
{
    if k > 0 {
        lemma_of_files_same(a, b, files, (k - 1) as nat);
        let q = files[k - 1];
        lemma_of_file(a, q, a.len());
        lemma_of_file(b, q, b.len());
        assert(declared_in(a, q, a.len()) == declared_in(b, q, b.len()));
        let xa = of_files(a, files, (k - 1) as nat);
        let xb = of_files(b, files, (k - 1) as nat);
        let ya = of_file(a, q, a.len());
        let yb = of_file(b, q, b.len());
        assert forall|i: int| 0 <= i < (xa + ya).len() implies (#[trigger] (xa + ya)[i]).origin@ == (
        #[trigger] (xb + yb)[i]).origin@ && (xa + ya)[i].data@ == (xb + yb)[i].data@ by {
            if i < xa.len() {
                assert(xa[i].origin@ == xb[i].origin@ && xa[i].data@ == xb[i].data@);
            } else {
                assert(ya[i - xa.len()].origin@ == q);
                assert(yb[i - xa.len()].origin@ == q);
            }
        }
    }
}

/// The entity records do not depend on the order in which the files stand.
proof fn lemma_entities_any_order(
    ea: Seq<WithOrigin<Parsed<Entity>>>,
    eb: Seq<WithOrigin<Parsed<Entity>>>,
)
    requires
        same_per_file(ea, eb),
    ensures
        index_all(in_file_order(ea)) == index_all(in_file_order(eb)),
{
    lemma_same_file_order(ea, eb);
    let files = file_order(ea);
    lemma_of_files_same(ea, eb, files, files.len());
    lemma_index_same_values(in_file_order(ea), in_file_order(eb), in_file_order(ea).len());
}

/// What one list of files holds, the other holds too.
proof fn lemma_fragments_carry_over(
    sa: Seq<WithOrigin<Result<RuuLangFile>>>,
    sb: Seq<WithOrigin<Result<RuuLangFile>>>,
    k: (Seq<char>, Seq<char>),
)
    requires
        forall|i: int|
            0 <= i < sa.len() ==> holds_fragments(sb, schema_fragments(#[trigger] sa[i])),
        index_fragments(sa, sa.len() as int).contains(k),
    ensures
        index_fragments(sb, sb.len() as int).contains(k),
{
    let i = choose|i: int|
        0 <= i < sa.len() && i < sa.len() && (#[trigger] schema_fragments(sa[i])).contains(k);
    assert(holds_fragments(sb, schema_fragments(sa[i])));
    let j = choose|j: int|
        0 <= j < sb.len() && #[trigger] schema_fragments(sb[j]) == schema_fragments(sa[i]);
    assert(0 <= j < sb.len() && j < sb.len() && schema_fragments(sb[j]).contains(k));
}

/// The fragments of a workspace do not depend on the order of the files.
proof fn lemma_fragments_any_order(
    sa: Seq<WithOrigin<Result<RuuLangFile>>>,
    sb: Seq<WithOrigin<Result<RuuLangFile>>>,
)
    requires
        same_fragments_per_file(sa, sb),
    ensures
        index_fragments(sa, sa.len() as int) == index_fragments(sb, sb.len() as int),
{
    let fa = index_fragments(sa, sa.len() as int);
    let fb = index_fragments(sb, sb.len() as int);
    assert forall|k: (Seq<char>, Seq<char>)| fa.contains(k) == fb.contains(k) by {
        if fa.contains(k) {
            lemma_fragments_carry_over(sa, sb, k);
        }
        if fb.contains(k) {
            lemma_fragments_carry_over(sb, sa, k);
        }
    }
    assert(fa =~= fb);
}

/// The index of a workspace does not depend on the order in which its files
/// were read: where the entity declarations are the same file by file and
/// the files hold the same fragments, the index is the same, and with it the
/// diagnostics of every file. An entity may be declared in several files.
pub proof fn lemma_index_any_order(
    ea: Seq<WithOrigin<Parsed<Entity>>>,
    sa: Seq<WithOrigin<Result<RuuLangFile>>>,
    eb: Seq<WithOrigin<Parsed<Entity>>>,
    sb: Seq<WithOrigin<Result<RuuLangFile>>>,
)
    requires
        same_per_file(ea, eb),
        same_fragments_per_file(sa, sb),
    ensures
        index_of(ea, sa) == index_of(eb, sb),
        forall|file: crate::parser::ruulang_ast::RuuLangFileModel| #[trigger]
            file_diagnostics(index_of(ea, sa), file) == file_diagnostics(index_of(eb, sb), file),
{
    lemma_entities_any_order(ea, eb);
    lemma_fragments_any_order(sa, sb);
}

} // verus!
