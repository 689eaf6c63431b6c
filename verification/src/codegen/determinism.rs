//! The text of a typed binding module is a function of the values it is
//! generated from, and it does not depend on the order in which the files of
//! the workspace were read.

use vstd::prelude::*;
use crate::codegen::codegen::{
    absorbed_onto, all_steps, entities_steps, entity_paths, entity_steps, exports_text, generated,
    lemma_representative, name_of, path_of, relationship_steps, relationships_steps, representative,
    Codegen, StateModel,
};
use crate::codegen::python::{target_entity, PythonCodegen, PythonImport, PythonImportModel};
use crate::utils::order::lemma_le_antisymmetric;
use crate::parser::parse_location::{Parsed, ParsedModel};
use crate::parser::schema_ast::{Entity, EntityModel, Relationship};
use crate::utils::text::{opt_text, views};
use crate::utils::with_origin::WithOrigin;

verus! {

/// The declarations among the first `n` that come from the file `origin`,
/// as values, in order.
pub open spec fn declared_in(
    entities: Seq<WithOrigin<Parsed<Entity>>>,
    origin: Seq<char>,
    n: nat,
) -> Seq<ParsedModel<EntityModel>>
    decreases n,
{
    if n == 0 || n > entities.len() {
        Seq::empty()
    } else if entities[n - 1].origin@ == origin {
        declared_in(entities, origin, (n - 1) as nat).push(entities[n - 1].data@)
    } else {
        declared_in(entities, origin, (n - 1) as nat)
    }
}

/// The entity declarations have the same values, one by one.
pub open spec fn same_declarations(
    a: Seq<WithOrigin<Parsed<Entity>>>,
    b: Seq<WithOrigin<Parsed<Entity>>>,
) -> bool {
    &&& a.len() == b.len()
    &&& forall|i: int|
        0 <= i < a.len() ==> (#[trigger] a[i]).origin@ == (#[trigger] b[i]).origin@ && a[i].data@
            == b[i].data@
}

/// Every file has the same entity declarations, in the same order, in both
/// lists. The files themselves may stand in another order.
pub open spec fn same_per_file(
    a: Seq<WithOrigin<Parsed<Entity>>>,
    b: Seq<WithOrigin<Parsed<Entity>>>,
) -> bool {
    forall|q: Seq<char>| #[trigger] declared_in(a, q, a.len()) == declared_in(b, q, b.len())
}

/// Two generators are given the same paths, the same workspace root, the
/// same file, and the same JSON text of it.
pub open spec fn same_file(a: PythonCodegen, b: PythonCodegen) -> bool {
    &&& a.origin@ == b.origin@
    &&& a.file_name@ == b.file_name@
    &&& a.file_json@ == b.file_json@
    &&& opt_text(a.config.workspace.root) == opt_text(b.config.workspace.root)
    &&& a.file@ == b.file@
}

/// Two generators are given the same values: the same file, and the same
/// entity declarations in the same order.
pub open spec fn same_inputs(a: PythonCodegen, b: PythonCodegen) -> bool {
    same_file(a, b) && same_declarations(a.entities@, b.entities@)
}

/// Two generators find the same entity under every name, and the same file
/// for every entity.
pub open spec fn same_lookup(a: PythonCodegen, b: PythonCodegen) -> bool {
    &&& forall|t: Seq<char>| #[trigger]
        target_entity(a.entities@, t) == target_entity(b.entities@, t)
    &&& entity_paths(a.entities@, a.entities@.len()) == entity_paths(
        b.entities@,
        b.entities@.len(),
    )
}

proof fn lemma_same_relationship_steps(
    a: PythonCodegen,
    b: PythonCodegen,
    ea: Entity,
    eb: Entity,
    ra: Relationship,
    rb: Relationship,
)
    requires
        same_file(a, b),
        same_lookup(a, b),
        ea@ == eb@,
        ra@ == rb@,
    ensures
        relationship_steps::<PythonImport, PythonCodegen>(a, ea, ra) == relationship_steps::<
            PythonImport,
            PythonCodegen,
        >(b, eb, rb),
{
    assert(target_entity(a.entities@, ra.entity_name.data.value@) == target_entity(
        b.entities@,
        ra.entity_name.data.value@,
    ));
    assert(views(ra.attributes@) == views(rb.attributes@));
    assert(ra.attributes@.len() == rb.attributes@.len()) by {
        assert(views(ra.attributes@).len() == views(rb.attributes@).len());
    }
    assert forall|k: int| 0 <= k < ra.attributes@.len() implies a.attribute_state(
        ea,
        ra,
        ra.attributes@[k].data,
    ) == b.attribute_state(eb, rb, rb.attributes@[k].data) by {
        assert(views(ra.attributes@)[k] == views(rb.attributes@)[k]);
    }
    assert(relationship_steps::<PythonImport, PythonCodegen>(a, ea, ra) =~= relationship_steps::<
        PythonImport,
        PythonCodegen,
    >(b, eb, rb));
}

proof fn lemma_same_relationships_steps(
    a: PythonCodegen,
    b: PythonCodegen,
    ea: Entity,
    eb: Entity,
    n: nat,
)
    requires
        same_file(a, b),
        same_lookup(a, b),
        ea@ == eb@,
        n <= ea.relationships@.len(),
    ensures
        ea.relationships@.len() == eb.relationships@.len(),
        relationships_steps::<PythonImport, PythonCodegen>(a, ea, n) == relationships_steps::<
            PythonImport,
            PythonCodegen,
        >(b, eb, n),
    decreases n,
{
    assert(views(ea.relationships@).len() == views(eb.relationships@).len());
    if n > 0 {
        lemma_same_relationships_steps(a, b, ea, eb, (n - 1) as nat);
        assert(views(ea.relationships@)[n - 1] == views(eb.relationships@)[n - 1]);
        lemma_same_relationship_steps(
            a,
            b,
            ea,
            eb,
            ea.relationships@[n - 1].data,
            eb.relationships@[n - 1].data,
        );
    }
}

proof fn lemma_same_entity_steps(a: PythonCodegen, b: PythonCodegen, ea: Entity, eb: Entity)
    requires
        same_file(a, b),
        same_lookup(a, b),
        ea@ == eb@,
    ensures
        entity_steps::<PythonImport, PythonCodegen>(a, ea) == entity_steps::<
            PythonImport,
            PythonCodegen,
        >(b, eb),
{
    lemma_same_relationships_steps(a, b, ea, eb, ea.relationships@.len());
    assert(views(ea.grants@).len() == views(eb.grants@).len());
    let ga = Seq::new(
        ea.grants@.len(),
        |k: int| a.grant_state(ea, ea.grants@[k].data.grant@),
    );
    let gb = Seq::new(
        eb.grants@.len(),
        |k: int| b.grant_state(eb, eb.grants@[k].data.grant@),
    );
    assert(ga =~= gb);
}

/// The steps for the entities of the generator's file depend on those
/// entities alone, given the same lookups.
proof fn lemma_same_entities_steps(a: PythonCodegen, b: PythonCodegen, na: nat, nb: nat)
    requires
        same_file(a, b),
        same_lookup(a, b),
        na <= a.entities@.len(),
        nb <= b.entities@.len(),
        declared_in(a.entities@, a.origin@, na) == declared_in(b.entities@, b.origin@, nb),
    ensures
        entities_steps::<PythonImport, PythonCodegen>(a, na) == entities_steps::<
            PythonImport,
            PythonCodegen,
        >(b, nb),
    decreases na + nb,
{
    let q = a.origin@;
    if na > 0 && a.entities@[na - 1].origin@ != q {
        lemma_same_entities_steps(a, b, (na - 1) as nat, nb);
    } else if nb > 0 && b.entities@[nb - 1].origin@ != q {
        lemma_same_entities_steps(a, b, na, (nb - 1) as nat);
    } else if na > 0 && nb > 0 {
        let ea = a.entities@[na - 1];
        let eb = b.entities@[nb - 1];
        let pa = declared_in(a.entities@, q, (na - 1) as nat);
        let pb = declared_in(b.entities@, q, (nb - 1) as nat);
        assert(pa.push(ea.data@) == pb.push(eb.data@));
        assert(pa =~= pb) by {
            assert(pa.push(ea.data@).drop_last() =~= pa);
            assert(pb.push(eb.data@).drop_last() =~= pb);
        }
        assert(ea.data@ == eb.data@) by {
            assert(pa.push(ea.data@).last() == ea.data@);
            assert(pb.push(eb.data@).last() == eb.data@);
        }
        lemma_same_entities_steps(a, b, (na - 1) as nat, (nb - 1) as nat);
        lemma_same_entity_steps(a, b, ea.data.data, eb.data.data);
    } else if na > 0 {
        let ea = a.entities@[na - 1];
        assert(declared_in(a.entities@, q, na).len() > 0);
    } else if nb > 0 {
        let eb = b.entities@[nb - 1];
        assert(declared_in(b.entities@, q, nb).len() > 0);
    }
}

proof fn lemma_no_exports(c: PythonCodegen, exports: Seq<Seq<char>>, n: nat)
    ensures
        exports_text::<PythonImport, PythonCodegen>(c, exports, n) == Seq::<Seq<char>>::empty(),
    decreases n,
{
    if n > 0 && n <= exports.len() {
        lemma_no_exports(c, exports, (n - 1) as nat);
    }
}

/// Generators with the same file, the same lookups and the same entities in
/// their file generate the same text.
proof fn lemma_same_text(a: PythonCodegen, b: PythonCodegen)
    requires
        same_file(a, b),
        same_lookup(a, b),
        declared_in(a.entities@, a.origin@, a.entities@.len()) == declared_in(
            b.entities@,
            b.origin@,
            b.entities@.len(),
        ),
    ensures
        generated::<PythonImport, PythonCodegen>(a) == generated::<PythonImport, PythonCodegen>(b),
{
    lemma_same_entities_steps(a, b, a.entities@.len(), b.entities@.len());
    let fa = *a.file;
    let fb = *b.file;
    assert(views(fa.entrypoints@) == views(fb.entrypoints@));
    assert(views(fa.fragments@) == views(fb.fragments@));
    assert(views(fa.entrypoints@).len() == views(fb.entrypoints@).len());
    assert(views(fa.fragments@).len() == views(fb.fragments@).len());
    let epa = Seq::new(fa.entrypoints@.len(), |k: int| a.entrypoint_state(fa.entrypoints@[k].data));
    let epb = Seq::new(fb.entrypoints@.len(), |k: int| b.entrypoint_state(fb.entrypoints@[k].data));
    assert(epa =~= epb) by {
        assert forall|k: int| 0 <= k < fa.entrypoints@.len() implies epa[k] == epb[k] by {
            assert(views(fa.entrypoints@)[k] == views(fb.entrypoints@)[k]);
        }
    }
    let fra = Seq::new(fa.fragments@.len(), |k: int| a.fragment_state(fa.fragments@[k].data));
    let frb = Seq::new(fb.fragments@.len(), |k: int| b.fragment_state(fb.fragments@[k].data));
    assert(fra =~= frb) by {
        assert forall|k: int| 0 <= k < fa.fragments@.len() implies fra[k] == frb[k] by {
            assert(views(fa.fragments@)[k] == views(fb.fragments@)[k]);
        }
    }
    assert(a.footer_state() == b.footer_state());
    assert(all_steps::<PythonImport, PythonCodegen>(a) == all_steps::<PythonImport, PythonCodegen>(
        b,
    ));
    let state = absorbed_onto(
        StateModel::<PythonImportModel>::empty(),
        all_steps::<PythonImport, PythonCodegen>(a),
    );
    let sorted = state.exports.sort_by(crate::utils::order::text_order());
    lemma_no_exports(a, sorted, sorted.len());
    lemma_no_exports(b, sorted, sorted.len());
}

proof fn lemma_same_representative(
    a: Seq<WithOrigin<Parsed<Entity>>>,
    b: Seq<WithOrigin<Parsed<Entity>>>,
    name: Seq<char>,
    n: nat,
)
    requires
        same_declarations(a, b),
        n <= a.len(),
    ensures
        representative(a, name, n) == representative(b, name, n),
    decreases n,
{
    if n > 0 {
        lemma_same_representative(a, b, name, (n - 1) as nat);
        assert(a[n - 1].origin@ == b[n - 1].origin@ && a[n - 1].data@ == b[n - 1].data@);
        match representative(a, name, (n - 1) as nat) {
            Some(i) => {
                lemma_representative(a, name, (n - 1) as nat);
                assert(a[i].origin@ == b[i].origin@);
            },
            None => {},
        }
    }
}

proof fn lemma_same_declared(
    a: Seq<WithOrigin<Parsed<Entity>>>,
    b: Seq<WithOrigin<Parsed<Entity>>>,
    q: Seq<char>,
    n: nat,
)
    requires
        same_declarations(a, b),
        n <= a.len(),
    ensures
        declared_in(a, q, n) == declared_in(b, q, n),
    decreases n,
{
    if n > 0 {
        lemma_same_declared(a, b, q, (n - 1) as nat);
        assert(a[n - 1].origin@ == b[n - 1].origin@ && a[n - 1].data@ == b[n - 1].data@);
    }
}

proof fn lemma_same_paths(
    a: Seq<WithOrigin<Parsed<Entity>>>,
    b: Seq<WithOrigin<Parsed<Entity>>>,
    n: nat,
)
    requires
        same_declarations(a, b),
        n <= a.len(),
    ensures
        entity_paths(a, n) == entity_paths(b, n),
    decreases n,
{
    if n > 0 {
        lemma_same_paths(a, b, (n - 1) as nat);
        assert(a[n - 1].origin@ == b[n - 1].origin@ && a[n - 1].data@ == b[n - 1].data@);
        let name = name_of(a[n - 1]);
        lemma_same_representative(a, b, name, a.len());
        lemma_representative(a, name, a.len());
        match representative(a, name, a.len()) {
            Some(i) => {
                assert(a[i].origin@ == b[i].origin@);
            },
            None => {},
        }
    }
}

/// Two generators that are given the same values generate the same text.
pub proof fn lemma_same_inputs_same_text(a: PythonCodegen, b: PythonCodegen)
    requires
        same_inputs(a, b),
    ensures
        generated::<PythonImport, PythonCodegen>(a) == generated::<PythonImport, PythonCodegen>(b),
{
    let ea = a.entities@;
    let eb = b.entities@;
    assert forall|t: Seq<char>| #[trigger] target_entity(ea, t) == target_entity(eb, t) by {
        lemma_same_representative(ea, eb, t, ea.len());
        lemma_representative(ea, t, ea.len());
        match representative(ea, t, ea.len()) {
            Some(i) => {
                assert(ea[i].data@ == eb[i].data@);
            },
            None => {},
        }
    }
    lemma_same_paths(ea, eb, ea.len());
    lemma_same_declared(ea, eb, a.origin@, ea.len());
    lemma_same_text(a, b);
}

/// A declaration of a file stands among the declarations of that file.
proof fn lemma_member_declared(
    entities: Seq<WithOrigin<Parsed<Entity>>>,
    q: Seq<char>,
    n: nat,
    i: int,
) -> (k: int)
    requires
        0 <= i < n <= entities.len(),
        entities[i].origin@ == q,
    ensures
        0 <= k < declared_in(entities, q, n).len(),
        declared_in(entities, q, n)[k] == entities[i].data@,
    decreases n,
{
    if i == n - 1 {
        declared_in(entities, q, (n - 1) as nat).len() as int
    } else {
        lemma_member_declared(entities, q, (n - 1) as nat, i)
    }
}

/// What stands among the declarations of a file is a declaration of that
/// file.
proof fn lemma_declared_member(
    entities: Seq<WithOrigin<Parsed<Entity>>>,
    q: Seq<char>,
    n: nat,
    k: int,
) -> (i: int)
    requires
        n <= entities.len(),
        0 <= k < declared_in(entities, q, n).len(),
    ensures
        0 <= i < n,
        entities[i].origin@ == q,
        entities[i].data@ == declared_in(entities, q, n)[k],
    decreases n,
{
    if n == 0 {
        0
    } else if entities[n - 1].origin@ == q && k == declared_in(entities, q, (n - 1) as nat).len() {
        n - 1
    } else {
        lemma_declared_member(entities, q, (n - 1) as nat, k)
    }
}

/// A declaration of one list has its like, from the same file, in the other.
pub proof fn lemma_counterpart(
    a: Seq<WithOrigin<Parsed<Entity>>>,
    b: Seq<WithOrigin<Parsed<Entity>>>,
    j: int,
) -> (i: int)
    requires
        same_per_file(a, b),
        0 <= j < b.len(),
    ensures
        0 <= i < a.len(),
        a[i].origin@ == b[j].origin@,
        a[i].data@ == b[j].data@,
{
    let q = b[j].origin@;
    let k = lemma_member_declared(b, q, b.len(), j);
    assert(declared_in(a, q, a.len()) == declared_in(b, q, b.len()));
    lemma_declared_member(a, q, a.len(), k)
}

pub proof fn lemma_same_per_file_symmetric(
    a: Seq<WithOrigin<Parsed<Entity>>>,
    b: Seq<WithOrigin<Parsed<Entity>>>,
)
    requires
        same_per_file(a, b),
    ensures
        same_per_file(b, a),
{
    assert forall|q: Seq<char>| #[trigger] declared_in(b, q, b.len()) == declared_in(
        a,
        q,
        a.len(),
    ) by {
        assert(declared_in(a, q, a.len()) == declared_in(b, q, b.len()));
    }
}

/// The first of the first `n` values that is an entity named `name`.
pub open spec fn first_value(values: Seq<ParsedModel<EntityModel>>, name: Seq<char>, n: nat) -> Option<
    ParsedModel<EntityModel>,
>
    decreases n,
{
    if n == 0 || n > values.len() {
        None
    } else {
        match first_value(values, name, (n - 1) as nat) {
            Some(x) => Some(x),
            None => if values[n - 1].data.name.data.value == name {
                Some(values[n - 1])
            } else {
                None
            },
        }
    }
}

/// The first of the first `n` declarations that declares `name` in the file
/// `q`, as a value.
pub open spec fn first_in_file(
    entities: Seq<WithOrigin<Parsed<Entity>>>,
    name: Seq<char>,
    q: Seq<char>,
    n: nat,
) -> Option<ParsedModel<EntityModel>>
    decreases n,
{
    if n == 0 || n > entities.len() {
        None
    } else {
        match first_in_file(entities, name, q, (n - 1) as nat) {
            Some(x) => Some(x),
            None => if name_of(entities[n - 1]) == name && entities[n - 1].origin@ == q {
                Some(entities[n - 1].data@)
            } else {
                None
            },
        }
    }
}

proof fn lemma_first_in_file_at(
    entities: Seq<WithOrigin<Parsed<Entity>>>,
    name: Seq<char>,
    q: Seq<char>,
    n: nat,
    i: int,
)
    requires
        n <= entities.len(),
        0 <= i,
        i < n ==> name_of(entities[i]) == name && entities[i].origin@ == q,
        forall|j: int|
            0 <= j < i && j < n && name_of(#[trigger] entities[j]) == name ==> entities[j].origin@
                != q,
    ensures
        first_in_file(entities, name, q, n) == (if i < n {
            Some(entities[i].data@)
        } else {
            None
        }),
    decreases n,
{
    if n > 0 {
        lemma_first_in_file_at(entities, name, q, (n - 1) as nat, i);
    }
}

proof fn lemma_first_value_prefix(
    a: Seq<ParsedModel<EntityModel>>,
    c: Seq<ParsedModel<EntityModel>>,
    name: Seq<char>,
    n: nat,
)
    requires
        n <= a.len(),
        a.len() <= c.len(),
        forall|i: int| 0 <= i < a.len() ==> a[i] == c[i],
    ensures
        first_value(c, name, n) == first_value(a, name, n),
    decreases n,
{
    if n > 0 {
        lemma_first_value_prefix(a, c, name, (n - 1) as nat);
    }
}

/// The first declaration of a name in a file is the first among the
/// declarations of that file.
proof fn lemma_first_in_file_value(
    entities: Seq<WithOrigin<Parsed<Entity>>>,
    name: Seq<char>,
    q: Seq<char>,
    n: nat,
)
    requires
        n <= entities.len(),
    ensures
        first_in_file(entities, name, q, n) == first_value(
            declared_in(entities, q, n),
            name,
            declared_in(entities, q, n).len(),
        ),
    decreases n,
{
    if n > 0 {
        lemma_first_in_file_value(entities, name, q, (n - 1) as nat);
        let before = declared_in(entities, q, (n - 1) as nat);
        let last = entities[n - 1];
        if last.origin@ == q {
            lemma_first_value_prefix(before, before.push(last.data@), name, before.len());
        }
    }
}

/// Where the files are the same but for their order, the same declaration
/// stands for an entity, and it lies in the same file.
pub proof fn lemma_same_target_any_order(
    a: Seq<WithOrigin<Parsed<Entity>>>,
    b: Seq<WithOrigin<Parsed<Entity>>>,
    name: Seq<char>,
)
    requires
        same_per_file(a, b),
    ensures
        target_entity(a, name) == target_entity(b, name),
        path_of(a, name) == path_of(b, name),
        representative(a, name, a.len()).is_some() == representative(b, name, b.len()).is_some(),
{
    lemma_representative(a, name, a.len());
    lemma_representative(b, name, b.len());
    lemma_same_per_file_symmetric(a, b);
    match (representative(a, name, a.len()), representative(b, name, b.len())) {
        (Some(i), Some(j)) => {
            let i2 = lemma_counterpart(a, b, j);
            assert(name_of(a[i2]) == name);
            let j2 = lemma_counterpart(b, a, i);
            assert(name_of(b[j2]) == name);
            lemma_le_antisymmetric(a[i].origin@, b[j].origin@);
            let q = a[i].origin@;
            lemma_first_in_file_at(a, name, q, a.len(), i);
            lemma_first_in_file_at(b, name, q, b.len(), j);
            lemma_first_in_file_value(a, name, q, a.len());
            lemma_first_in_file_value(b, name, q, b.len());
            assert(declared_in(a, q, a.len()) == declared_in(b, q, b.len()));
        },
        (Some(i), None) => {
            let j2 = lemma_counterpart(b, a, i);
            assert(name_of(b[j2]) == name);
        },
        (None, Some(j)) => {
            let i2 = lemma_counterpart(a, b, j);
            assert(name_of(a[i2]) == name);
        },
        (None, None) => {},
    }
}

/// The entities that have a file, and the file of each.
proof fn lemma_paths(entities: Seq<WithOrigin<Parsed<Entity>>>, n: nat, name: Seq<char>)
    requires
        n <= entities.len(),
    ensures
        entity_paths(entities, n).contains_key(name) <==> exists|i: int|
            0 <= i < n && name_of(#[trigger] entities[i]) == name,
        entity_paths(entities, n).contains_key(name) ==> entity_paths(entities, n)[name] == path_of(
            entities,
            name,
        ),
    decreases n,
{
    if n > 0 {
        lemma_paths(entities, (n - 1) as nat, name);
        let last = entities[n - 1];
        if name_of(last) == name {
            assert(0 <= n - 1 < n && name_of(entities[n - 1]) == name);
        } else {
            if exists|i: int| 0 <= i < n && name_of(#[trigger] entities[i]) == name {
                let i = choose|i: int| 0 <= i < n && name_of(#[trigger] entities[i]) == name;
                assert(0 <= i < n - 1 && name_of(entities[i]) == name);
            }
            if exists|i: int| 0 <= i < n - 1 && name_of(#[trigger] entities[i]) == name {
                let i = choose|i: int| 0 <= i < n - 1 && name_of(#[trigger] entities[i]) == name;
                assert(0 <= i < n && name_of(entities[i]) == name);
            }
        }
    }
}

/// The text of a module does not depend on the order in which the files of
/// the workspace were read: two generators that are given the same file, and
/// entity declarations that are the same file by file, generate the same
/// text. An entity may be declared in several files.
pub proof fn lemma_file_order_does_not_matter(a: PythonCodegen, b: PythonCodegen)
    requires
        same_file(a, b),
        same_per_file(a.entities@, b.entities@),
    ensures
        generated::<PythonImport, PythonCodegen>(a) == generated::<PythonImport, PythonCodegen>(b),
{
    let ea = a.entities@;
    let eb = b.entities@;
    assert forall|t: Seq<char>| #[trigger] target_entity(ea, t) == target_entity(eb, t) by {
        lemma_same_target_any_order(ea, eb, t);
    }
    let pa = entity_paths(ea, ea.len());
    let pb = entity_paths(eb, eb.len());
    assert forall|t: Seq<char>| pa.contains_key(t) == pb.contains_key(t) by {
        lemma_paths(ea, ea.len(), t);
        lemma_paths(eb, eb.len(), t);
        lemma_same_target_any_order(ea, eb, t);
        lemma_representative(ea, t, ea.len());
        lemma_representative(eb, t, eb.len());
    }
    assert forall|t: Seq<char>| pa.contains_key(t) implies pa[t] == pb[t] by {
        lemma_paths(ea, ea.len(), t);
        lemma_paths(eb, eb.len(), t);
        lemma_same_target_any_order(ea, eb, t);
    }
    assert(pa =~= pb);
    assert(declared_in(ea, a.origin@, ea.len()) == declared_in(eb, a.origin@, eb.len()));
    lemma_same_text(a, b);
}

} // verus!
