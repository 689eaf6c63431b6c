//! The framework that code generators plug into: a state that collects
//! imports, exports and blocks of code, and a driver that walks a file in a
//! fixed order and asks the generator for a state at each step.

use vstd::prelude::*;
use crate::config::config::RuuLangConfig;
use crate::parser::parse_location::Parsed;
use crate::parser::ruulang_ast::{Attribute, Entrypoint, Fragment, RuuLangFile};
use crate::parser::schema_ast::{Entity, Relationship};
use crate::utils::order::{
    lemma_le_reflexive, lemma_le_total, lemma_le_transitive, sort_texts, text_le, text_le_exec,
    text_order,
};
use crate::utils::paths::{path_with_extension, with_extension};
use crate::utils::text::{join, join_texts, opt_text, texts, views};
use crate::utils::with_origin::WithOrigin;

verus! {

/// What a generator uses to name an import. Two names are the same import
/// exactly when their views are equal.
pub trait ImportKey: View + Sized {
    fn same_as(&self, other: &Self) -> (r: bool)
        ensures
            r == (self@ == other@),
    ;
}

/// `items` with `x` at the end, unless `x` is in it already.
pub open spec fn with_item<V>(items: Seq<V>, x: V) -> Seq<V> {
    if items.contains(x) {
        items
    } else {
        items.push(x)
    }
}

/// `items` with the first `n` of `more` added one by one, each unless it is
/// there already.
pub open spec fn with_items<V>(items: Seq<V>, more: Seq<V>, n: nat) -> Seq<V>
    decreases n,
{
    if n == 0 || n > more.len() {
        items
    } else {
        with_item(with_items(items, more, (n - 1) as nat), more[n - 1])
    }
}

/// The mathematical value of a [`CodegenState`]. No import and no export
/// stands twice in it; the code blocks are in the order in which they were
/// written.
pub struct StateModel<V> {
    pub imports: Seq<V>,
    pub exports: Seq<Seq<char>>,
    pub code_blocks: Seq<Seq<char>>,
}

impl<V> StateModel<V> {
    pub open spec fn empty() -> Self {
        StateModel { imports: Seq::empty(), exports: Seq::empty(), code_blocks: Seq::empty() }
    }

    /// This state followed by `other`: the imports and exports of both, and
    /// the code of this state before the code of `other`.
    pub open spec fn concat(self, other: Self) -> Self {
        StateModel {
            imports: with_items(self.imports, other.imports, other.imports.len()),
            exports: with_items(self.exports, other.exports, other.exports.len()),
            code_blocks: self.code_blocks + other.code_blocks,
        }
    }

    /// This state followed by what a step of the generator gave, if it gave
    /// anything.
    pub open spec fn absorb(self, step: Option<Self>) -> Self {
        match step {
            Some(other) => self.concat(other),
            None => self,
        }
    }
}

/// `base` followed by what each of `steps` gave, in order.
pub open spec fn absorbed_onto<V>(base: StateModel<V>, steps: Seq<Option<StateModel<V>>>) -> StateModel<
    V,
>
    decreases steps.len(),
{
    if steps.len() == 0 {
        base
    } else {
        absorbed_onto(base, steps.drop_last()).absorb(steps.last())
    }
}

/// Steps taken one group after another add up as the groups joined do.
pub proof fn lemma_absorbed_in_groups<V>(
    base: StateModel<V>,
    a: Seq<Option<StateModel<V>>>,
    b: Seq<Option<StateModel<V>>>,
)
    ensures
        absorbed_onto(base, a + b) == absorbed_onto(absorbed_onto(base, a), b),
    decreases b.len(),
{
    if b.len() == 0 {
        assert(a + b =~= a);
    } else {
        lemma_absorbed_in_groups(base, a, b.drop_last());
        assert((a + b).drop_last() =~= a + b.drop_last());
        assert((a + b).last() == b.last());
    }
}

/// One more step.
pub proof fn lemma_absorbed_one_more<V>(
    base: StateModel<V>,
    a: Seq<Option<StateModel<V>>>,
    x: Option<StateModel<V>>,
)
    ensures
        absorbed_onto(base, a.push(x)) == absorbed_onto(base, a).absorb(x),
{
    assert(a.push(x).drop_last() =~= a);
}

/// What a generator has collected so far.
pub struct CodegenState<I: ImportKey> {
    imports: Vec<I>,
    exports: Vec<String>,
    code_blocks: Vec<String>,
}

impl<I: ImportKey> View for CodegenState<I> {
    type V = StateModel<I::V>;

    closed spec fn view(&self) -> StateModel<I::V> {
        StateModel {
            imports: views(self.imports@),
            exports: texts(self.exports@),
            code_blocks: texts(self.code_blocks@),
        }
    }
}

/// The value of what a step of a generator gave.
pub open spec fn step_view<I: ImportKey>(step: Option<CodegenState<I>>) -> Option<StateModel<I::V>> {
    match step {
        Some(s) => Some(s@),
        None => None,
    }
}

fn position_of<I: ImportKey>(items: &Vec<I>, x: &I) -> (r: Option<usize>)
    ensures
        r.is_some() == views(items@).contains(x@),
{
    let mut i: usize = 0;
    while i < items.len()
        invariant
            i <= items@.len(),
            forall|k: int| 0 <= k < i ==> views(items@)[k] != x@,
        decreases items@.len() - i,
    {
        if items[i].same_as(x) {
            assert(views(items@)[i as int] == x@);
            return Some(i);
        }
        i += 1;
    }
    None
}

fn position_of_text(items: &Vec<String>, x: &String) -> (r: Option<usize>)
    ensures
        r.is_some() == texts(items@).contains(x@),
{
    let mut i: usize = 0;
    while i < items.len()
        invariant
            i <= items@.len(),
            forall|k: int| 0 <= k < i ==> texts(items@)[k] != x@,
        decreases items@.len() - i,
    {
        if items[i] == *x {
            assert(texts(items@)[i as int] == x@);
            return Some(i);
        }
        i += 1;
    }
    None
}

impl<I: ImportKey> CodegenState<I> {
    /// A state with nothing in it.
    pub fn new() -> (r: Self)
        ensures
            r@ == StateModel::<I::V>::empty(),
    {
        let r = CodegenState { imports: Vec::new(), exports: Vec::new(), code_blocks: Vec::new() };
        proof {
            assert(r@.imports =~= Seq::empty());
            assert(r@.exports =~= Seq::empty());
            assert(r@.code_blocks =~= Seq::empty());
        }
        r
    }

    /// Adds an import, unless it is there already.
    pub fn add_import(&mut self, import: I)
        ensures
            final(self)@ == (StateModel {
                imports: with_item(old(self)@.imports, import@),
                ..old(self)@
            }),
    {
        if position_of(&self.imports, &import).is_none() {
            self.imports.push(import);
            proof {
                assert(views(self.imports@) =~= views(old(self).imports@).push(import@));
            }
        }
    }

    /// Adds an export, unless it is there already.
    pub fn add_export(&mut self, export: String)
        ensures
            final(self)@ == (StateModel {
                exports: with_item(old(self)@.exports, export@),
                ..old(self)@
            }),
    {
        if position_of_text(&self.exports, &export).is_none() {
            self.exports.push(export);
            proof {
                assert(texts(self.exports@) =~= texts(old(self).exports@).push(export@));
            }
        }
    }

    /// Adds a block of code after those that are there.
    pub fn write_code(&mut self, code: String)
        ensures
            final(self)@ == (StateModel {
                code_blocks: old(self)@.code_blocks.push(code@),
                ..old(self)@
            }),
    {
        self.code_blocks.push(code);
        proof {
            assert(texts(self.code_blocks@) =~= texts(old(self).code_blocks@).push(code@));
        }
    }

    /// This state followed by `other`.
    pub fn concat(self, other: CodegenState<I>) -> (r: Self)
        ensures
            r@ == self@.concat(other@),
    {
        let ghost target = self@.concat(other@);
        let CodegenState { imports, exports, code_blocks } = self;
        let CodegenState { imports: more_imports, exports: more_exports, code_blocks: more_code } =
            other;
        let mut imports = imports;
        let mut rest = more_imports;
        let ghost all_imports = views(rest@);
        let ghost first_imports = views(imports@);
        let ghost mut k: int = 0;
        assert(views(rest@).skip(0) =~= views(rest@));
        while rest.len() > 0
            invariant
                0 <= k,
                k + rest@.len() == all_imports.len(),
                views(rest@) == all_imports.skip(k),
                views(imports@) == with_items(first_imports, all_imports, k as nat),
            decreases rest@.len(),
        {
            let ghost before = rest@;
            let ghost held = imports@;
            let x = rest.remove(0);
            assert(x@ == all_imports[k]) by {
                assert(views(before)[0] == all_imports.skip(k)[0]);
            }
            assert(views(rest@) =~= all_imports.skip(k + 1)) by {
                assert forall|j: int| 0 <= j < rest@.len() implies views(rest@)[j]
                    == all_imports.skip(k + 1)[j] by {
                    assert(rest@[j] == before[j + 1]);
                    assert(views(before)[j + 1] == all_imports.skip(k)[j + 1]);
                }
            }
            if position_of(&imports, &x).is_none() {
                imports.push(x);
                assert(views(imports@) =~= views(held).push(x@));
            }
            proof {
                k = k + 1;
            }
        }
        let mut exports = exports;
        let ghost all_exports = texts(more_exports@);
        let ghost first_exports = texts(exports@);
        let mut j: usize = 0;
        while j < more_exports.len()
            invariant
                j <= more_exports@.len(),
                all_exports == texts(more_exports@),
                texts(exports@) == with_items(first_exports, all_exports, j as nat),
            decreases more_exports@.len() - j,
        {
            let ghost held = exports@;
            if position_of_text(&exports, &more_exports[j]).is_none() {
                exports.push(more_exports[j].clone());
                assert(texts(exports@) =~= texts(held).push(more_exports@[j as int]@));
            }
            j += 1;
        }
        let mut code_blocks = code_blocks;
        let mut more_code = more_code;
        let ghost code_a = texts(code_blocks@);
        let ghost code_b = texts(more_code@);
        code_blocks.append(&mut more_code);
        let r = CodegenState { imports, exports, code_blocks };
        proof {
            assert(texts(r.code_blocks@) =~= code_a + code_b);
        }
        r
    }

    /// This state followed by what a step of the generator gave, if it gave
    /// anything.
    pub fn absorb(self, step: Option<CodegenState<I>>) -> (r: Self)
        ensures
            r@ == self@.absorb(step_view(step)),
    {
        match step {
            Some(other) => self.concat(other),
            None => self,
        }
    }
}

/// The file in which each entity lies, without its extension, by entity
/// name. A name that is filed again takes the place of what was filed
/// under it.
pub struct EntityMap {
    entries: Vec<(String, String)>,
}

impl View for EntityMap {
    type V = Map<Seq<char>, Seq<char>>;

    closed spec fn view(&self) -> Map<Seq<char>, Seq<char>> {
        Map::new(
            |k: Seq<char>| self.position(k).is_some(),
            |k: Seq<char>| self.entries@[self.position(k).unwrap()].1@,
        )
    }
}

impl EntityMap {
    closed spec fn position(self, key: Seq<char>) -> Option<int> {
        if exists|i: int| 0 <= i < self.entries@.len() && (#[trigger] self.entries@[i]).0@ == key {
            Some(
                choose|i: int| 0 <= i < self.entries@.len() && (#[trigger] self.entries@[i]).0@ == key,
            )
        } else {
            None
        }
    }

    /// No name stands twice.
    pub closed spec fn wf(self) -> bool {
        forall|i: int, j: int|
            0 <= i < j < self.entries@.len() ==> (#[trigger] self.entries@[i]).0@ != (
            #[trigger] self.entries@[j]).0@
    }

    proof fn lemma_position(self, i: int)
        requires
            self.wf(),
            0 <= i < self.entries@.len(),
        ensures
            self.position(self.entries@[i].0@) == Some(i),
    {
        let key = self.entries@[i].0@;
        let j = choose|j: int| 0 <= j < self.entries@.len() && (#[trigger] self.entries@[j]).0@ == key;
        if j < i {
            assert(self.entries@[j].0@ != self.entries@[i].0@);
        } else if i < j {
            assert(self.entries@[i].0@ != self.entries@[j].0@);
        }
    }

    pub fn new() -> (r: Self)
        ensures
            r.wf(),
            r@ == Map::<Seq<char>, Seq<char>>::empty(),
    {
        let r = EntityMap { entries: Vec::new() };
        assert(r@ =~= Map::<Seq<char>, Seq<char>>::empty());
        r
    }

    fn find(&self, name: &str) -> (r: Option<usize>)
        requires
            self.wf(),
        ensures
            match r {
                Some(i) => i < self.entries@.len() && self.position(name@) == Some(i as int),
                None => self.position(name@).is_none(),
            },
    {
        let wanted = name.to_owned();
        let mut i: usize = 0;
        while i < self.entries.len()
            invariant
                self.wf(),
                wanted@ == name@,
                i <= self.entries@.len(),
                forall|k: int| 0 <= k < i ==> (#[trigger] self.entries@[k]).0@ != name@,
            decreases self.entries@.len() - i,
        {
            if self.entries[i].0 == wanted {
                proof {
                    self.lemma_position(i as int);
                }
                return Some(i);
            }
            i += 1;
        }
        None
    }

    /// Files `path` under `name`, in place of what was there.
    pub fn insert(&mut self, name: String, path: String)
        requires
            old(self).wf(),
        ensures
            final(self).wf(),
            final(self)@ == old(self)@.insert(name@, path@),
    {
        let ghost before = *self;
        match self.find(name.as_str()) {
            Some(i) => {
                self.entries.remove(i);
                self.entries.insert(i, (name, path));
                proof {
                    assert(self.entries@ =~= before.entries@.update(i as int, (name, path)));
                    assert(self.wf());
                    assert forall|k: Seq<char>|
                        self@.contains_key(k) == before@.insert(name@, path@).contains_key(k) by {
                        if before.position(k).is_some() {
                            let a = before.position(k).unwrap();
                            assert(self.entries@[a].0@ == k);
                        }
                        if self.position(k).is_some() {
                            let a = self.position(k).unwrap();
                            assert(before.entries@[a].0@ == k);
                        }
                    }
                    assert forall|k: Seq<char>| self@.contains_key(k) implies self@[k]
                        == before@.insert(name@, path@)[k] by {
                        let a = self.position(k).unwrap();
                        self.lemma_position(a);
                        if k == name@ {
                            self.lemma_position(i as int);
                        } else {
                            assert(before.entries@[a].0@ == k);
                            before.lemma_position(a);
                        }
                    }
                    assert(self@ =~= before@.insert(name@, path@));
                }
            },
            None => {
                self.entries.push((name, path));
                proof {
                    let n = before.entries@.len() as int;
                    assert forall|a: int| 0 <= a < n implies self.entries@[a]
                        == before.entries@[a] by {}
                    assert(self.wf());
                    assert forall|k: Seq<char>|
                        self@.contains_key(k) == before@.insert(name@, path@).contains_key(k) by {
                        if before.position(k).is_some() {
                            let a = before.position(k).unwrap();
                            assert(self.entries@[a].0@ == k);
                        }
                        if self.position(k).is_some() {
                            let a = self.position(k).unwrap();
                            if a < n {
                                assert(before.entries@[a].0@ == k);
                            }
                        }
                        if k == name@ {
                            self.lemma_position(n);
                        }
                    }
                    assert forall|k: Seq<char>| self@.contains_key(k) implies self@[k]
                        == before@.insert(name@, path@)[k] by {
                        let a = self.position(k).unwrap();
                        self.lemma_position(a);
                        if k == name@ {
                            self.lemma_position(n);
                        } else {
                            assert(a < n);
                            assert(before.entries@[a].0@ == k);
                            before.lemma_position(a);
                        }
                    }
                    assert(self@ =~= before@.insert(name@, path@));
                }
            },
        }
    }

    /// The file of the entity `name`, without its extension.
    pub fn get<'a>(&'a self, name: &str) -> (r: Option<&'a String>)
        requires
            self.wf(),
        ensures
            r.is_some() == self@.contains_key(name@),
            r.is_some() ==> r.unwrap()@ == self@[name@],
    {
        match self.find(name) {
            Some(i) => Some(&self.entries[i].1),
            None => None,
        }
    }
}

/// The name of the entity that a declaration declares.
pub open spec fn name_of(decl: WithOrigin<Parsed<Entity>>) -> Seq<char> {
    decl.data.data.name.data.value@
}

/// The declaration, among the first `n`, that stands for the entity `name`
/// wherever a module has to name that entity from outside, by its place in
/// the list.
///
/// An entity may be declared several times, in one file or in several. The
/// declaration that stands for it is the first one in the file whose path
/// comes first in dictionary order, among the files that declare it. The
/// choice depends on no order in which the files were read.
pub open spec fn representative(
    entities: Seq<WithOrigin<Parsed<Entity>>>,
    name: Seq<char>,
    n: nat,
) -> Option<int>
    decreases n,
{
    if n == 0 || n > entities.len() {
        None
    } else {
        let before = representative(entities, name, (n - 1) as nat);
        if name_of(entities[n - 1]) != name {
            before
        } else {
            match before {
                Some(i) if text_le(entities[i].origin@, entities[n - 1].origin@) => before,
                _ => Some(n - 1),
            }
        }
    }
}

/// What makes a declaration the one that stands for its entity: no
/// declaration of the entity lies in a file that comes earlier, and none
/// stands before it in its own file.
pub proof fn lemma_representative(entities: Seq<WithOrigin<Parsed<Entity>>>, name: Seq<char>, n: nat)
    requires
        n <= entities.len(),
    ensures
        match representative(entities, name, n) {
            Some(i) => {
                &&& 0 <= i < n
                &&& name_of(entities[i]) == name
                &&& forall|j: int|
                    0 <= j < n && name_of(#[trigger] entities[j]) == name ==> text_le(
                        entities[i].origin@,
                        entities[j].origin@,
                    )
                &&& forall|j: int|
                    0 <= j < i && name_of(#[trigger] entities[j]) == name ==> entities[j].origin@
                        != entities[i].origin@
            },
            None => forall|j: int| 0 <= j < n ==> name_of(#[trigger] entities[j]) != name,
        },
    decreases n,
{
    if n > 0 {
        lemma_representative(entities, name, (n - 1) as nat);
        let last = entities[n - 1];
        if name_of(last) == name {
            match representative(entities, name, (n - 1) as nat) {
                Some(i) => {
                    if text_le(entities[i].origin@, last.origin@) {
                    } else {
                        lemma_le_total(entities[i].origin@, last.origin@);
                        assert forall|j: int|
                            0 <= j < n && name_of(#[trigger] entities[j]) == name implies text_le(
                            last.origin@,
                            entities[j].origin@,
                        ) by {
                            if j < n - 1 {
                                lemma_le_transitive(
                                    last.origin@,
                                    entities[i].origin@,
                                    entities[j].origin@,
                                );
                            } else {
                                lemma_le_reflexive(last.origin@);
                            }
                        }
                        assert forall|j: int|
                            0 <= j < n - 1 && name_of(
                                #[trigger] entities[j],
                            ) == name implies entities[j].origin@ != last.origin@ by {
                            if entities[j].origin@ == last.origin@ {
                                assert(text_le(entities[i].origin@, entities[j].origin@));
                            }
                        }
                    }
                },
                None => {
                    lemma_le_reflexive(last.origin@);
                },
            }
        }
    }
}

/// The file of the declaration that stands for the entity `name`, without
/// its extension.
pub open spec fn path_of(entities: Seq<WithOrigin<Parsed<Entity>>>, name: Seq<char>) -> Seq<char> {
    match representative(entities, name, entities.len()) {
        Some(i) => path_with_extension(entities[i].origin@, Seq::empty()),
        None => Seq::empty(),
    }
}

/// The files of the entities that the first `n` declarations declare,
/// without their extensions, by entity name: for each entity the file of the
/// declaration that stands for it.
pub open spec fn entity_paths(entities: Seq<WithOrigin<Parsed<Entity>>>, n: nat) -> Map<
    Seq<char>,
    Seq<char>,
>
    decreases n,
{
    if n == 0 || n > entities.len() {
        Map::empty()
    } else {
        entity_paths(entities, (n - 1) as nat).insert(
            name_of(entities[n - 1]),
            path_of(entities, name_of(entities[n - 1])),
        )
    }
}

/// The place of the declaration that stands for the entity `name`, if the
/// entity is declared.
pub fn find_representative(entities: &Vec<WithOrigin<Parsed<Entity>>>, name: &String) -> (r: Option<
    usize,
>)
    ensures
        match r {
            Some(i) => representative(entities@, name@, entities@.len()) == Some(i as int),
            None => representative(entities@, name@, entities@.len()).is_none(),
        },
        r matches Some(i) ==> i < entities@.len(),
{
    let mut found: Option<usize> = None;
    let mut i: usize = 0;
    while i < entities.len()
        invariant
            i <= entities@.len(),
            match found {
                Some(k) => k < i && representative(entities@, name@, i as nat) == Some(k as int),
                None => representative(entities@, name@, i as nat).is_none(),
            },
        decreases entities@.len() - i,
    {
        if entities[i].data.data.name.data.value == *name {
            let keep = match found {
                Some(k) => text_le_exec(entities[k].origin.as_str(), entities[i].origin.as_str()),
                None => false,
            };
            if !keep {
                found = Some(i);
            }
        }
        i += 1;
    }
    found
}

/// The file of each entity, without its extension, by entity name.
pub fn entity_map_of(entities: &Vec<WithOrigin<Parsed<Entity>>>) -> (r: EntityMap)
    ensures
        r.wf(),
        r@ == entity_paths(entities@, entities@.len()),
{
    let mut map = EntityMap::new();
    let mut i: usize = 0;
    while i < entities.len()
        invariant
            i <= entities@.len(),
            map.wf(),
            map@ == entity_paths(entities@, i as nat),
        decreases entities@.len() - i,
    {
        let name = &entities[i].data.data.name.data.value;
        proof {
            reveal_strlit("");
            assert(""@ =~= Seq::<char>::empty());
            lemma_representative(entities@, name@, entities@.len() as nat);
        }
        match find_representative(entities, name) {
            Some(k) => {
                let new_file_name = with_extension(entities[k].origin.as_str(), "");
                map.insert(name.clone(), new_file_name);
            },
            None => {
                assert(false);
            },
        }
        i += 1;
    }
    map
}

/// A code generator for one file of a workspace.
///
/// The driver asks the generator for a state at each step of its walk; a
/// generator that has nothing to say at a step answers `None`. Beside each
/// step stands the value that the step answers with.
pub trait Codegen<'a, I: ImportKey>: Sized {
    /// What the generator needs of its inputs in order to run.
    spec fn wf(&self) -> bool;

    /// The entity declarations of the workspace.
    spec fn entities(&self) -> Seq<WithOrigin<Parsed<Entity>>>;

    /// The file that code is generated for.
    spec fn file(&self) -> RuuLangFile;

    /// The path of the source file.
    spec fn origin(&self) -> Seq<char>;

    /// What can be made into a generator.
    spec fn accepts(
        origin: &String,
        file_name: &String,
        config: &RuuLangConfig,
        entities: &Vec<WithOrigin<Parsed<Entity>>>,
        file: &RuuLangFile,
        file_json: &String,
    ) -> bool;

    spec fn prelude_text(&self) -> Option<Seq<char>>;

    spec fn imports_text(&self, imports: Seq<I::V>, entity_map: Map<Seq<char>, Seq<char>>) -> Option<
        Seq<char>,
    >;

    spec fn export_text(&self, export: Seq<char>) -> Option<Seq<char>>;

    spec fn header_state(&self) -> Option<StateModel<I::V>>;

    spec fn grant_state(&self, entity: Entity, grant: Seq<String>) -> Option<StateModel<I::V>>;

    spec fn attribute_state(&self, entity: Entity, rule: Relationship, attribute: Attribute) -> Option<
        StateModel<I::V>,
    >;

    spec fn relationship_state(&self, entity: Entity, rule: Relationship) -> Option<
        StateModel<I::V>,
    >;

    spec fn fragment_state(&self, fragment: Fragment) -> Option<StateModel<I::V>>;

    spec fn entrypoint_state(&self, entrypoint: Entrypoint) -> Option<StateModel<I::V>>;

    spec fn entity_state(&self, entity: Entity) -> Option<StateModel<I::V>>;

    spec fn footer_state(&self) -> Option<StateModel<I::V>>;

    /// A generator for `file`, which was read from `origin` and is written
    /// to `file_name`. `file_json` is the JSON text of `file`, for a
    /// generator that embeds it.
    fn new(
        origin: &'a String,
        file_name: &'a String,
        config: &'a RuuLangConfig,
        entities: &'a Vec<WithOrigin<Parsed<Entity>>>,
        file: &'a RuuLangFile,
        file_json: &'a String,
    ) -> (r: Self)
        requires
            Self::accepts(origin, file_name, config, entities, file, file_json),
        ensures
            r.wf(),
            r.entities() == entities@,
            r.file() == *file,
            r.origin() == origin@,
    ;

    fn get_schema_and_file(&self) -> (r: (&'a Vec<WithOrigin<Parsed<Entity>>>, &'a RuuLangFile))
        ensures
            r.0@ == self.entities(),
            *r.1 == self.file(),
    ;

    fn get_origin(&self) -> (r: &'a String)
        ensures
            r@ == self.origin(),
    ;

    fn serialize_imports(&self, imports: &Vec<I>, entity_map: &EntityMap) -> (r: Option<String>)
        requires
            self.wf(),
            entity_map.wf(),
            entity_map@ == entity_paths(self.entities(), self.entities().len()),
        ensures
            opt_text(r) == self.imports_text(views(imports@), entity_map@),
    ;

    fn serialize_prelude(&self) -> (r: Option<String>)
        requires
            self.wf(),
        ensures
            opt_text(r) == self.prelude_text(),
    ;

    fn serialize_header(&self) -> (r: Option<CodegenState<I>>)
        requires
            self.wf(),
        ensures
            step_view(r) == self.header_state(),
    ;

    fn serialize_grant(&self, entity: &Entity, grant: &Vec<String>) -> (r: Option<CodegenState<I>>)
        requires
            self.wf(),
        ensures
            step_view(r) == self.grant_state(*entity, grant@),
    ;

    fn serialize_attribute(&self, entity: &Entity, rule: &Relationship, attribute: &Attribute) -> (r:
        Option<CodegenState<I>>)
        requires
            self.wf(),
        ensures
            step_view(r) == self.attribute_state(*entity, *rule, *attribute),
    ;

    fn serialize_relationship(&self, entity: &Entity, rule: &Relationship) -> (r: Option<
        CodegenState<I>,
    >)
        requires
            self.wf(),
        ensures
            step_view(r) == self.relationship_state(*entity, *rule),
    ;

    fn serialize_fragment(&self, fragment: &Fragment) -> (r: Option<CodegenState<I>>)
        requires
            self.wf(),
        ensures
            step_view(r) == self.fragment_state(*fragment),
    ;

    fn serialize_entrypoint(&self, entrypoint: &Entrypoint) -> (r: Option<CodegenState<I>>)
        requires
            self.wf(),
        ensures
            step_view(r) == self.entrypoint_state(*entrypoint),
    ;

    fn serialize_entity(&self, entity: &Entity) -> (r: Option<CodegenState<I>>)
        requires
            self.wf(),
        ensures
            step_view(r) == self.entity_state(*entity),
    ;

    fn serialize_footer(&self) -> (r: Option<CodegenState<I>>)
        requires
            self.wf(),
        ensures
            step_view(r) == self.footer_state(),
    ;

    fn serialize_export(&self, export: &String) -> (r: Option<String>)
        requires
            self.wf(),
        ensures
            opt_text(r) == self.export_text(export@),
    ;
}

/// The steps for one relationship: one for each of its attributes, then one
/// for the relationship.
pub open spec fn relationship_steps<'a, I: ImportKey, C: Codegen<'a, I>>(
    c: C,
    entity: Entity,
    rule: Relationship,
) -> Seq<Option<StateModel<I::V>>> {
    Seq::new(
        rule.attributes@.len(),
        |k: int| c.attribute_state(entity, rule, rule.attributes@[k].data),
    ).push(c.relationship_state(entity, rule))
}

/// The steps for the first `n` relationships of an entity.
pub open spec fn relationships_steps<'a, I: ImportKey, C: Codegen<'a, I>>(
    c: C,
    entity: Entity,
    n: nat,
) -> Seq<Option<StateModel<I::V>>>
    decreases n,
{
    if n == 0 || n > entity.relationships@.len() {
        Seq::empty()
    } else {
        relationships_steps(c, entity, (n - 1) as nat) + relationship_steps(
            c,
            entity,
            entity.relationships@[n - 1].data,
        )
    }
}

/// The steps for one entity: one for each of its grants, then those for its
/// relationships, then one for the entity.
pub open spec fn entity_steps<'a, I: ImportKey, C: Codegen<'a, I>>(c: C, entity: Entity) -> Seq<
    Option<StateModel<I::V>>,
> {
    (Seq::new(
        entity.grants@.len(),
        |k: int| c.grant_state(entity, entity.grants@[k].data.grant@),
    ) + relationships_steps(c, entity, entity.relationships@.len())).push(c.entity_state(entity))
}

/// The steps for those of the first `n` entity declarations that come from
/// the generator's own file.
pub open spec fn entities_steps<'a, I: ImportKey, C: Codegen<'a, I>>(c: C, n: nat) -> Seq<
    Option<StateModel<I::V>>,
>
    decreases n,
{
    if n == 0 || n > c.entities().len() {
        Seq::empty()
    } else if c.entities()[n - 1].origin@ == c.origin() {
        entities_steps(c, (n - 1) as nat) + entity_steps(c, c.entities()[n - 1].data.data)
    } else {
        entities_steps(c, (n - 1) as nat)
    }
}

/// All steps of the walk, in order: the header; the entities declared in the
/// file; the entrypoints; the fragments; the footer.
pub open spec fn all_steps<'a, I: ImportKey, C: Codegen<'a, I>>(c: C) -> Seq<
    Option<StateModel<I::V>>,
> {
    (seq![c.header_state()] + entities_steps(c, c.entities().len()) + Seq::new(
        c.file().entrypoints@.len(),
        |k: int| c.entrypoint_state(c.file().entrypoints@[k].data),
    ) + Seq::new(
        c.file().fragments@.len(),
        |k: int| c.fragment_state(c.file().fragments@[k].data),
    )).push(c.footer_state())
}

/// The first `n` exports as the generator renders them, leaving out those it
/// renders as nothing.
pub open spec fn exports_text<'a, I: ImportKey, C: Codegen<'a, I>>(
    c: C,
    exports: Seq<Seq<char>>,
    n: nat,
) -> Seq<Seq<char>>
    decreases n,
{
    if n == 0 || n > exports.len() {
        Seq::empty()
    } else {
        match c.export_text(exports[n - 1]) {
            Some(t) => exports_text(c, exports, (n - 1) as nat).push(t),
            None => exports_text(c, exports, (n - 1) as nat),
        }
    }
}

/// The pieces of the generated text: the prelude, if there is one; the
/// imports as the generator renders them, if there are any; the code blocks
/// in the order in which they were written; the exports in ascending order,
/// each as the generator renders it.
pub open spec fn output_parts<'a, I: ImportKey, C: Codegen<'a, I>>(
    c: C,
    state: StateModel<I::V>,
) -> Seq<Seq<char>> {
    let prelude = match c.prelude_text() {
        Some(p) => seq![p],
        None => Seq::empty(),
    };
    let imports = if state.imports.len() > 0 {
        match c.imports_text(state.imports, entity_paths(c.entities(), c.entities().len())) {
            Some(t) => seq![t],
            None => Seq::empty(),
        }
    } else {
        Seq::empty()
    };
    let sorted = state.exports.sort_by(text_order());
    prelude + imports + state.code_blocks + exports_text(c, sorted, sorted.len())
}

/// The generated text for a state: its pieces, one per line.
pub open spec fn output<'a, I: ImportKey, C: Codegen<'a, I>>(c: C, state: StateModel<I::V>) -> Seq<
    char,
> {
    join(output_parts(c, state), "\n"@)
}

/// The generated text for the generator's file.
pub open spec fn generated<'a, I: ImportKey, C: Codegen<'a, I>>(c: C) -> Seq<char> {
    output(c, absorbed_onto(StateModel::empty(), all_steps(c)))
}

fn collect_relationship<'a, I: ImportKey, C: Codegen<'a, I>>(
    c: &C,
    state: CodegenState<I>,
    entity: &Entity,
    rule: &Relationship,
) -> (r: CodegenState<I>)
    requires
        c.wf(),
    ensures
        r@ == absorbed_onto(state@, relationship_steps(*c, *entity, *rule)),
{
    let ghost base = state@;
    let ghost attrs = Seq::new(
        rule.attributes@.len(),
        |k: int| c.attribute_state(*entity, *rule, rule.attributes@[k].data),
    );
    let mut state = state;
    let mut i: usize = 0;
    assert(attrs.take(0) =~= Seq::empty());
    while i < rule.attributes.len()
        invariant
            c.wf(),
            i <= rule.attributes@.len(),
            attrs == Seq::new(
                rule.attributes@.len(),
                |k: int| c.attribute_state(*entity, *rule, rule.attributes@[k].data),
            ),
            state@ == absorbed_onto(base, attrs.take(i as int)),
        decreases rule.attributes@.len() - i,
    {
        let step = c.serialize_attribute(entity, rule, &rule.attributes[i].data);
        proof {
            lemma_absorbed_one_more(base, attrs.take(i as int), step_view(step));
            assert(attrs.take(i + 1) =~= attrs.take(i as int).push(attrs[i as int]));
        }
        state = state.absorb(step);
        i += 1;
    }
    let step = c.serialize_relationship(entity, rule);
    proof {
        assert(attrs.take(rule.attributes@.len() as int) =~= attrs);
        lemma_absorbed_one_more(base, attrs, step_view(step));
    }
    state.absorb(step)
}

fn collect_entity<'a, I: ImportKey, C: Codegen<'a, I>>(
    c: &C,
    state: CodegenState<I>,
    entity: &Entity,
) -> (r: CodegenState<I>)
    requires
        c.wf(),
    ensures
        r@ == absorbed_onto(state@, entity_steps(*c, *entity)),
{
    let ghost base = state@;
    let ghost grants = Seq::new(
        entity.grants@.len(),
        |k: int| c.grant_state(*entity, entity.grants@[k].data.grant@),
    );
    let mut state = state;
    let mut i: usize = 0;
    assert(grants.take(0) =~= Seq::empty());
    while i < entity.grants.len()
        invariant
            c.wf(),
            i <= entity.grants@.len(),
            grants == Seq::new(
                entity.grants@.len(),
                |k: int| c.grant_state(*entity, entity.grants@[k].data.grant@),
            ),
            state@ == absorbed_onto(base, grants.take(i as int)),
        decreases entity.grants@.len() - i,
    {
        let step = c.serialize_grant(entity, &entity.grants[i].data.grant);
        proof {
            lemma_absorbed_one_more(base, grants.take(i as int), step_view(step));
            assert(grants.take(i + 1) =~= grants.take(i as int).push(grants[i as int]));
        }
        state = state.absorb(step);
        i += 1;
    }
    assert(grants.take(entity.grants@.len() as int) =~= grants);
    let mut j: usize = 0;
    assert(grants + relationships_steps(*c, *entity, 0) =~= grants);
    while j < entity.relationships.len()
        invariant
            c.wf(),
            j <= entity.relationships@.len(),
            state@ == absorbed_onto(base, grants + relationships_steps(*c, *entity, j as nat)),
        decreases entity.relationships@.len() - j,
    {
        proof {
            lemma_absorbed_in_groups(
                base,
                grants + relationships_steps(*c, *entity, j as nat),
                relationship_steps(*c, *entity, entity.relationships@[j as int].data),
            );
            assert(grants + relationships_steps(*c, *entity, (j + 1) as nat) =~= (grants
                + relationships_steps(*c, *entity, j as nat)) + relationship_steps(
                *c,
                *entity,
                entity.relationships@[j as int].data,
            ));
        }
        state = collect_relationship(c, state, entity, &entity.relationships[j].data);
        j += 1;
    }
    let step = c.serialize_entity(entity);
    proof {
        lemma_absorbed_one_more(
            base,
            grants + relationships_steps(*c, *entity, entity.relationships@.len()),
            step_view(step),
        );
    }
    state.absorb(step)
}

/// Walks the generator's file and adds up what the generator gives at each
/// step.
fn collect<'a, I: ImportKey, C: Codegen<'a, I>>(c: &C) -> (r: CodegenState<I>)
    requires
        c.wf(),
    ensures
        r@ == absorbed_onto(StateModel::empty(), all_steps(*c)),
{
    let ghost base = StateModel::<I::V>::empty();
    let mut state: CodegenState<I> = CodegenState::new();
    let (entities, file) = c.get_schema_and_file();
    let origin = c.get_origin();
    let header = c.serialize_header();
    let ghost head = seq![c.header_state()];
    proof {
        lemma_absorbed_one_more(base, Seq::empty(), step_view(header));
        assert(Seq::<Option<StateModel<I::V>>>::empty().push(c.header_state()) =~= head);
    }
    state = state.absorb(header);
    let mut i: usize = 0;
    assert(head + entities_steps(*c, 0) =~= head);
    while i < entities.len()
        invariant
            c.wf(),
            entities@ == c.entities(),
            origin@ == c.origin(),
            i <= entities@.len(),
            state@ == absorbed_onto(base, head + entities_steps(*c, i as nat)),
        decreases entities@.len() - i,
    {
        let entity = &entities[i];
        if entity.origin == *origin {
            proof {
                lemma_absorbed_in_groups(
                    base,
                    head + entities_steps(*c, i as nat),
                    entity_steps(*c, entity.data.data),
                );
                assert(head + entities_steps(*c, (i + 1) as nat) =~= (head + entities_steps(
                    *c,
                    i as nat,
                )) + entity_steps(*c, entity.data.data));
            }
            state = collect_entity(c, state, &entity.data.data);
        }
        i += 1;
    }
    let ghost upto_entities = head + entities_steps(*c, entities@.len());
    let ghost entrypoints = Seq::new(
        file.entrypoints@.len(),
        |k: int| c.entrypoint_state(file.entrypoints@[k].data),
    );
    let mut j: usize = 0;
    assert(upto_entities + entrypoints.take(0) =~= upto_entities);
    while j < file.entrypoints.len()
        invariant
            c.wf(),
            j <= file.entrypoints@.len(),
            entrypoints == Seq::new(
                file.entrypoints@.len(),
                |k: int| c.entrypoint_state(file.entrypoints@[k].data),
            ),
            state@ == absorbed_onto(base, upto_entities + entrypoints.take(j as int)),
        decreases file.entrypoints@.len() - j,
    {
        let step = c.serialize_entrypoint(&file.entrypoints[j].data);
        proof {
            lemma_absorbed_one_more(
                base,
                upto_entities + entrypoints.take(j as int),
                step_view(step),
            );
            assert(upto_entities + entrypoints.take(j + 1) =~= (upto_entities + entrypoints.take(
                j as int,
            )).push(entrypoints[j as int]));
        }
        state = state.absorb(step);
        j += 1;
    }
    assert(entrypoints.take(file.entrypoints@.len() as int) =~= entrypoints);
    let ghost upto_entrypoints = upto_entities + entrypoints;
    let ghost fragments = Seq::new(
        file.fragments@.len(),
        |k: int| c.fragment_state(file.fragments@[k].data),
    );
    let mut k: usize = 0;
    assert(upto_entrypoints + fragments.take(0) =~= upto_entrypoints);
    while k < file.fragments.len()
        invariant
            c.wf(),
            k <= file.fragments@.len(),
            fragments == Seq::new(
                file.fragments@.len(),
                |k: int| c.fragment_state(file.fragments@[k].data),
            ),
            state@ == absorbed_onto(base, upto_entrypoints + fragments.take(k as int)),
        decreases file.fragments@.len() - k,
    {
        let step = c.serialize_fragment(&file.fragments[k].data);
        proof {
            lemma_absorbed_one_more(
                base,
                upto_entrypoints + fragments.take(k as int),
                step_view(step),
            );
            assert(upto_entrypoints + fragments.take(k + 1) =~= (upto_entrypoints + fragments.take(
                k as int,
            )).push(fragments[k as int]));
        }
        state = state.absorb(step);
        k += 1;
    }
    assert(fragments.take(file.fragments@.len() as int) =~= fragments);
    let footer = c.serialize_footer();
    proof {
        lemma_absorbed_one_more(base, upto_entrypoints + fragments, step_view(footer));
    }
    state.absorb(footer)
}

/// The generated text for the generator's file: what the steps of the walk
/// add up to, made into one text.
pub fn serialize_schema_and_file<'a, I: ImportKey, C: Codegen<'a, I>>(codegen: &C) -> (r: String)
    requires
        codegen.wf(),
    ensures
        r@ == generated(*codegen),
{
    let state = collect(codegen);
    state.stringify(codegen)
}

impl<I: ImportKey> CodegenState<I> {
    /// The generated text for this state: the prelude, the imports, the code
    /// blocks and the exports, one per line.
    pub fn stringify<'a, C: Codegen<'a, I>>(self, codegen: &C) -> (r: String)
        requires
            codegen.wf(),
        ensures
            r@ == output(*codegen, self@),
    {
        let ghost model = self@;
        let mut output: Vec<String> = Vec::new();
        assert(texts(output@) =~= Seq::empty());
        if let Some(result) = codegen.serialize_prelude() {
            output.push(result);
            assert(texts(output@) =~= seq![result@]);
        }
        let ghost prelude = texts(output@);
        if self.imports.len() > 0 {
            let (entities, _) = codegen.get_schema_and_file();
            let entity_map = entity_map_of(entities);
            if let Some(result) = codegen.serialize_imports(&self.imports, &entity_map) {
                output.push(result);
                assert(texts(output@) =~= prelude + seq![result@]);
            }
        }
        let ghost with_imports = texts(output@);
        let CodegenState { imports, exports, code_blocks } = self;
        let mut code_blocks = code_blocks;
        let ghost code = texts(code_blocks@);
        output.append(&mut code_blocks);
        assert(texts(output@) =~= with_imports + code);
        let sorted = sort_texts(exports);
        let ghost with_code = texts(output@);
        let mut i: usize = 0;
        assert(texts(output@) =~= with_code + exports_text(*codegen, texts(sorted@), 0));
        while i < sorted.len()
            invariant
                codegen.wf(),
                i <= sorted@.len(),
                texts(output@) == with_code + exports_text(*codegen, texts(sorted@), i as nat),
            decreases sorted@.len() - i,
        {
            let ghost before = texts(output@);
            if let Some(export) = codegen.serialize_export(&sorted[i]) {
                output.push(export);
                assert(texts(output@) =~= before.push(export@));
            }
            assert(texts(output@) =~= with_code + exports_text(
                *codegen,
                texts(sorted@),
                (i + 1) as nat,
            ));
            i += 1;
        }
        join_texts(&output, "\n")
    }
}

} // verus!
