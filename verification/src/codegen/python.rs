//! The generator of typed binding modules.

use vstd::prelude::*;
use crate::codegen::codegen::{
    find_representative, representative, with_items, Codegen, CodegenState, EntityMap, ImportKey,
    StateModel,
};
use crate::codegen::python_imports::{
    from_section, from_section_text, import_section, import_section_text, pair_views,
};
use crate::codegen::codegen_helper::{CodegenHelper, HelperModel};
use crate::codegen::codegen_utils::{camel, camel_case};
use crate::config::config::RuuLangConfig;
use crate::parser::parse_location::{Parsed, ParsedModel};
use crate::parser::ruulang_ast::{
    Attribute, AttributeModel, Entrypoint, Fragment, FragmentModel, Grant, Rule, RuleModel,
    RuuLangFile, EntrypointModel,
};
use crate::parser::schema_ast::{Entity, Relationship, RelationshipModel};
use crate::utils::paths::{
    components, file_stem, path_components, path_file_stem, path_strip_prefix, path_with_extension,
    strip_prefix, with_extension,
};
use crate::utils::trie::Path;
use crate::utils::text::{join, join_texts, opt_text, repeat, texts, views};
use crate::utils::with_origin::WithOrigin;

verus! {

/// Something that a generated module imports.
#[derive(Debug)]
pub enum PythonImport {
    /// A module, or one name of a module.
    Global((String, Option<String>)),
    /// A name that the module generated for an entity's file defines: the
    /// entity and the name.
    LocalImport((String, String)),
}

/// The mathematical value of a [`PythonImport`].
pub enum PythonImportModel {
    Global(Seq<char>, Option<Seq<char>>),
    LocalImport(Seq<char>, Seq<char>),
}

impl View for PythonImport {
    type V = PythonImportModel;

    open spec fn view(&self) -> PythonImportModel {
        match self {
            PythonImport::Global((module, name)) => PythonImportModel::Global(
                module@,
                opt_text(*name),
            ),
            PythonImport::LocalImport((entity, value)) => PythonImportModel::LocalImport(
                entity@,
                value@,
            ),
        }
    }
}

impl ImportKey for PythonImport {
    fn same_as(&self, other: &Self) -> (r: bool) {
        match (self, other) {
            (PythonImport::Global((m1, n1)), PythonImport::Global((m2, n2))) => {
                *m1 == *m2 && match (n1, n2) {
                    (Some(a), Some(b)) => *a == *b,
                    (None, None) => true,
                    _ => false,
                }
            },
            (PythonImport::LocalImport((e1, v1)), PythonImport::LocalImport((e2, v2))) => {
                *e1 == *e2 && *v1 == *v2
            },
            _ => false,
        }
    }
}

impl PythonImport {
    /// The import of `name` from the module `module`.
    pub fn new_global(module: &str, name: &str) -> (r: Self)
        ensures
            r@ == PythonImportModel::Global(module@, Some(name@)),
    {
        PythonImport::Global((module.to_owned(), Some(name.to_owned())))
    }

    /// The import of the module `module`.
    pub fn new_global_module(module: &str) -> (r: Self)
        ensures
            r@ == PythonImportModel::Global(module@, None),
    {
        PythonImport::Global((module.to_owned(), None))
    }

    /// The import of `value` from the module generated for the file of
    /// `entity`.
    pub fn new_local(entity: &str, value: &str) -> (r: Self)
        ensures
            r@ == PythonImportModel::LocalImport(entity@, value@),
    {
        PythonImport::LocalImport((entity.to_owned(), value.to_owned()))
    }
}

/// The import of `name` from `module`.
pub open spec fn global(module: Seq<char>, name: Seq<char>) -> PythonImportModel {
    PythonImportModel::Global(module, Some(name))
}

/// The imports of a list, each once, in the order in which they first occur.
pub open spec fn import_list(items: Seq<PythonImportModel>) -> Seq<PythonImportModel> {
    with_items(Seq::empty(), items, items.len())
}

/// A decorator line: `name("a", "b")` for the arguments `a` and `b`, and the
/// end of the line.
pub open spec fn decorator(name: Seq<char>, args: Seq<Seq<char>>) -> Seq<char> {
    name + "(\""@ + join(args, "\", \""@) + "\")"@ + "\n"@
}

/// The line that opens the class `name` with the base class `base`.
pub open spec fn class_line(name: Seq<char>, base: Seq<char>) -> Seq<char> {
    "class"@ + seq![' '] + name + "("@ + base + ")"@ + ":"@ + "\n"@
}

/// One level of indentation.
pub open spec fn tab() -> Seq<char> {
    "    "@
}

/// `text` between double quotes.
pub open spec fn quoted(text: Seq<char>) -> Seq<char> {
    "\""@ + text + "\""@
}

/// The class generated for an attribute of a relationship of an entity.
pub open spec fn attribute_class(entity: Seq<char>, rel: Seq<char>, attr: Seq<char>) -> Seq<char> {
    camel(entity) + camel(rel) + camel(attr) + "Attr"@
}

/// The class generated for a relationship of an entity.
pub open spec fn rule_class(entity: Seq<char>, rel: Seq<char>) -> Seq<char> {
    camel(entity) + camel(rel) + "Rule"@
}

/// The class generated for a fragment for an entity.
pub open spec fn fragment_class(entity: Seq<char>, fragment: Seq<char>) -> Seq<char> {
    camel(entity) + camel(fragment) + "Fragment"@
}

/// The class generated for the entrypoint at an entity.
pub open spec fn entrypoint_class(entity: Seq<char>) -> Seq<char> {
    camel(entity) + "Entrypoint"@
}

/// The code generated for an attribute.
pub open spec fn attribute_code(entity: Seq<char>, rel: Seq<char>, attr: Seq<char>) -> Seq<char> {
    decorator("@registry.register_attribute"@, seq![entity, rel, attr]) + class_line(
        attribute_class(entity, rel, attr),
        "Attribute"@,
    ) + tab() + "name: Literal["@ + quoted(attr) + "]"@ + "\n"@
}

/// What the generator gives for an attribute.
pub open spec fn attribute_step(entity: Seq<char>, rel: Seq<char>, attr: Seq<char>) -> StateModel<
    PythonImportModel,
> {
    StateModel {
        imports: import_list(
            seq![
                global("ruu_runtime"@, "Attribute"@),
                global("ruu_runtime"@, "registry"@),
                global("typing"@, "Literal"@),
            ],
        ),
        exports: Seq::empty(),
        code_blocks: seq![attribute_code(entity, rel, attr)],
    }
}

proof fn lemma_repeat_one(piece: Seq<char>)
    ensures
        repeat(piece, 1) == piece,
        repeat(piece, 0) == Seq::<char>::empty(),
{
    reveal_with_fuel(repeat, 3);
    assert(repeat(piece, 1) =~= piece);
}

/// A builder for generated modules: four spaces to a level, a line feed at
/// the end of a line.
fn new_helper() -> (r: CodegenHelper)
    ensures
        r@ == (HelperModel {
            indent_with: tab(),
            line_terminator: "\n"@,
            indent: 0,
            buffer: Seq::empty(),
            pending_token: false,
            pending_newline: false,
        }),
{
    CodegenHelper::new("    ", "\n")
}

/// The decorator line `name("a", "b")` for the arguments `a` and `b`,
/// without the end of the line.
fn decorator_text(name: &str, args: &Vec<String>) -> (r: String)
    ensures
        r@ + "\n"@ == decorator(name@, texts(args@)),
{
    let mut out = name.to_owned();
    out.append("(\"");
    let joined = join_texts(args, "\", \"");
    out.append(joined.as_str());
    out.append("\")");
    out
}

/// Writes the line that opens the class `name` with the base class `base`,
/// and goes one level deeper.
fn open_class(s: &mut CodegenHelper, name: &str, base: &str)
    requires
        old(s)@.indent == 0,
        !old(s)@.pending_token,
        old(s)@.line_terminator == "\n"@,
    ensures
        final(s)@ == (HelperModel {
            buffer: old(s)@.buffer + class_line(name@, base@),
            indent: 1,
            pending_token: false,
            pending_newline: true,
            ..old(s)@
        }),
{
    proof {
        lemma_repeat_one(s@.indent_with);
    }
    s.write_token("class");
    s.write_token(name);
    s.write_symbol("(");
    s.write(base);
    s.write_symbol(")");
    s.write_line(Some(":"));
    s.indent();
    assert(s@.buffer =~= old(s)@.buffer + class_line(name@, base@));
}

/// `Literal["text"]`.
pub open spec fn literal(text: Seq<char>) -> Seq<char> {
    "Literal[\""@ + text + "\"]"@
}

/// The literals for the segments of a grant path.
pub open spec fn literals(path: Path) -> Seq<Seq<char>> {
    Seq::new(path.len(), |i: int| literal(path[i]))
}

/// The tuple type of a grant path: `tuple[Literal["a"], Literal["b"]]`.
pub open spec fn grant_tuple(path: Path) -> Seq<char> {
    "tuple["@ + join(literals(path), ", "@) + "]"@
}

/// The tuple types of a list of grants.
pub open spec fn grant_tuples(grants: Seq<ParsedModel<Path>>) -> Seq<Seq<char>> {
    Seq::new(grants.len(), |i: int| grant_tuple(grants[i].data))
}

/// The classes generated for the attributes of a relationship.
pub open spec fn attribute_classes(
    entity: Seq<char>,
    rel: Seq<char>,
    attrs: Seq<ParsedModel<AttributeModel>>,
) -> Seq<Seq<char>> {
    Seq::new(attrs.len(), |i: int| attribute_class(entity, rel, attrs[i].data.name.data.value))
}

/// The classes generated for the relationships of an entity.
pub open spec fn relationship_classes(
    entity: Seq<char>,
    rels: Seq<ParsedModel<RelationshipModel>>,
) -> Seq<Seq<char>> {
    Seq::new(rels.len(), |i: int| rule_class(entity, rels[i].data.relationship_name.data.value))
}

/// The classes generated for the relationships that a list of rules follows
/// from an entity.
pub open spec fn rule_classes(entity: Seq<char>, rules: Seq<ParsedModel<RuleModel>>) -> Seq<
    Seq<char>,
> {
    Seq::new(rules.len(), |i: int| rule_class(entity, rules[i].data.relationship.data.value))
}

/// The imports of `names` from the module generated for the file of
/// `entity`.
pub open spec fn local_imports(entity: Seq<char>, names: Seq<Seq<char>>) -> Seq<PythonImportModel> {
    Seq::new(names.len(), |i: int| PythonImportModel::LocalImport(entity, names[i]))
}

/// The line that lists the grants of the entity a relationship leads to.
pub open spec fn grants_line(grants: Seq<ParsedModel<Path>>) -> Seq<char> {
    if grants.len() == 0 {
        "grants: tuple[()]"@
    } else {
        "grants: tuple["@ + join(grant_tuples(grants), " | "@) + ", ...]"@
    }
}

/// The line that lists the attribute classes of a relationship.
pub open spec fn attributes_line(classes: Seq<Seq<char>>) -> Seq<char> {
    if classes.len() == 0 {
        "attributes: tuple[()]"@
    } else {
        "attributes: \"tuple["@ + join(classes, " | "@) + ", ...]\""@
    }
}

/// The line that lists the rule classes that may follow a relationship.
pub open spec fn rules_line(classes: Seq<Seq<char>>) -> Seq<char> {
    if classes.len() == 0 {
        "rules: tuple[Universal, ...]"@
    } else {
        "rules: \"tuple[Universal | "@ + join(classes, " | "@) + ", ...]\""@
    }
}

/// The code generated for a relationship `rel` of the entity `entity`, where
/// `target` is the declaration that stands for the entity that the
/// relationship leads to, if that entity is declared.
pub open spec fn relationship_code(
    entity: Seq<char>,
    rel: RelationshipModel,
    target: Option<ParsedModel<crate::parser::schema_ast::EntityModel>>,
) -> Seq<char> {
    let r = rel.relationship_name.data.value;
    let t = rel.entity_name.data.value;
    let grants = match target {
        Some(e) => e.data.grants,
        None => Seq::empty(),
    };
    let rules = match target {
        Some(e) => relationship_classes(t, e.data.relationships),
        None => Seq::empty(),
    };
    decorator("@registry.register_relationship"@, seq![entity, r, t]) + class_line(
        rule_class(entity, r),
        "Rule"@,
    ) + tab() + ("relationship: Literal[\""@ + r + "\"]"@) + "\n"@ + tab() + grants_line(grants)
        + "\n"@ + tab() + attributes_line(attribute_classes(entity, r, rel.attributes)) + "\n"@
        + tab() + rules_line(rules) + "\n"@
}

/// What the generator gives for a relationship.
pub open spec fn relationship_step(
    entity: Seq<char>,
    rel: RelationshipModel,
    target: Option<ParsedModel<crate::parser::schema_ast::EntityModel>>,
) -> StateModel<PythonImportModel> {
    let t = rel.entity_name.data.value;
    let rules = match target {
        Some(e) => relationship_classes(t, e.data.relationships),
        None => Seq::empty(),
    };
    StateModel {
        imports: import_list(
            local_imports(t, rules) + seq![
                global("ruu_runtime"@, "Rule"@),
                global("ruu_runtime"@, "Universal"@),
                global("ruu_runtime"@, "registry"@),
                global("typing"@, "Literal"@),
            ],
        ),
        exports: Seq::empty(),
        code_blocks: seq![relationship_code(entity, rel, target)],
    }
}

/// The code generated for a fragment.
pub open spec fn fragment_code(fragment: FragmentModel) -> Seq<char> {
    let e = fragment.for_entity.data.value;
    let f = fragment.name.data.value;
    decorator("@registry.register_fragment"@, seq![e, f]) + class_line(
        fragment_class(e, f),
        "Fragment"@,
    ) + tab() + ("grants: tuple["@ + join(grant_tuples(fragment.grants), " | "@) + ", ...]"@)
        + "\n"@
}

/// What the generator gives for a fragment.
pub open spec fn fragment_step(fragment: FragmentModel) -> StateModel<PythonImportModel> {
    StateModel {
        imports: import_list(
            seq![global("ruu_runtime"@, "Fragment"@), global("typing"@, "Literal"@)],
        ),
        exports: Seq::empty(),
        code_blocks: seq![fragment_code(fragment)],
    }
}

/// The code generated for an entrypoint.
pub open spec fn entrypoint_code(entrypoint: EntrypointModel) -> Seq<char> {
    let e = entrypoint.entrypoint.data.value;
    "@registry.bind"@ + "\n"@ + class_line(entrypoint_class(e), "Entrypoint"@) + tab() + (
    "entrypoint: Literal[\""@ + e + "\"]"@) + "\n"@ + tab() + ("rules: \"tuple["@ + join(
        rule_classes(e, entrypoint.rules),
        " | "@,
    ) + ", ...]\""@) + "\n"@
}

/// What the generator gives for an entrypoint.
pub open spec fn entrypoint_step(entrypoint: EntrypointModel) -> StateModel<PythonImportModel> {
    let e = entrypoint.entrypoint.data.value;
    StateModel {
        imports: import_list(
            local_imports(e, rule_classes(e, entrypoint.rules)) + seq![
                global("ruu_runtime"@, "Entrypoint"@),
                global("ruu_runtime"@, "registry"@),
                global("typing"@, "Literal"@),
            ],
        ),
        exports: Seq::empty(),
        code_blocks: seq![entrypoint_code(entrypoint)],
    }
}

/// The classes generated for the entrypoints of a file.
pub open spec fn entrypoint_classes(entrypoints: Seq<ParsedModel<EntrypointModel>>) -> Seq<
    Seq<char>,
> {
    Seq::new(entrypoints.len(), |i: int| entrypoint_class(entrypoints[i].data.entrypoint.data.value))
}

/// The classes generated for the fragments of a file.
pub open spec fn fragment_classes(fragments: Seq<ParsedModel<FragmentModel>>) -> Seq<Seq<char>> {
    Seq::new(
        fragments.len(),
        |i: int|
            fragment_class(
                fragments[i].data.for_entity.data.value,
                fragments[i].data.name.data.value,
            ),
    )
}

/// The class generated for the schema of the file with the stem `stem`.
pub open spec fn schema_class(stem: Seq<char>) -> Seq<char> {
    camel(stem) + "Schema"@
}

/// The line of the schema class that lists classes under `label`; nothing
/// where there is no class.
pub open spec fn members_line(label: Seq<char>, classes: Seq<Seq<char>>) -> Seq<char> {
    if classes.len() == 0 {
        Seq::empty()
    } else {
        tab() + (label + ": \"tuple["@ + join(classes, " | "@) + ", ...]\""@) + "\n"@
    }
}

/// The code at the end of a generated module: the schema class, which lists
/// the entrypoint and fragment classes and loads itself from the JSON text of
/// the file, and the schema object.
pub open spec fn footer_code(
    stem: Seq<char>,
    entrypoints: Seq<Seq<char>>,
    fragments: Seq<Seq<char>>,
    json: Seq<char>,
) -> Seq<char> {
    "@registry.bind"@ + "\n"@ + class_line(schema_class(stem), "Schema"@) + members_line(
        "entrypoints"@,
        entrypoints,
    ) + members_line("fragments"@, fragments) + tab() + "\n"@ + tab() + "@classmethod"@ + "\n"@
        + tab() + "def load_from_obj(cls):"@ + "\n"@ + (tab() + tab()) + "assert cls._registry"@
        + "\n"@ + (tab() + tab()) + "cls._registry.update_annotations()"@ + "\n"@ + (tab() + tab())
        + "\n"@ + (tab() + tab()) + "result = cls.parse_obj(json.loads(\"\"\""@ + "\n"@ + (tab()
        + tab() + tab()) + json + "\n"@ + (tab() + tab()) + "\"\"\"))"@ + "\n"@ + (tab() + tab())
        + "\n"@ + (tab() + tab()) + "result.register_globals()"@ + "\n"@ + (tab() + tab())
        + "return result"@ + "\n"@ + "\n"@ + ("schema = "@ + schema_class(stem)
        + ".load_from_obj()"@) + "\n"@
}

/// What the generator gives at the end of a module: nothing for a file
/// without entrypoints and fragments.
pub open spec fn footer_step(stem: Seq<char>, file: crate::parser::ruulang_ast::RuuLangFileModel, json: Seq<char>) -> Option<
    StateModel<PythonImportModel>,
> {
    if file.entrypoints.len() == 0 && file.fragments.len() == 0 {
        None
    } else {
        Some(
            StateModel {
                imports: import_list(
                    seq![
                        global("ruu_runtime"@, "Schema"@),
                        global("ruu_runtime"@, "registry"@),
                        PythonImportModel::Global("json"@, None),
                    ],
                ),
                exports: Seq::empty(),
                code_blocks: seq![
                    footer_code(
                        stem,
                        entrypoint_classes(file.entrypoints),
                        fragment_classes(file.fragments),
                        json,
                    ),
                ],
            },
        )
    }
}

/// `a`, `b` and `c`, one after the other.
fn concat3(a: &str, b: &str, c: &str) -> (r: String)
    ensures
        r@ == a@ + b@ + c@,
{
    let mut out = a.to_owned();
    out.append(b);
    out.append(c);
    out
}

fn literal_texts(path: &Vec<String>) -> (r: Vec<String>)
    ensures
        texts(r@) == literals(texts(path@)),
{
    let mut out: Vec<String> = Vec::new();
    let mut i: usize = 0;
    while i < path.len()
        invariant
            i <= path@.len(),
            out@.len() == i,
            forall|k: int| 0 <= k < i ==> out@[k]@ == literal(path@[k]@),
        decreases path@.len() - i,
    {
        out.push(concat3("Literal[\"", path[i].as_str(), "\"]"));
        i += 1;
    }
    assert(texts(out@) =~= literals(texts(path@)));
    out
}

fn grant_tuple_texts(grants: &Vec<Parsed<Grant>>) -> (r: Vec<String>)
    ensures
        texts(r@) == grant_tuples(views(grants@)),
{
    let mut out: Vec<String> = Vec::new();
    let mut i: usize = 0;
    while i < grants.len()
        invariant
            i <= grants@.len(),
            out@.len() == i,
            forall|k: int| 0 <= k < i ==> out@[k]@ == grant_tuple(grants@[k]@.data),
        decreases grants@.len() - i,
    {
        let parts = literal_texts(&grants[i].data.grant);
        let inner = join_texts(&parts, ", ");
        out.push(concat3("tuple[", inner.as_str(), "]"));
        i += 1;
    }
    assert(texts(out@) =~= grant_tuples(views(grants@)));
    out
}

/// The class generated for a relationship of an entity.
fn rule_class_text(entity: &str, rel: &str) -> (r: String)
    ensures
        r@ == rule_class(entity@, rel@),
{
    let mut out = camel_case(entity);
    out.append(camel_case(rel).as_str());
    out.append("Rule");
    out
}

fn attribute_class_texts(entity: &str, rel: &str, attrs: &Vec<Parsed<Attribute>>) -> (r: Vec<String>)
    ensures
        texts(r@) == attribute_classes(entity@, rel@, views(attrs@)),
{
    let mut out: Vec<String> = Vec::new();
    let mut i: usize = 0;
    while i < attrs.len()
        invariant
            i <= attrs@.len(),
            out@.len() == i,
            forall|k: int|
                0 <= k < i ==> out@[k]@ == attribute_class(
                    entity@,
                    rel@,
                    attrs@[k]@.data.name.data.value,
                ),
        decreases attrs@.len() - i,
    {
        let mut name = camel_case(entity);
        name.append(camel_case(rel).as_str());
        name.append(camel_case(attrs[i].data.name.data.value.as_str()).as_str());
        name.append("Attr");
        out.push(name);
        i += 1;
    }
    assert(texts(out@) =~= attribute_classes(entity@, rel@, views(attrs@)));
    out
}

fn relationship_class_texts(entity: &str, rels: &Vec<Parsed<Relationship>>) -> (r: Vec<String>)
    ensures
        texts(r@) == relationship_classes(entity@, views(rels@)),
{
    let mut out: Vec<String> = Vec::new();
    let mut i: usize = 0;
    while i < rels.len()
        invariant
            i <= rels@.len(),
            out@.len() == i,
            forall|k: int|
                0 <= k < i ==> out@[k]@ == rule_class(
                    entity@,
                    rels@[k]@.data.relationship_name.data.value,
                ),
        decreases rels@.len() - i,
    {
        out.push(rule_class_text(entity, rels[i].data.relationship_name.data.value.as_str()));
        i += 1;
    }
    assert(texts(out@) =~= relationship_classes(entity@, views(rels@)));
    out
}

fn rule_class_texts(entity: &str, rules: &Vec<Parsed<Rule>>) -> (r: Vec<String>)
    ensures
        texts(r@) == rule_classes(entity@, views(rules@)),
{
    let mut out: Vec<String> = Vec::new();
    let mut i: usize = 0;
    while i < rules.len()
        invariant
            i <= rules@.len(),
            out@.len() == i,
            forall|k: int|
                0 <= k < i ==> out@[k]@ == rule_class(
                    entity@,
                    rules@[k]@.data.relationship.data.value,
                ),
        decreases rules@.len() - i,
    {
        out.push(rule_class_text(entity, rules[i].data.relationship.data.value.as_str()));
        i += 1;
    }
    assert(texts(out@) =~= rule_classes(entity@, views(rules@)));
    out
}

/// Imports taken one group after another add up as the groups joined do.
proof fn lemma_with_items_in_groups<V>(base: Seq<V>, a: Seq<V>, b: Seq<V>, n: nat)
    requires
        n <= b.len(),
    ensures
        with_items(base, a + b, a.len() + n) == with_items(with_items(base, a, a.len()), b, n),
    decreases n,
{
    if n == 0 {
        lemma_with_items_prefix(base, a, a + b, a.len());
    } else {
        lemma_with_items_in_groups(base, a, b, (n - 1) as nat);
        assert((a + b)[a.len() + n - 1] == b[n - 1]);
    }
}

proof fn lemma_with_items_prefix<V>(base: Seq<V>, a: Seq<V>, c: Seq<V>, n: nat)
    requires
        n <= a.len(),
        a.len() <= c.len(),
        forall|i: int| 0 <= i < a.len() ==> a[i] == c[i],
    ensures
        with_items(base, c, n) == with_items(base, a, n),
    decreases n,
{
    if n > 0 {
        lemma_with_items_prefix(base, a, c, (n - 1) as nat);
    }
}

/// Adds to `state` the import of each of `names` from the module generated
/// for the file of `entity`.
fn add_local_imports(state: &mut CodegenState<PythonImport>, entity: &str, names: &Vec<String>)
    ensures
        final(state)@ == (StateModel {
            imports: with_items(
                old(state)@.imports,
                local_imports(entity@, texts(names@)),
                names@.len(),
            ),
            ..old(state)@
        }),
{
    let ghost all = local_imports(entity@, texts(names@));
    let mut i: usize = 0;
    while i < names.len()
        invariant
            i <= names@.len(),
            all == local_imports(entity@, texts(names@)),
            state@ == (StateModel {
                imports: with_items(old(state)@.imports, all, i as nat),
                ..old(state)@
            }),
        decreases names@.len() - i,
    {
        state.add_import(PythonImport::new_local(entity, names[i].as_str()));
        i += 1;
    }
}

/// Adds to `state` the import of `name` from `module`.
fn add_global(state: &mut CodegenState<PythonImport>, module: &str, name: &str)
    ensures
        final(state)@ == (StateModel {
            imports: crate::codegen::codegen::with_item(
                old(state)@.imports,
                global(module@, name@),
            ),
            ..old(state)@
        }),
{
    state.add_import(PythonImport::new_global(module, name));
}

/// The plain modules among the first `n` imports, in order.
pub open spec fn bare_modules(imports: Seq<PythonImportModel>, n: nat) -> Seq<Seq<char>>
    decreases n,
{
    if n == 0 || n > imports.len() {
        Seq::empty()
    } else {
        let before = bare_modules(imports, (n - 1) as nat);
        match imports[n - 1] {
            PythonImportModel::Global(module, None) => before.push(module),
            _ => before,
        }
    }
}

/// The names imported from modules among the first `n` imports, each with
/// its module, in order.
pub open spec fn global_pairs(imports: Seq<PythonImportModel>, n: nat) -> Seq<
    (Seq<char>, Seq<char>),
>
    decreases n,
{
    if n == 0 || n > imports.len() {
        Seq::empty()
    } else {
        let before = global_pairs(imports, (n - 1) as nat);
        match imports[n - 1] {
            PythonImportModel::Global(module, Some(name)) => before.push((module, name)),
            _ => before,
        }
    }
}

/// The module generated for the file of `entity`, as another module names
/// it: the components of the file's path below the workspace root, without
/// the extension, joined by dots. None for an entity that no file declares,
/// for one that lies in the module's own file `own`, and for one whose file
/// does not lie below `root`.
pub open spec fn local_module(
    entity_map: Map<Seq<char>, Seq<char>>,
    own: Seq<char>,
    root: Seq<char>,
    entity: Seq<char>,
) -> Option<Seq<char>> {
    if !entity_map.contains_key(entity) || entity_map[entity] == own {
        None
    } else {
        match path_strip_prefix(entity_map[entity], root) {
            Some(below) => Some(join(path_components(below), "."@)),
            None => None,
        }
    }
}

/// The names imported from generated modules among the first `n` imports,
/// each with the module that holds it, in order.
pub open spec fn local_pairs(
    imports: Seq<PythonImportModel>,
    entity_map: Map<Seq<char>, Seq<char>>,
    own: Seq<char>,
    root: Seq<char>,
    n: nat,
) -> Seq<(Seq<char>, Seq<char>)>
    decreases n,
{
    if n == 0 || n > imports.len() {
        Seq::empty()
    } else {
        let before = local_pairs(imports, entity_map, own, root, (n - 1) as nat);
        match imports[n - 1] {
            PythonImportModel::LocalImport(entity, value) => match local_module(
                entity_map,
                own,
                root,
                entity,
            ) {
                Some(module) => before.push((module, value)),
                None => before,
            },
            _ => before,
        }
    }
}

/// The import lines of a module: the plain modules, the names from modules,
/// and the names from generated modules.
pub open spec fn imports_code(
    imports: Seq<PythonImportModel>,
    entity_map: Map<Seq<char>, Seq<char>>,
    own: Seq<char>,
    root: Seq<char>,
) -> Seq<char> {
    import_section(bare_modules(imports, imports.len())) + from_section(
        global_pairs(imports, imports.len()),
    ) + from_section(local_pairs(imports, entity_map, own, root, imports.len()))
}

/// The declaration that stands for the entity `name`, if the entity is
/// declared: see [`representative`].
pub open spec fn target_entity(entities: Seq<WithOrigin<Parsed<Entity>>>, name: Seq<char>) -> Option<
    ParsedModel<crate::parser::schema_ast::EntityModel>,
> {
    match representative(entities, name, entities.len()) {
        Some(i) => Some(entities[i].data@),
        None => None,
    }
}

/// Whether the generated module for the file at `origin` can be named from
/// the module written to `own`: it is that module, or it lies below `root`.
pub open spec fn reachable(origin: Seq<char>, own: Seq<char>, root: Seq<char>) -> bool {
    path_with_extension(origin, Seq::empty()) == own || path_strip_prefix(
        path_with_extension(origin, Seq::empty()),
        root,
    ).is_some()
}

/// What the generator needs: a workspace root, a file name to name the
/// schema class after, and entity files that the module can name.
pub open spec fn python_ready(
    file_name: Seq<char>,
    root: Option<String>,
    entities: Seq<WithOrigin<Parsed<Entity>>>,
) -> bool {
    &&& root.is_some()
    &&& path_file_stem(file_name).is_some()
    &&& forall|i: int|
        0 <= i < entities.len() ==> reachable(
            (#[trigger] entities[i]).origin@,
            path_with_extension(file_name, Seq::empty()),
            root.unwrap()@,
        )
}

/// The generator of the typed binding module for one file.
pub struct PythonCodegen<'a> {
    pub origin: &'a String,
    pub file_name: &'a String,
    pub entities: &'a Vec<WithOrigin<Parsed<Entity>>>,
    pub config: &'a RuuLangConfig,
    pub file: &'a RuuLangFile,
    pub file_json: &'a String,
}

impl<'a> PythonCodegen<'a> {
    /// The generator for `file`, where the inputs allow one: see
    /// [`python_ready`].
    pub fn try_new(
        origin: &'a String,
        file_name: &'a String,
        config: &'a RuuLangConfig,
        entities: &'a Vec<WithOrigin<Parsed<Entity>>>,
        file: &'a RuuLangFile,
        file_json: &'a String,
    ) -> (r: Option<Self>)
        ensures
            r.is_some() == python_ready(file_name@, config.workspace.root, entities@),
            r matches Some(c) ==> c.origin == origin && c.file_name == file_name && c.config
                == config && c.entities == entities && c.file == file && c.file_json == file_json,
    {
        let root = match &config.workspace.root {
            Some(root) => root,
            None => {
                return None;
            },
        };
        if file_stem(file_name.as_str()).is_none() {
            return None;
        }
        proof {
            reveal_strlit("");
            assert(""@ =~= Seq::<char>::empty());
        }
        let own = with_extension(file_name.as_str(), "");
        let mut i: usize = 0;
        while i < entities.len()
            invariant
                i <= entities@.len(),
                ""@ == Seq::<char>::empty(),
                config.workspace.root == Some(*root),
                path_file_stem(file_name@).is_some(),
                own@ == path_with_extension(file_name@, Seq::empty()),
                forall|k: int| 0 <= k < i ==> reachable((#[trigger] entities@[k]).origin@, own@, root@),
            decreases entities@.len() - i,
        {
            let path = with_extension(entities[i].origin.as_str(), "");
            if !(path == own) && strip_prefix(path.as_str(), root.as_str()).is_none() {
                assert(!reachable(entities@[i as int].origin@, own@, root@));
                return None;
            }
            i += 1;
        }
        Some(PythonCodegen { origin, file_name, entities, config, file, file_json })
    }

    fn new_codegen_helper(&self) -> (r: CodegenHelper)
        ensures
            r@ == (HelperModel {
                indent_with: tab(),
                line_terminator: "\n"@,
                indent: 0,
                buffer: Seq::empty(),
                pending_token: false,
                pending_newline: false,
            }),
    {
        new_helper()
    }

    fn attribute_code(entity: &Entity, rel: &Relationship, attribute: &Attribute) -> (r: String)
        ensures
            r@ == attribute_code(
                entity.name.data.value@,
                rel.relationship_name.data.value@,
                attribute.name.data.value@,
            ),
    {
        let e = &entity.name.data.value;
        let r = &rel.relationship_name.data.value;
        let a = &attribute.name.data.value;
        let mut s = new_helper();
        let mut attr_name = camel_case(e.as_str());
        attr_name.append(camel_case(r.as_str()).as_str());
        attr_name.append(camel_case(a.as_str()).as_str());
        attr_name.append("Attr");
        let mut args: Vec<String> = Vec::new();
        args.push(e.clone());
        args.push(r.clone());
        args.push(a.clone());
        assert(texts(args@) =~= seq![e@, r@, a@]);
        let line = decorator_text("@registry.register_attribute", &args);
        s.write_line(Some(line.as_str()));
        open_class(&mut s, attr_name.as_str(), "Attribute");
        proof {
            lemma_repeat_one(tab());
        }
        s.write("name: Literal[");
        s.write("\"");
        s.write(a.as_str());
        s.write("\"");
        s.write("]");
        s.write_line(None);
        s.dedent();
        assert(s@.buffer =~= attribute_code(e@, r@, a@));
        s.serialize()
    }

    /// The declaration that stands for the entity `name`, if the entity is
    /// declared.
    fn find_target(&self, name: &String) -> (r: Option<&'a Parsed<Entity>>)
        ensures
            match r {
                Some(e) => target_entity(self.entities@, name@) == Some(e@),
                None => target_entity(self.entities@, name@).is_none(),
            },
    {
        match find_representative(self.entities, name) {
            Some(i) => Some(&self.entities[i].data),
            None => None,
        }
    }

    fn relationship_code(&self, entity: &Entity, rule: &Relationship) -> (r: (String, Vec<String>))
        ensures
            r.0@ == relationship_code(
                entity.name.data.value@,
                rule@,
                target_entity(self.entities@, rule.entity_name.data.value@),
            ),
            texts(r.1@) == (match target_entity(self.entities@, rule.entity_name.data.value@) {
                Some(e) => relationship_classes(rule.entity_name.data.value@, e.data.relationships),
                None => Seq::empty(),
            }),
    {
        let e = &entity.name.data.value;
        let r = &rule.relationship_name.data.value;
        let t = &rule.entity_name.data.value;
        let target = self.find_target(t);
        let mut s = self.new_codegen_helper();
        let rel_name = rule_class_text(e.as_str(), r.as_str());
        let mut args: Vec<String> = Vec::new();
        args.push(e.clone());
        args.push(r.clone());
        args.push(t.clone());
        assert(texts(args@) =~= seq![e@, r@, t@]);
        let line = decorator_text("@registry.register_relationship", &args);
        let grants_text = match target {
            Some(found) => {
                if found.data.grants.len() == 0 {
                    "grants: tuple[()]".to_owned()
                } else {
                    let tuples = grant_tuple_texts(&found.data.grants);
                    concat3("grants: tuple[", join_texts(&tuples, " | ").as_str(), ", ...]")
                }
            },
            None => "grants: tuple[()]".to_owned(),
        };
        let attrs = attribute_class_texts(e.as_str(), r.as_str(), &rule.attributes);
        let attrs_text = if attrs.len() == 0 {
            "attributes: tuple[()]".to_owned()
        } else {
            concat3("attributes: \"tuple[", join_texts(&attrs, " | ").as_str(), ", ...]\"")
        };
        let classes = match target {
            Some(found) => relationship_class_texts(t.as_str(), &found.data.relationships),
            None => Vec::new(),
        };
        assert(target.is_none() ==> texts(classes@) =~= Seq::<Seq<char>>::empty());
        let rules_text = if classes.len() == 0 {
            "rules: tuple[Universal, ...]".to_owned()
        } else {
            concat3("rules: \"tuple[Universal | ", join_texts(&classes, " | ").as_str(), ", ...]\"")
        };
        s.write_line(Some(line.as_str()));
        open_class(&mut s, rel_name.as_str(), "Rule");
        proof {
            lemma_repeat_one(tab());
        }
        s.write_line(Some(concat3("relationship: Literal[\"", r.as_str(), "\"]").as_str()));
        s.write_line(Some(grants_text.as_str()));
        s.write_line(Some(attrs_text.as_str()));
        s.write_line(Some(rules_text.as_str()));
        s.dedent();
        assert(s@.buffer =~= relationship_code(e@, rule@, target_entity(self.entities@, t@)));
        (s.serialize(), classes)
    }

    fn fragment_code(fragment: &Fragment) -> (r: String)
        ensures
            r@ == fragment_code(fragment@),
    {
        let e = &fragment.for_entity.data.value;
        let f = &fragment.name.data.value;
        let mut s = new_helper();
        let mut cls_name = camel_case(e.as_str());
        cls_name.append(camel_case(f.as_str()).as_str());
        cls_name.append("Fragment");
        let mut args: Vec<String> = Vec::new();
        args.push(e.clone());
        args.push(f.clone());
        assert(texts(args@) =~= seq![e@, f@]);
        let line = decorator_text("@registry.register_fragment", &args);
        let tuples = grant_tuple_texts(&fragment.grants);
        let grants_text = concat3("grants: tuple[", join_texts(&tuples, " | ").as_str(), ", ...]");
        s.write_line(Some(line.as_str()));
        open_class(&mut s, cls_name.as_str(), "Fragment");
        proof {
            lemma_repeat_one(tab());
        }
        s.write_line(Some(grants_text.as_str()));
        s.dedent();
        assert(s@.buffer =~= fragment_code(fragment@));
        s.serialize()
    }

    fn entrypoint_code(entrypoint: &Entrypoint) -> (r: (String, Vec<String>))
        ensures
            r.0@ == entrypoint_code(entrypoint@),
            texts(r.1@) == rule_classes(entrypoint@.entrypoint.data.value, entrypoint@.rules),
    {
        let e = &entrypoint.entrypoint.data.value;
        let mut s = new_helper();
        let mut name = camel_case(e.as_str());
        name.append("Entrypoint");
        let classes = rule_class_texts(e.as_str(), &entrypoint.rules);
        let rules_text = concat3("rules: \"tuple[", join_texts(&classes, " | ").as_str(), ", ...]\"");
        s.write_line(Some("@registry.bind"));
        open_class(&mut s, name.as_str(), "Entrypoint");
        proof {
            lemma_repeat_one(tab());
        }
        s.write_line(Some(concat3("entrypoint: Literal[\"", e.as_str(), "\"]").as_str()));
        s.write_line(Some(rules_text.as_str()));
        s.dedent();
        assert(s@.buffer =~= entrypoint_code(entrypoint@));
        (s.serialize(), classes)
    }

    fn entrypoint_class_texts(entrypoints: &Vec<Parsed<Entrypoint>>) -> (r: Vec<String>)
        ensures
            texts(r@) == entrypoint_classes(views(entrypoints@)),
    {
        let mut out: Vec<String> = Vec::new();
        let mut i: usize = 0;
        while i < entrypoints.len()
            invariant
                i <= entrypoints@.len(),
                out@.len() == i,
                forall|k: int|
                    0 <= k < i ==> out@[k]@ == entrypoint_class(
                        entrypoints@[k]@.data.entrypoint.data.value,
                    ),
            decreases entrypoints@.len() - i,
        {
            let mut name = camel_case(entrypoints[i].data.entrypoint.data.value.as_str());
            name.append("Entrypoint");
            out.push(name);
            i += 1;
        }
        assert(texts(out@) =~= entrypoint_classes(views(entrypoints@)));
        out
    }

    fn fragment_class_texts(fragments: &Vec<Parsed<Fragment>>) -> (r: Vec<String>)
        ensures
            texts(r@) == fragment_classes(views(fragments@)),
    {
        let mut out: Vec<String> = Vec::new();
        let mut i: usize = 0;
        while i < fragments.len()
            invariant
                i <= fragments@.len(),
                out@.len() == i,
                forall|k: int|
                    0 <= k < i ==> out@[k]@ == fragment_class(
                        fragments@[k]@.data.for_entity.data.value,
                        fragments@[k]@.data.name.data.value,
                    ),
            decreases fragments@.len() - i,
        {
            let mut name = camel_case(fragments[i].data.for_entity.data.value.as_str());
            name.append(camel_case(fragments[i].data.name.data.value.as_str()).as_str());
            name.append("Fragment");
            out.push(name);
            i += 1;
        }
        assert(texts(out@) =~= fragment_classes(views(fragments@)));
        out
    }

    fn members_text(s: &mut CodegenHelper, label: &str, classes: &Vec<String>)
        requires
            old(s)@.indent == 1,
            old(s)@.pending_newline,
            !old(s)@.pending_token,
            old(s)@.indent_with == tab(),
            old(s)@.line_terminator == "\n"@,
        ensures
            final(s)@ == (HelperModel {
                buffer: old(s)@.buffer + members_line(label@, texts(classes@)),
                ..old(s)@
            }),
    {
        proof {
            lemma_repeat_one(tab());
        }
        if classes.len() > 0 {
            let mut line = label.to_owned();
            line.append(": \"tuple[");
            line.append(join_texts(classes, " | ").as_str());
            line.append(", ...]\"");
            s.write_line(Some(line.as_str()));
            assert(s@.buffer =~= old(s)@.buffer + members_line(label@, texts(classes@)));
        } else {
            assert(s@.buffer =~= old(s)@.buffer + members_line(label@, texts(classes@)));
        }
    }

    fn footer_code(&self, stem: &String) -> (r: String)
        ensures
            r@ == footer_code(
                stem@,
                entrypoint_classes(self.file@.entrypoints),
                fragment_classes(self.file@.fragments),
                self.file_json@,
            ),
    {
        let mut s = self.new_codegen_helper();
        let mut name = camel_case(stem.as_str());
        name.append("Schema");
        let entrypoints = Self::entrypoint_class_texts(&self.file.entrypoints);
        let fragments = Self::fragment_class_texts(&self.file.fragments);
        s.write_line(Some("@registry.bind"));
        open_class(&mut s, name.as_str(), "Schema");
        Self::members_text(&mut s, "entrypoints", &entrypoints);
        Self::members_text(&mut s, "fragments", &fragments);
        let ghost head = s@.buffer;
        proof {
            lemma_repeat_one(tab());
            reveal_with_fuel(repeat, 4);
            assert(repeat(tab(), 2) =~= tab() + tab());
            assert(repeat(tab(), 3) =~= tab() + tab() + tab());
        }
        s.write_line(None);
        s.write_line(Some("@classmethod"));
        s.write_line(Some("def load_from_obj(cls):"));
        s.indent();
        s.write_line(Some("assert cls._registry"));
        s.write_line(Some("cls._registry.update_annotations()"));
        s.write_line(None);
        s.write_line(Some("result = cls.parse_obj(json.loads(\"\"\""));
        let ghost middle = s@.buffer;
        assert(middle =~= head + tab() + "\n"@ + tab() + "@classmethod"@ + "\n"@ + tab()
            + "def load_from_obj(cls):"@ + "\n"@ + (tab() + tab()) + "assert cls._registry"@ + "\n"@
            + (tab() + tab()) + "cls._registry.update_annotations()"@ + "\n"@ + (tab() + tab())
            + "\n"@ + (tab() + tab()) + "result = cls.parse_obj(json.loads(\"\"\""@ + "\n"@);
        s.indent();
        s.write_line(Some(self.file_json.as_str()));
        s.dedent();
        s.write_line(Some("\"\"\"))"));
        s.write_line(None);
        s.write_line(Some("result.register_globals()"));
        s.write_line(Some("return result"));
        s.dedent();
        s.dedent();
        s.write_line(None);
        let last = concat3("schema = ", name.as_str(), ".load_from_obj()");
        s.write_line(Some(last.as_str()));
        assert(s@.buffer =~= middle + (tab() + tab() + tab()) + self.file_json@ + "\n"@ + (tab()
            + tab()) + "\"\"\"))"@ + "\n"@ + (tab() + tab()) + "\n"@ + (tab() + tab())
            + "result.register_globals()"@ + "\n"@ + (tab() + tab()) + "return result"@ + "\n"@
            + "\n"@ + ("schema = "@ + schema_class(stem@) + ".load_from_obj()"@) + "\n"@);
        assert(s@.buffer =~= footer_code(
            stem@,
            entrypoint_classes(self.file@.entrypoints),
            fragment_classes(self.file@.fragments),
            self.file_json@,
        ));
        s.serialize()
    }

    /// The module generated for the file of `entity`, as this module names
    /// it.
    fn local_module_text(&self, entity_map: &EntityMap, own: &String, entity: &String) -> (r: Option<
        String,
    >)
        requires
            entity_map.wf(),
            self.config.workspace.root.is_some(),
        ensures
            opt_text(r) == local_module(
                entity_map@,
                own@,
                self.config.workspace.root.unwrap()@,
                entity@,
            ),
    {
        let root = match &self.config.workspace.root {
            Some(root) => root,
            None => {
                return None;
            },
        };
        match entity_map.get(entity.as_str()) {
            None => None,
            Some(path) => {
                if *path == *own {
                    None
                } else {
                    match strip_prefix(path.as_str(), root.as_str()) {
                        Some(below) => {
                            let parts = components(below.as_str());
                            Some(join_texts(&parts, "."))
                        },
                        None => None,
                    }
                }
            },
        }
    }
}

impl<'a> Codegen<'a, PythonImport> for PythonCodegen<'a> {
    open spec fn wf(&self) -> bool {
        python_ready(self.file_name@, self.config.workspace.root, self.entities@)
    }

    open spec fn entities(&self) -> Seq<WithOrigin<Parsed<Entity>>> {
        self.entities@
    }

    open spec fn file(&self) -> RuuLangFile {
        *self.file
    }

    open spec fn origin(&self) -> Seq<char> {
        self.origin@
    }

    open spec fn accepts(
        origin: &String,
        file_name: &String,
        config: &RuuLangConfig,
        entities: &Vec<WithOrigin<Parsed<Entity>>>,
        file: &RuuLangFile,
        file_json: &String,
    ) -> bool {
        python_ready(file_name@, config.workspace.root, entities@)
    }

    open spec fn prelude_text(&self) -> Option<Seq<char>> {
        None
    }

    open spec fn imports_text(
        &self,
        imports: Seq<PythonImportModel>,
        entity_map: Map<Seq<char>, Seq<char>>,
    ) -> Option<Seq<char>> {
        Some(
            imports_code(
                imports,
                entity_map,
                path_with_extension(self.file_name@, Seq::empty()),
                self.config.workspace.root.unwrap()@,
            ),
        )
    }

    open spec fn export_text(&self, export: Seq<char>) -> Option<Seq<char>> {
        None
    }

    open spec fn header_state(&self) -> Option<StateModel<PythonImportModel>> {
        None
    }

    open spec fn grant_state(&self, entity: Entity, grant: Seq<String>) -> Option<
        StateModel<PythonImportModel>,
    > {
        None
    }

    open spec fn attribute_state(
        &self,
        entity: Entity,
        rule: Relationship,
        attribute: Attribute,
    ) -> Option<StateModel<PythonImportModel>> {
        Some(
            attribute_step(
                entity.name.data.value@,
                rule.relationship_name.data.value@,
                attribute.name.data.value@,
            ),
        )
    }

    open spec fn relationship_state(&self, entity: Entity, rule: Relationship) -> Option<
        StateModel<PythonImportModel>,
    > {
        Some(
            relationship_step(
                entity.name.data.value@,
                rule@,
                target_entity(self.entities@, rule.entity_name.data.value@),
            ),
        )
    }

    open spec fn fragment_state(&self, fragment: Fragment) -> Option<StateModel<PythonImportModel>> {
        Some(fragment_step(fragment@))
    }

    open spec fn entrypoint_state(&self, entrypoint: Entrypoint) -> Option<
        StateModel<PythonImportModel>,
    > {
        Some(entrypoint_step(entrypoint@))
    }

    open spec fn entity_state(&self, entity: Entity) -> Option<StateModel<PythonImportModel>> {
        None
    }

    open spec fn footer_state(&self) -> Option<StateModel<PythonImportModel>> {
        footer_step(path_file_stem(self.file_name@).unwrap(), self.file@, self.file_json@)
    }

    fn new(
        origin: &'a String,
        file_name: &'a String,
        config: &'a RuuLangConfig,
        entities: &'a Vec<WithOrigin<Parsed<Entity>>>,
        file: &'a RuuLangFile,
        file_json: &'a String,
    ) -> (r: Self) {
        PythonCodegen { origin, file_name, entities, config, file, file_json }
    }

    fn get_schema_and_file(&self) -> (r: (&'a Vec<WithOrigin<Parsed<Entity>>>, &'a RuuLangFile)) {
        (self.entities, self.file)
    }

    fn get_origin(&self) -> (r: &'a String) {
        self.origin
    }

    fn serialize_imports(&self, imports: &Vec<PythonImport>, entity_map: &EntityMap) -> (r: Option<
        String,
    >) {
        proof {
            reveal_strlit("");
            assert(""@ =~= Seq::<char>::empty());
        }
        let own = with_extension(self.file_name.as_str(), "");
        let ghost root = self.config.workspace.root.unwrap()@;
        let ghost all = views(imports@);
        let mut bare: Vec<String> = Vec::new();
        let mut globals: Vec<(String, String)> = Vec::new();
        let mut locals: Vec<(String, String)> = Vec::new();
        assert(texts(bare@) =~= Seq::empty());
        assert(pair_views(globals@) =~= Seq::empty());
        assert(pair_views(locals@) =~= Seq::empty());
        let mut i: usize = 0;
        while i < imports.len()
            invariant
                i <= imports@.len(),
                entity_map.wf(),
                self.config.workspace.root.is_some(),
                root == self.config.workspace.root.unwrap()@,
                all == views(imports@),
                own@ == path_with_extension(self.file_name@, Seq::empty()),
                texts(bare@) == bare_modules(all, i as nat),
                pair_views(globals@) == global_pairs(all, i as nat),
                pair_views(locals@) == local_pairs(all, entity_map@, own@, root, i as nat),
            decreases imports@.len() - i,
        {
            let ghost held_bare = bare@;
            let ghost held_globals = globals@;
            let ghost held_locals = locals@;
            assert(all[i as int] == imports@[i as int]@);
            match &imports[i] {
                PythonImport::Global((module, None)) => {
                    bare.push(module.clone());
                    assert(texts(bare@) =~= texts(held_bare).push(module@));
                },
                PythonImport::Global((module, Some(name))) => {
                    globals.push((module.clone(), name.clone()));
                    assert(pair_views(globals@) =~= pair_views(held_globals).push(
                        (module@, name@),
                    ));
                },
                PythonImport::LocalImport((entity, value)) => {
                    match self.local_module_text(entity_map, &own, entity) {
                        Some(module) => {
                            locals.push((module, value.clone()));
                            assert(pair_views(locals@) =~= pair_views(held_locals).push(
                                (module@, value@),
                            ));
                        },
                        None => {},
                    }
                },
            }
            i += 1;
        }
        let mut out = import_section_text(bare);
        out.append(from_section_text(&globals).as_str());
        out.append(from_section_text(&locals).as_str());
        Some(out)
    }

    fn serialize_prelude(&self) -> (r: Option<String>) {
        None
    }

    fn serialize_header(&self) -> (r: Option<CodegenState<PythonImport>>) {
        None
    }

    fn serialize_grant(&self, entity: &Entity, grant: &Vec<String>) -> (r: Option<
        CodegenState<PythonImport>,
    >) {
        None
    }

    fn serialize_attribute(&self, entity: &Entity, rule: &Relationship, attribute: &Attribute) -> (r:
        Option<CodegenState<PythonImport>>) {
        let code = Self::attribute_code(entity, rule, attribute);
        let mut state = CodegenState::new();
        add_global(&mut state, "ruu_runtime", "Attribute");
        add_global(&mut state, "ruu_runtime", "registry");
        add_global(&mut state, "typing", "Literal");
        state.write_code(code);
        proof {
            reveal_with_fuel(with_items, 5);
            assert(state@.code_blocks =~= seq![code@]);
        }
        Some(state)
    }

    fn serialize_relationship(&self, entity: &Entity, rule: &Relationship) -> (r: Option<
        CodegenState<PythonImport>,
    >) {
        let (code, classes) = self.relationship_code(entity, rule);
        let mut state = CodegenState::new();
        add_local_imports(&mut state, rule.entity_name.data.value.as_str(), &classes);
        add_global(&mut state, "ruu_runtime", "Rule");
        add_global(&mut state, "ruu_runtime", "Universal");
        add_global(&mut state, "ruu_runtime", "registry");
        add_global(&mut state, "typing", "Literal");
        state.write_code(code);
        proof {
            let locals = local_imports(rule.entity_name.data.value@, texts(classes@));
            let globals = seq![
                global("ruu_runtime"@, "Rule"@),
                global("ruu_runtime"@, "Universal"@),
                global("ruu_runtime"@, "registry"@),
                global("typing"@, "Literal"@),
            ];
            reveal_with_fuel(with_items, 6);
            lemma_with_items_in_groups(Seq::empty(), locals, globals, 4);
            assert(state@.code_blocks =~= seq![code@]);
        }
        Some(state)
    }

    fn serialize_fragment(&self, fragment: &Fragment) -> (r: Option<CodegenState<PythonImport>>) {
        let code = Self::fragment_code(fragment);
        let mut state = CodegenState::new();
        state.write_code(code);
        add_global(&mut state, "ruu_runtime", "Fragment");
        add_global(&mut state, "typing", "Literal");
        proof {
            reveal_with_fuel(with_items, 5);
            assert(state@.code_blocks =~= seq![code@]);
        }
        Some(state)
    }

    fn serialize_entrypoint(&self, entrypoint: &Entrypoint) -> (r: Option<
        CodegenState<PythonImport>,
    >) {
        let (code, classes) = Self::entrypoint_code(entrypoint);
        let mut state = CodegenState::new();
        add_local_imports(&mut state, entrypoint.entrypoint.data.value.as_str(), &classes);
        state.write_code(code);
        add_global(&mut state, "ruu_runtime", "Entrypoint");
        add_global(&mut state, "ruu_runtime", "registry");
        add_global(&mut state, "typing", "Literal");
        proof {
            let locals = local_imports(entrypoint.entrypoint.data.value@, texts(classes@));
            let globals = seq![
                global("ruu_runtime"@, "Entrypoint"@),
                global("ruu_runtime"@, "registry"@),
                global("typing"@, "Literal"@),
            ];
            reveal_with_fuel(with_items, 5);
            lemma_with_items_in_groups(Seq::empty(), locals, globals, 3);
            assert(state@.code_blocks =~= seq![code@]);
        }
        Some(state)
    }

    fn serialize_entity(&self, entity: &Entity) -> (r: Option<CodegenState<PythonImport>>) {
        None
    }

    fn serialize_footer(&self) -> (r: Option<CodegenState<PythonImport>>) {
        if self.file.entrypoints.len() == 0 && self.file.fragments.len() == 0 {
            return None;
        }
        let stem = match file_stem(self.file_name.as_str()) {
            Some(stem) => stem,
            None => {
                return None;
            },
        };
        let code = self.footer_code(&stem);
        let mut state = CodegenState::new();
        state.write_code(code);
        add_global(&mut state, "ruu_runtime", "Schema");
        add_global(&mut state, "ruu_runtime", "registry");
        state.add_import(PythonImport::new_global_module("json"));
        proof {
            reveal_with_fuel(with_items, 5);
            assert(state@.code_blocks =~= seq![code@]);
        }
        Some(state)
    }

    fn serialize_export(&self, export: &String) -> (r: Option<String>) {
        None
    }
}

} // verus!
