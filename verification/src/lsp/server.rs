//! What an editor is told about a workspace: the diagnostics of a file, and
//! the documentation of what stands at a position.

use vstd::prelude::*;
use vstd::string::StringSliceAdditionalSpecFns;
use vstd::utf8::encode_utf8;
use crate::lsp::utils::{
    get_line_prefix_sum, line_starts, location_to_position, position_of_location,
    position_to_location, Position, Range,
};
use crate::parser::descent::{file_stack, Descendable};
use crate::parser::parse_location::{
    Context, ContextModel, DescentModel, IdentifierKind, Parsed, ParsedModel,
};
use crate::parser::ruulang_ast::{Attribute, AttributeModel, Fragment, FragmentModel, Grant};
use crate::parser::schema_ast::{Entity, EntityModel, Relationship, RelationshipModel};
use crate::utils::error::{RuuLangError, RuuLangErrorModel, TypecheckError, TypecheckErrorModel};
use crate::codegen::codegen::{find_representative, representative};
use crate::utils::order::text_le;
use crate::utils::text::{join, join_texts, opt_text, texts, views};
use crate::utils::trie::Path;
use crate::utils::with_origin::WithOrigin;
use crate::workspace::workspace::{
    entity_models, fragment_named, position_of, TaggedEntity, Workspace, WorkspaceModel,
};

verus! {

/// A finding to show in an editor: where it lies and what it says.
#[derive(Debug)]
pub struct Diagnostic {
    pub range: Range,
    pub message: String,
}

/// The mathematical value of a [`Diagnostic`].
pub struct DiagnosticModel {
    pub range: Range,
    pub message: Seq<char>,
}

impl View for Diagnostic {
    type V = DiagnosticModel;

    open spec fn view(&self) -> DiagnosticModel {
        DiagnosticModel { range: self.range, message: self.message@ }
    }
}

/// The range between two byte offsets in a text whose lines begin at `sums`.
pub open spec fn range_between(sums: Seq<u32>, start: u32, end: u32) -> Range {
    Range { start: position_of_location(sums, start), end: position_of_location(sums, end) }
}

/// The offset behind `at`, or `at` itself where no greater offset can be
/// counted.
pub open spec fn one_behind(at: u32) -> u32 {
    if at < u32::MAX {
        (at + 1) as u32
    } else {
        at
    }
}

/// What an editor is shown for an error, if anything: a finding of
/// validation that has a place is shown at its place with its message, and
/// a failure to read the text is shown at the byte where it occurred. Other
/// errors are not shown.
pub open spec fn shown(sums: Seq<u32>, error: RuuLangErrorModel) -> Option<DiagnosticModel> {
    match error {
        RuuLangErrorModel::TypecheckError(TypecheckErrorModel::GeneralError(data)) => match data.loc {
            Some((start, end)) => Some(
                DiagnosticModel {
                    range: range_between(sums, start as u32, end as u32),
                    message: data.data,
                },
            ),
            None => None,
        },
        RuuLangErrorModel::RuuLangParseError(location) => Some(
            DiagnosticModel {
                range: range_between(sums, location as u32, one_behind(location as u32)),
                message: "Parse error"@,
            },
        ),
        _ => None,
    }
}

/// What an editor is shown for the first `n` errors.
pub open spec fn all_shown(sums: Seq<u32>, errors: Seq<RuuLangErrorModel>, n: nat) -> Seq<
    DiagnosticModel,
>
    decreases n,
{
    if n == 0 || n > errors.len() {
        Seq::empty()
    } else {
        match shown(sums, errors[n - 1]) {
            Some(d) => all_shown(sums, errors, (n - 1) as nat).push(d),
            None => all_shown(sums, errors, (n - 1) as nat),
        }
    }
}

/// What an editor is shown for the errors of the file with the text
/// `contents`.
pub fn show_diagnostics(contents: &String, errors: &Vec<RuuLangError>) -> (r: Vec<Diagnostic>)
    requires
        encode_utf8(contents@).len() < u32::MAX,
    ensures
        views(r@) == all_shown(
            line_starts(encode_utf8(contents@), encode_utf8(contents@).len()),
            views(errors@),
            errors@.len(),
        ),
{
    let sums = get_line_prefix_sum(contents);
    proof {
        lemma_lines(encode_utf8(contents@), encode_utf8(contents@).len());
    }
    let mut diagnostics: Vec<Diagnostic> = Vec::new();
    let mut i: usize = 0;
    assert(views(diagnostics@) =~= Seq::empty());
    while i < errors.len()
        invariant
            i <= errors@.len(),
            0 < sums@.len() <= u32::MAX,
            sums@[0] == 0,
            views(diagnostics@) == all_shown(sums@, views(errors@), i as nat),
        decreases errors@.len() - i,
    {
        let ghost before = views(diagnostics@);
        match &errors[i] {
            RuuLangError::TypecheckError(TypecheckError::GeneralError(data)) => {
                if let Some(loc) = data.loc {
                    let d = Diagnostic {
                        range: Range {
                            start: location_to_position(&sums, loc.0 as u32),
                            end: location_to_position(&sums, loc.1 as u32),
                        },
                        message: data.data.clone(),
                    };
                    diagnostics.push(d);
                    assert(views(diagnostics@) =~= before.push(d@));
                }
            },
            RuuLangError::RuuLangParseError(location) => {
                let at = *location as u32;
                let behind = if at < u32::MAX {
                    at + 1
                } else {
                    at
                };
                let d = Diagnostic {
                    range: Range {
                        start: location_to_position(&sums, at),
                        end: location_to_position(&sums, behind),
                    },
                    message: "Parse error".to_owned(),
                };
                diagnostics.push(d);
                assert(views(diagnostics@) =~= before.push(d@));
            },
            _ => {},
        }
        i += 1;
    }
    diagnostics
}

proof fn lemma_lines(bytes: Seq<u8>, n: nat)
    requires
        n <= bytes.len(),
    ensures
        0 < line_starts(bytes, n).len() <= n + 1,
        line_starts(bytes, n)[0] == 0,
    decreases n,
{
    if n > 0 {
        lemma_lines(bytes, (n - 1) as nat);
    }
}

/// The documentation of a node, or nothing.
pub open spec fn doc_text(doc: Option<Seq<char>>) -> Seq<char> {
    match doc {
        Some(d) => d,
        None => Seq::empty(),
    }
}

pub open spec fn entity_markdown(entity: ParsedModel<EntityModel>) -> Seq<char> {
    "```ruulang\nentity "@ + entity.data.name.data.value + "\n```\n\n"@ + doc_text(
        entity.docstring,
    )
}

pub open spec fn fragment_markdown(
    entity: ParsedModel<EntityModel>,
    fragment: ParsedModel<FragmentModel>,
) -> Seq<char> {
    "```ruulang\nfragment "@ + fragment.data.name.data.value + " for "@
        + entity.data.name.data.value + "\n```\n\n"@ + doc_text(fragment.docstring)
}

pub open spec fn relationship_markdown(
    from_entity: ParsedModel<EntityModel>,
    relationship: ParsedModel<RelationshipModel>,
    to_entity: ParsedModel<EntityModel>,
) -> Seq<char> {
    "```ruulang\nentity "@ + from_entity.data.name.data.value + " { "@
        + relationship.data.relationship_name.data.value + " -> "@
        + to_entity.data.name.data.value + "; }\n```\n\n"@ + doc_text(relationship.docstring)
}

pub open spec fn grant_markdown(entity: ParsedModel<EntityModel>, grant: ParsedModel<Path>) -> Seq<
    char,
> {
    "```ruulang\nentity "@ + entity.data.name.data.value + " { "@ + join(grant.data, "."@)
        + "; }\n```\n\n"@ + doc_text(grant.docstring)
}

pub open spec fn attribute_markdown(
    rule: ParsedModel<RelationshipModel>,
    attribute: ParsedModel<AttributeModel>,
) -> Seq<char> {
    "```ruulang\n "@ + rule.data.relationship_name.data.value + ":"@
        + attribute.data.name.data.value + "\n```\n\n"@ + doc_text(attribute.docstring)
}

fn append_doc(out: &mut String, doc: &Option<String>)
    ensures
        final(out)@ == old(out)@ + doc_text(opt_text(*doc)),
{
    match doc {
        Some(d) => {
            out.append(d.as_str());
        },
        None => {
            assert(out@ + Seq::<char>::empty() =~= out@);
        },
    }
}

/// The documentation shown for an entity.
pub fn serialize_entity(entity: &Parsed<Entity>) -> (r: String)
    ensures
        r@ == entity_markdown(entity@),
{
    let mut result = "```ruulang\nentity ".to_owned();
    result.append(entity.data.name.data.value.as_str());
    result.append("\n```\n\n");
    append_doc(&mut result, &entity.docstring);
    result
}

/// The documentation shown for a fragment.
pub fn serialize_fragment(entity: &Parsed<Entity>, fragment: &Parsed<Fragment>) -> (r: String)
    ensures
        r@ == fragment_markdown(entity@, fragment@),
{
    let mut result = "```ruulang\nfragment ".to_owned();
    result.append(fragment.data.name.data.value.as_str());
    result.append(" for ");
    result.append(entity.data.name.data.value.as_str());
    result.append("\n```\n\n");
    append_doc(&mut result, &fragment.docstring);
    result
}

/// The documentation shown for a relationship.
pub fn serialize_relationship(
    from_entity: &Parsed<Entity>,
    relationship: &Parsed<Relationship>,
    to_entity: &Parsed<Entity>,
) -> (r: String)
    ensures
        r@ == relationship_markdown(from_entity@, relationship@, to_entity@),
{
    let mut result = "```ruulang\nentity ".to_owned();
    result.append(from_entity.data.name.data.value.as_str());
    result.append(" { ");
    result.append(relationship.data.relationship_name.data.value.as_str());
    result.append(" -> ");
    result.append(to_entity.data.name.data.value.as_str());
    result.append("; }\n```\n\n");
    append_doc(&mut result, &relationship.docstring);
    result
}

/// The documentation shown for a grant.
pub fn serialize_grant(entity: &Parsed<Entity>, grant: &Parsed<Grant>) -> (r: String)
    ensures
        r@ == grant_markdown(entity@, grant@),
{
    let mut result = "```ruulang\nentity ".to_owned();
    result.append(entity.data.name.data.value.as_str());
    result.append(" { ");
    result.append(join_texts(&grant.data.grant, ".").as_str());
    result.append("; }\n```\n\n");
    append_doc(&mut result, &grant.docstring);
    result
}

/// The documentation shown for an attribute of a relationship.
pub fn serialize_attribute(rule: &Parsed<Relationship>, attribute: &Parsed<Attribute>) -> (r: String)
    ensures
        r@ == attribute_markdown(rule@, attribute@),
{
    let mut result = "```ruulang\n ".to_owned();
    result.append(rule.data.relationship_name.data.value.as_str());
    result.append(":");
    result.append(attribute.data.name.data.value.as_str());
    result.append("\n```\n\n");
    append_doc(&mut result, &attribute.docstring);
    result
}

/// The place of the declaration, among the first `n`, that stands for the
/// entity `name`: the first declaration of the entity in the file whose path
/// comes first in the order of a dictionary, among the files that declare
/// it. The choice depends on no order in which the files were read.
pub open spec fn standing(entities: Seq<TaggedEntity>, name: Seq<char>, n: nat) -> Option<int>
    decreases n,
{
    if n == 0 || n > entities.len() {
        None
    } else {
        let before = standing(entities, name, (n - 1) as nat);
        if entities[n - 1].1.data.name.data.value != name {
            before
        } else {
            match before {
                Some(i) if text_le(entities[i].0, entities[n - 1].0) => before,
                _ => Some(n - 1),
            }
        }
    }
}

/// The declaration that stands for the entity `name`, if the entity is
/// declared.
pub open spec fn entity_named(entities: Seq<TaggedEntity>, name: Seq<char>) -> Option<
    ParsedModel<EntityModel>,
> {
    match standing(entities, name, entities.len()) {
        Some(i) => Some(entities[i].1),
        None => None,
    }
}

/// The declaration that stands for an entity is the same whether the
/// declarations are read as they are kept or as values.
pub proof fn lemma_standing(entities: Seq<WithOrigin<Parsed<Entity>>>, name: Seq<char>, n: nat)
    requires
        n <= entities.len(),
    ensures
        representative(entities, name, n) == standing(entity_models(entities), name, n),
        representative(entities, name, n) matches Some(i) ==> 0 <= i < n,
    decreases n,
{
    if n > 0 {
        lemma_standing(entities, name, (n - 1) as nat);
    }
}

/// The first relationship named `name`, from position `from` on.
pub open spec fn relationship_named(
    rels: Seq<ParsedModel<RelationshipModel>>,
    name: Seq<char>,
    from: nat,
) -> Option<ParsedModel<RelationshipModel>>
    decreases rels.len() - from,
{
    if from >= rels.len() {
        None
    } else if rels[from as int].data.relationship_name.data.value == name {
        Some(rels[from as int])
    } else {
        relationship_named(rels, name, from + 1)
    }
}

/// The first attribute named `name`, from position `from` on.
pub open spec fn attribute_named(attrs: Seq<ParsedModel<AttributeModel>>, name: Seq<char>, from: nat) -> Option<
    ParsedModel<AttributeModel>,
>
    decreases attrs.len() - from,
{
    if from >= attrs.len() {
        None
    } else if attrs[from as int].data.name.data.value == name {
        Some(attrs[from as int])
    } else {
        attribute_named(attrs, name, from + 1)
    }
}

/// The first grant with the path `path`, from position `from` on.
pub open spec fn grant_with_path(grants: Seq<ParsedModel<Path>>, path: Path, from: nat) -> Option<
    ParsedModel<Path>,
>
    decreases grants.len() - from,
{
    if from >= grants.len() {
        None
    } else if grants[from as int].data == path {
        Some(grants[from as int])
    } else {
        grant_with_path(grants, path, from + 1)
    }
}

/// What a walk down a descent knows: the entities passed, the innermost
/// last; the relationships followed; and what is to be shown.
pub struct HoverState {
    pub entities: Seq<EntityModel>,
    pub rels: Seq<RelationshipModel>,
    pub result: Option<Seq<char>>,
}

/// The walk after an entity was entered by name: the entity is noted and
/// shown. Nothing changes where the workspace has no such entity.
pub open spec fn enter_entity(ws: WorkspaceModel, state: HoverState, name: Seq<char>) -> HoverState {
    match entity_named(ws.entities, name) {
        Some(found) => HoverState {
            entities: state.entities.push(found.data),
            result: Some(entity_markdown(found)),
            ..state
        },
        None => state,
    }
}

/// The walk after one more step of the descent.
///
/// At the top, an entrypoint or an entity enters its entity, and a fragment
/// enters the entity it is for and shows the fragment. Inside an entity, a
/// rule follows its relationship to the next entity and shows the
/// relationship; a grant shows the entity's grant of that path; the name of
/// a fragment shows the fragment for the entity; the name of an entity shows
/// that entity. An attribute, behind a rule, shows the attribute of the
/// relationship, looked up on the entity that the relationship starts from.
/// A step that finds nothing changes nothing.
pub open spec fn hover_step(ws: WorkspaceModel, state: HoverState, context: ContextModel) -> HoverState {
    let inside = state.entities.len() > 0;
    match context {
        ContextModel::Entrypoint(ep) => if inside {
            state
        } else {
            enter_entity(ws, state, ep.entrypoint.data.value)
        },
        ContextModel::Entity(e) => if inside {
            state
        } else {
            enter_entity(ws, state, e.name.data.value)
        },
        ContextModel::Fragment(f) => if inside {
            state
        } else {
            match entity_named(ws.entities, f.for_entity.data.value) {
                Some(found) => match fragment_named(
                    ws.files,
                    f.name.data.value,
                    f.for_entity.data.value,
                ) {
                    Some(fragment) => HoverState {
                        entities: state.entities.push(found.data),
                        result: Some(fragment_markdown(found, fragment)),
                        ..state
                    },
                    None => state,
                },
                None => state,
            }
        },
        ContextModel::Rule(rule) => if !inside {
            state
        } else {
            let entity = state.entities.last();
            match entity_named(ws.entities, entity.name.data.value) {
                Some(from_entity) => match relationship_named(
                    entity.relationships,
                    rule.relationship.data.value,
                    0,
                ) {
                    Some(rel) => match entity_named(
                        ws.entities,
                        rel.data.entity_name.data.value,
                    ) {
                        Some(next) => HoverState {
                            entities: state.entities.push(next.data),
                            rels: state.rels.push(rel.data),
                            result: Some(relationship_markdown(from_entity, rel, next)),
                        },
                        None => state,
                    },
                    None => state,
                },
                None => state,
            }
        },
        ContextModel::Attribute(attr) => if state.rels.len() == 0 || state.entities.len() < 2 {
            state
        } else {
            let rel = state.rels.last();
            let parent = state.entities[state.entities.len() - 2];
            match relationship_named(parent.relationships, rel.relationship_name.data.value, 0) {
                Some(found_rel) => match attribute_named(
                    found_rel.data.attributes,
                    attr.name.data.value,
                    0,
                ) {
                    Some(found_attr) => HoverState {
                        result: Some(attribute_markdown(found_rel, found_attr)),
                        ..state
                    },
                    None => state,
                },
                None => state,
            }
        },
        ContextModel::Grant(g) => if !inside {
            state
        } else {
            let entity = state.entities.last();
            match entity_named(ws.entities, entity.name.data.value) {
                Some(found) => match grant_with_path(entity.grants, g, 0) {
                    Some(grant) => HoverState {
                        result: Some(grant_markdown(found, grant)),
                        ..state
                    },
                    None => state,
                },
                None => state,
            }
        },
        ContextModel::Identifier(id) => if !inside {
            state
        } else {
            let entity = state.entities.last();
            match id.kind {
                IdentifierKind::Fragment => match entity_named(
                    ws.entities,
                    entity.name.data.value,
                ) {
                    Some(found) => match fragment_named(
                        ws.files,
                        id.value,
                        entity.name.data.value,
                    ) {
                        Some(fragment) => HoverState {
                            result: Some(fragment_markdown(found, fragment)),
                            ..state
                        },
                        None => state,
                    },
                    None => state,
                },
                IdentifierKind::Entity => match entity_named(ws.entities, id.value) {
                    Some(found) => HoverState { result: Some(entity_markdown(found)), ..state },
                    None => state,
                },
                _ => state,
            }
        },
        _ => state,
    }
}

/// The walk after the first `n` steps of a descent.
pub open spec fn hover_walk(ws: WorkspaceModel, stack: Seq<DescentModel>, n: nat) -> HoverState
    decreases n,
{
    if n == 0 || n > stack.len() {
        HoverState { entities: Seq::empty(), rels: Seq::empty(), result: None }
    } else {
        hover_step(ws, hover_walk(ws, stack, (n - 1) as nat), stack[n - 1].context)
    }
}

/// What is shown for the byte offset `location` of the file `path`:
/// nothing for a path without a file, for a file that could not be read, for
/// a file whose text the workspace does not hold, and for an offset that no
/// declaration of the file covers; else what the walk down the descent to
/// the offset shows last.
pub open spec fn hover_text(ws: WorkspaceModel, path: Seq<char>, location: usize) -> Option<
    Seq<char>,
> {
    let at = position_of(ws.files, path, 0);
    if at >= ws.files.len() || position_of(ws.sources, path, 0) >= ws.sources.len() {
        None
    } else {
        match ws.files[at as int].1 {
            Err(_) => None,
            Ok(file) => match file_stack(file, (location, location)) {
                None => None,
                Some(stack) => hover_walk(ws, stack, stack.len()).result,
            },
        }
    }
}

fn find_entity<'a>(workspace: &'a Workspace, name: &String) -> (r: Option<&'a Parsed<Entity>>)
    ensures
        match r {
            Some(found) => entity_named(workspace@.entities, name@) == Some(found@),
            None => entity_named(workspace@.entities, name@).is_none(),
        },
{
    proof {
        lemma_standing(workspace.entities@, name@, workspace.entities@.len());
    }
    match find_representative(&workspace.entities, name) {
        Some(i) => Some(&workspace.entities[i].data),
        None => None,
    }
}

fn find_fragment<'a>(workspace: &'a Workspace, name: &String, entity: &String) -> (r: Option<
    &'a Parsed<Fragment>,
>)
    ensures
        match r {
            Some(found) => fragment_named(workspace@.files, name@, entity@) == Some(found@),
            None => fragment_named(workspace@.files, name@, entity@).is_none(),
        },
{
    workspace.fragment_by_name_and_entity(name, entity)
}

fn find_relationship<'a>(entity: &'a Entity, name: &String) -> (r: Option<&'a Parsed<Relationship>>)
    ensures
        match r {
            Some(found) => relationship_named(entity@.relationships, name@, 0) == Some(found@),
            None => relationship_named(entity@.relationships, name@, 0).is_none(),
        },
{
    let mut i: usize = 0;
    while i < entity.relationships.len()
        invariant
            i <= entity.relationships@.len(),
            relationship_named(entity@.relationships, name@, 0) == relationship_named(
                entity@.relationships,
                name@,
                i as nat,
            ),
        decreases entity.relationships@.len() - i,
    {
        if entity.relationships[i].data.relationship_name.data.value == *name {
            return Some(&entity.relationships[i]);
        }
        i += 1;
    }
    None
}

fn find_attribute<'a>(rel: &'a Relationship, name: &String) -> (r: Option<&'a Parsed<Attribute>>)
    ensures
        match r {
            Some(found) => attribute_named(rel@.attributes, name@, 0) == Some(found@),
            None => attribute_named(rel@.attributes, name@, 0).is_none(),
        },
{
    let mut i: usize = 0;
    while i < rel.attributes.len()
        invariant
            i <= rel.attributes@.len(),
            attribute_named(rel@.attributes, name@, 0) == attribute_named(
                rel@.attributes,
                name@,
                i as nat,
            ),
        decreases rel.attributes@.len() - i,
    {
        if rel.attributes[i].data.name.data.value == *name {
            return Some(&rel.attributes[i]);
        }
        i += 1;
    }
    None
}

fn same_path(a: &Vec<String>, b: &Vec<String>) -> (r: bool)
    ensures
        r == (texts(a@) == texts(b@)),
{
    if a.len() != b.len() {
        assert(texts(a@).len() != texts(b@).len());
        return false;
    }
    let mut i: usize = 0;
    while i < a.len()
        invariant
            i <= a@.len(),
            a@.len() == b@.len(),
            forall|k: int| 0 <= k < i ==> a@[k]@ == b@[k]@,
        decreases a@.len() - i,
    {
        if !(a[i] == b[i]) {
            assert(texts(a@)[i as int] != texts(b@)[i as int]);
            return false;
        }
        i += 1;
    }
    assert(texts(a@) =~= texts(b@));
    true
}

fn find_grant<'a>(entity: &'a Entity, path: &Vec<String>) -> (r: Option<&'a Parsed<Grant>>)
    ensures
        match r {
            Some(found) => grant_with_path(entity@.grants, texts(path@), 0) == Some(found@),
            None => grant_with_path(entity@.grants, texts(path@), 0).is_none(),
        },
{
    let mut i: usize = 0;
    while i < entity.grants.len()
        invariant
            i <= entity.grants@.len(),
            grant_with_path(entity@.grants, texts(path@), 0) == grant_with_path(
                entity@.grants,
                texts(path@),
                i as nat,
            ),
        decreases entity.grants@.len() - i,
    {
        if same_path(&entity.grants[i].data.grant, path) {
            return Some(&entity.grants[i]);
        }
        i += 1;
    }
    None
}

/// The value of what a walk knows.
pub open spec fn walk_view(
    entities: Seq<&Entity>,
    rels: Seq<&Relationship>,
    result: Option<String>,
) -> HoverState {
    HoverState {
        entities: Seq::new(entities.len(), |i: int| entities[i]@),
        rels: Seq::new(rels.len(), |i: int| rels[i]@),
        result: opt_text(result),
    }
}

/// What is shown for the byte offset `location` of the file `file_name`.
pub fn hover_at(workspace: &Workspace, file_name: &String, location: usize) -> (r: Option<String>)
    ensures
        opt_text(r) == hover_text(workspace@, file_name@, location),
{
    let contents = match workspace.resolve_schema(file_name) {
        Some(data) => data,
        None => {
            return None;
        },
    };
    let schema = match &contents.data {
        Ok(schema) => schema,
        Err(_) => {
            return None;
        },
    };
    if workspace.resolve_file(file_name).is_none() {
        return None;
    }
    let stack = match schema.descend_at((location, location)) {
        Some(stack) => stack,
        None => {
            return None;
        },
    };
    let ghost ws = workspace@;
    let ghost steps = views(stack@);
    let mut entities: Vec<&Entity> = Vec::new();
    let mut rels: Vec<&Relationship> = Vec::new();
    let mut final_result: Option<String> = None;
    let mut i: usize = 0;
    proof {
        assert(walk_view(entities@, rels@, final_result).entities =~= Seq::empty());
        assert(walk_view(entities@, rels@, final_result).rels =~= Seq::empty());
    }
    while i < stack.len()
        invariant
            i <= stack@.len(),
            ws == workspace@,
            steps == views(stack@),
            walk_view(entities@, rels@, final_result) == hover_walk(ws, steps, i as nat),
        decreases stack@.len() - i,
    {
        let ghost before = walk_view(entities@, rels@, final_result);
        let ghost held_entities = entities@;
        let ghost held_rels = rels@;
        assert(steps[i as int].context == stack@[i as int].context@);
        let inside = entities.len() > 0;
        match &stack[i].context {
            Context::Entrypoint(ep) => {
                if !inside {
                    if let Some(found) = find_entity(workspace, &ep.entrypoint.data.value) {
                        entities.push(&found.data);
                        final_result = Some(serialize_entity(found));
                        assert(walk_view(entities@, rels@, final_result).entities
                            =~= before.entities.push(found@.data));
                    }
                }
            },
            Context::Entity(e) => {
                if !inside {
                    if let Some(found) = find_entity(workspace, &e.name.data.value) {
                        entities.push(&found.data);
                        final_result = Some(serialize_entity(found));
                        assert(walk_view(entities@, rels@, final_result).entities
                            =~= before.entities.push(found@.data));
                    }
                }
            },
            Context::Fragment(f) => {
                if !inside {
                    if let Some(found) = find_entity(workspace, &f.for_entity.data.value) {
                        if let Some(fragment) = find_fragment(
                            workspace,
                            &f.name.data.value,
                            &f.for_entity.data.value,
                        ) {
                            entities.push(&found.data);
                            final_result = Some(serialize_fragment(found, fragment));
                            assert(walk_view(entities@, rels@, final_result).entities
                                =~= before.entities.push(found@.data));
                        }
                    }
                }
            },
            Context::Rule(rule) => {
                if inside {
                    let entity = entities[entities.len() - 1];
                    assert(before.entities.last() == entity@);
                    if let Some(from_entity) = find_entity(workspace, &entity.name.data.value) {
                        if let Some(rel) = find_relationship(
                            entity,
                            &rule.relationship.data.value,
                        ) {
                            if let Some(next) = find_entity(
                                workspace,
                                &rel.data.entity_name.data.value,
                            ) {
                                final_result = Some(serialize_relationship(from_entity, rel, next));
                                entities.push(&next.data);
                                rels.push(&rel.data);
                                assert(walk_view(entities@, rels@, final_result).entities
                                    =~= before.entities.push(next@.data));
                                assert(walk_view(entities@, rels@, final_result).rels
                                    =~= before.rels.push(rel@.data));
                            }
                        }
                    }
                }
            },
            Context::Attribute(attr) => {
                if rels.len() > 0 && entities.len() >= 2 {
                    let rel = rels[rels.len() - 1];
                    let parent = entities[entities.len() - 2];
                    assert(before.rels.last() == rel@);
                    assert(before.entities[before.entities.len() - 2] == parent@);
                    if let Some(found_rel) = find_relationship(
                        parent,
                        &rel.relationship_name.data.value,
                    ) {
                        if let Some(found_attr) = find_attribute(
                            &found_rel.data,
                            &attr.name.data.value,
                        ) {
                            final_result = Some(serialize_attribute(found_rel, found_attr));
                        }
                    }
                }
            },
            Context::Grant(g) => {
                if inside {
                    let entity = entities[entities.len() - 1];
                    assert(before.entities.last() == entity@);
                    if let Some(found) = find_entity(workspace, &entity.name.data.value) {
                        if let Some(grant) = find_grant(entity, &g.grant) {
                            final_result = Some(serialize_grant(found, grant));
                        }
                    }
                }
            },
            Context::Identifier(id) => {
                if inside {
                    let entity = entities[entities.len() - 1];
                    assert(before.entities.last() == entity@);
                    match id.kind {
                        IdentifierKind::Fragment => {
                            if let Some(found) = find_entity(workspace, &entity.name.data.value) {
                                if let Some(fragment) = find_fragment(
                                    workspace,
                                    &id.value,
                                    &entity.name.data.value,
                                ) {
                                    final_result = Some(serialize_fragment(found, fragment));
                                }
                            }
                        },
                        IdentifierKind::Entity => {
                            if let Some(found) = find_entity(workspace, &id.value) {
                                final_result = Some(serialize_entity(found));
                            }
                        },
                        _ => {},
                    }
                }
            },
            _ => {},
        }
        i += 1;
    }
    final_result
}

/// What an editor is shown after the file `path` was given the text
/// `contents`: the diagnostics of the file in the patched workspace.
pub open spec fn notified(ws: Workspace, path: Seq<char>, contents: Seq<char>) -> Seq<
    DiagnosticModel,
> {
    let at = position_of(ws@.files, path, 0);
    let errors = if at < ws@.files.len() {
        match ws.files@[at as int].data {
            Ok(file) => crate::typechecker::typechecker::file_diagnostics(
                crate::typechecker::typechecker::index_of(ws.entities@, ws.files@),
                file@,
            ),
            Err(e) => seq![e@],
        }
    } else {
        seq![
            RuuLangErrorModel::FileNotFound(
                crate::workspace::workspace::not_found_message(path),
            ),
        ]
    };
    all_shown(line_starts(encode_utf8(contents), encode_utf8(contents).len()), errors, errors.len())
}

/// Gives the file `file_name` the text `contents` and says what an editor is
/// to be shown for it. A file that does not lie below the workspace root is
/// left alone, unless `allow_create` says otherwise: then nothing changes
/// and nothing is shown.
pub fn patch_and_notify(
    workspace: &mut Workspace,
    file_name: &String,
    contents: &String,
    allow_create: bool,
) -> (r: Option<Vec<Diagnostic>>)
    requires
        old(workspace).root().is_some(),
        crate::workspace::workspace::readable(contents@),
        encode_utf8(contents@).len() < u32::MAX,
    ensures
        r.is_none() == (!allow_create && !crate::utils::paths::path_starts_with(
            file_name@,
            old(workspace).root().unwrap()@,
        )),
        r.is_none() ==> *final(workspace) == *old(workspace),
        final(workspace).config == old(workspace).config,
        final(workspace).working_dir == old(workspace).working_dir,
        r.is_some() ==> final(workspace)@ == crate::workspace::workspace::patched(
            old(workspace)@,
            file_name@,
            contents@,
        ) && views(r.unwrap()@) == notified(*final(workspace), file_name@, contents@),
{
    if !allow_create && !workspace.contains_file(file_name) {
        return None;
    }
    let _ = workspace.patch_file(file_name, contents);
    let errors = workspace.typecheck_file(file_name);
    Some(show_diagnostics(contents, &errors))
}

/// The byte offset of a position in the file `path`: that of the start of
/// the position's line plus the position's byte in the line. None where the
/// workspace does not hold the file's text, where the text has no such
/// line, and where offsets in the text cannot be counted in 32 bits.
pub open spec fn located(ws: WorkspaceModel, path: Seq<char>, position: Position) -> Option<usize> {
    let at = position_of(ws.sources, path, 0);
    if at >= ws.sources.len() {
        None
    } else {
        let bytes = encode_utf8(ws.sources[at as int].1);
        let sums = line_starts(bytes, bytes.len());
        if bytes.len() >= u32::MAX || position.line >= sums.len() || sums[position.line as int]
            + position.character > u32::MAX {
            None
        } else {
            Some((sums[position.line as int] + position.character) as usize)
        }
    }
}

/// The byte offset of a position in the file `file_name`.
pub fn locate(workspace: &Workspace, file_name: &String, position: &Position) -> (r: Option<usize>)
    ensures
        r == located(workspace@, file_name@, *position),
{
    let contents = match workspace.resolve_file(file_name) {
        Some(c) => c,
        None => {
            return None;
        },
    };
    if contents.as_str().as_bytes().len() >= u32::MAX as usize {
        return None;
    }
    let sums = get_line_prefix_sum(contents);
    if position.line as usize >= sums.len() {
        return None;
    }
    if sums[position.line as usize] > u32::MAX - position.character {
        return None;
    }
    Some(position_to_location(&sums, position) as usize)
}

/// What is shown for a position of the file `file_name`: the documentation
/// of what stands at the position's byte offset; nothing for a position
/// that has none.
pub fn hover(workspace: &Workspace, file_name: &String, position: &Position) -> (r: Option<String>)
    ensures
        opt_text(r) == (match located(workspace@, file_name@, *position) {
            Some(location) => hover_text(workspace@, file_name@, location),
            None => None,
        }),
{
    match locate(workspace, file_name, position) {
        Some(location) => hover_at(workspace, file_name, location),
        None => None,
    }
}

} // verus!
