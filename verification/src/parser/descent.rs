//! The descent from a file to the nodes around a position.
//!
//! A position is a range of byte offsets, its end not counted; a single
//! offset is the empty range that starts and ends there. A node covers a
//! position when it has a byte range and the whole position lies in it: the
//! position starts no earlier than the node and ends no later. The descent
//! starts at the file; at each node that covers the position it notes the
//! node and goes on into the first child that covers the position, the
//! children taken in the order that each kind of node fixes.

use vstd::prelude::*;
use crate::parser::parse_location::{
    Context, ContextModel, DescentContext, DescentModel, Identifier, IdentifierModel, Parsed,
    ParsedModel,
};
use crate::parser::ruulang_ast::{
    lemma_rule_children, Attribute, AttributeModel, Entrypoint, EntrypointModel, Fragment,
    FragmentModel, Grant, Rule, RuleModel, RuuLangFile, RuuLangFileModel,
};
use crate::parser::schema_ast::{Entity, EntityModel, Relationship, RelationshipModel};
use crate::utils::text::{join, join_texts, lemma_views_add, views};
use crate::utils::trie::Path;

verus! {

/// A stack of descent steps, the outermost first, or none.
pub type Stack = Option<Seq<DescentModel>>;

/// Whether a node with the byte range `loc` covers the position `at`.
pub open spec fn covers(loc: Option<(usize, usize)>, at: (usize, usize)) -> bool {
    match loc {
        Some((start, end)) => start <= at.0 && at.1 <= end,
        None => false,
    }
}

/// `first` if it is a stack, else `second`.
pub open spec fn either(first: Stack, second: Stack) -> Stack {
    if first.is_some() {
        first
    } else {
        second
    }
}

/// The step for a node, followed by the steps below it, if there are any.
pub open spec fn step_then(
    context: ContextModel,
    name: Seq<char>,
    docstring: Option<Seq<char>>,
    below: Stack,
) -> Stack {
    Some(
        seq![DescentModel { context, name: Some(name), docstring }] + (match below {
            Some(s) => s,
            None => Seq::empty(),
        }),
    )
}

pub open spec fn identifier_stack(node: ParsedModel<IdentifierModel>, at: (usize, usize)) -> Stack {
    if covers(node.loc, at) {
        step_then(ContextModel::Identifier(node.data), node.data.value, node.docstring, None)
    } else {
        None
    }
}

pub open spec fn grant_stack(node: ParsedModel<Path>, at: (usize, usize)) -> Stack {
    if covers(node.loc, at) {
        step_then(ContextModel::Grant(node.data), join(node.data, "."@), node.docstring, None)
    } else {
        None
    }
}

/// An attribute's only child is its name.
pub open spec fn attribute_stack(node: ParsedModel<AttributeModel>, at: (usize, usize)) -> Stack {
    if covers(node.loc, at) {
        step_then(
            ContextModel::Attribute(node.data),
            node.data.name.data.value,
            node.docstring,
            identifier_stack(node.data.name, at),
        )
    } else {
        None
    }
}

/// The stack of the first of `nodes`, from position `from` on, that has one.
pub open spec fn first_identifier(
    nodes: Seq<ParsedModel<IdentifierModel>>,
    at: (usize, usize),
    from: nat,
) -> Stack
    decreases nodes.len() - from,
{
    if from >= nodes.len() {
        None
    } else {
        either(identifier_stack(nodes[from as int], at), first_identifier(nodes, at, from + 1))
    }
}

/// The stack of the first of `nodes`, from position `from` on, that has one.
pub open spec fn first_grant(nodes: Seq<ParsedModel<Path>>, at: (usize, usize), from: nat) -> Stack
    decreases nodes.len() - from,
{
    if from >= nodes.len() {
        None
    } else {
        either(grant_stack(nodes[from as int], at), first_grant(nodes, at, from + 1))
    }
}

/// The stack of the first of `nodes`, from position `from` on, that has one.
pub open spec fn first_attribute(
    nodes: Seq<ParsedModel<AttributeModel>>,
    at: (usize, usize),
    from: nat,
) -> Stack
    decreases nodes.len() - from,
{
    if from >= nodes.len() {
        None
    } else {
        either(attribute_stack(nodes[from as int], at), first_attribute(nodes, at, from + 1))
    }
}

/// A relationship's children are its attributes, its name, and the name of
/// the entity it leads to.
pub open spec fn relationship_stack(node: ParsedModel<RelationshipModel>, at: (usize, usize)) -> Stack {
    if covers(node.loc, at) {
        step_then(
            ContextModel::Relationship(node.data),
            node.data.relationship_name.data.value,
            node.docstring,
            either(
                first_attribute(node.data.attributes, at, 0),
                either(
                    identifier_stack(node.data.relationship_name, at),
                    identifier_stack(node.data.entity_name, at),
                ),
            ),
        )
    } else {
        None
    }
}

/// The stack of the first of `nodes`, from position `from` on, that has one.
pub open spec fn first_relationship(
    nodes: Seq<ParsedModel<RelationshipModel>>,
    at: (usize, usize),
    from: nat,
) -> Stack
    decreases nodes.len() - from,
{
    if from >= nodes.len() {
        None
    } else {
        either(relationship_stack(nodes[from as int], at), first_relationship(nodes, at, from + 1))
    }
}

/// An entity's children are its relationships, its grants, and its name.
pub open spec fn entity_stack(node: ParsedModel<EntityModel>, at: (usize, usize)) -> Stack {
    if covers(node.loc, at) {
        step_then(
            ContextModel::Entity(node.data),
            node.data.name.data.value,
            node.docstring,
            either(
                first_relationship(node.data.relationships, at, 0),
                either(first_grant(node.data.grants, at, 0), identifier_stack(node.data.name, at)),
            ),
        )
    } else {
        None
    }
}

/// A rule's children are its attributes, its grants, the rules below it, the
/// fragments it includes, and its relationship's name.
pub open spec fn rule_stack(node: ParsedModel<RuleModel>, at: (usize, usize)) -> Stack
    decreases node, 0nat,
{
    if covers(node.loc, at) {
        step_then(
            ContextModel::Rule(node.data),
            node.data.relationship.data.value,
            node.docstring,
            either(
                first_attribute(node.data.attributes, at, 0),
                either(
                    first_grant(node.data.grants, at, 0),
                    either(
                        first_rule(node.data.rules, at, node.data.rules.len()),
                        either(
                            first_identifier(node.data.include_fragments, at, 0),
                            identifier_stack(node.data.relationship, at),
                        ),
                    ),
                ),
            ),
        )
    } else {
        None
    }
}

/// The stack of the first of the first `n` of `nodes` that has one.
pub open spec fn first_rule(nodes: Seq<ParsedModel<RuleModel>>, at: (usize, usize), n: nat) -> Stack
    decreases nodes, n,
{
    if n == 0 || n > nodes.len() {
        None
    } else {
        either(first_rule(nodes, at, (n - 1) as nat), rule_stack(nodes[n - 1], at))
    }
}

/// An entrypoint's children are its rules and the name of its entity.
pub open spec fn entrypoint_stack(node: ParsedModel<EntrypointModel>, at: (usize, usize)) -> Stack {
    if covers(node.loc, at) {
        step_then(
            ContextModel::Entrypoint(node.data),
            node.data.entrypoint.data.value,
            node.docstring,
            either(
                first_rule(node.data.rules, at, node.data.rules.len()),
                identifier_stack(node.data.entrypoint, at),
            ),
        )
    } else {
        None
    }
}

/// A fragment's children are its rules, its grants, its name, and the name
/// of the entity it is for.
pub open spec fn fragment_stack(node: ParsedModel<FragmentModel>, at: (usize, usize)) -> Stack {
    if covers(node.loc, at) {
        step_then(
            ContextModel::Fragment(node.data),
            node.data.name.data.value,
            node.docstring,
            either(
                first_rule(node.data.rules, at, node.data.rules.len()),
                either(
                    first_grant(node.data.grants, at, 0),
                    either(
                        identifier_stack(node.data.name, at),
                        identifier_stack(node.data.for_entity, at),
                    ),
                ),
            ),
        )
    } else {
        None
    }
}

/// The stack of the first of `nodes`, from position `from` on, that has one.
pub open spec fn first_entrypoint(
    nodes: Seq<ParsedModel<EntrypointModel>>,
    at: (usize, usize),
    from: nat,
) -> Stack
    decreases nodes.len() - from,
{
    if from >= nodes.len() {
        None
    } else {
        either(entrypoint_stack(nodes[from as int], at), first_entrypoint(nodes, at, from + 1))
    }
}

/// The stack of the first of `nodes`, from position `from` on, that has one.
pub open spec fn first_fragment(
    nodes: Seq<ParsedModel<FragmentModel>>,
    at: (usize, usize),
    from: nat,
) -> Stack
    decreases nodes.len() - from,
{
    if from >= nodes.len() {
        None
    } else {
        either(fragment_stack(nodes[from as int], at), first_fragment(nodes, at, from + 1))
    }
}

/// The stack of the first of `nodes`, from position `from` on, that has one.
pub open spec fn first_entity(nodes: Seq<ParsedModel<EntityModel>>, at: (usize, usize), from: nat) -> Stack
    decreases nodes.len() - from,
{
    if from >= nodes.len() {
        None
    } else {
        either(entity_stack(nodes[from as int], at), first_entity(nodes, at, from + 1))
    }
}

/// The stack for a file: a step for the file itself, then the stack of its
/// first entrypoint, fragment or entity that covers the position. None where
/// none does.
pub open spec fn file_stack(file: RuuLangFileModel, at: (usize, usize)) -> Stack {
    match either(
        first_entrypoint(file.entrypoints, at, 0),
        either(first_fragment(file.fragments, at, 0), first_entity(file.entities, at, 0)),
    ) {
        Some(below) => Some(
            seq![DescentModel { context: ContextModel::Empty, name: None, docstring: None }] + below,
        ),
        None => None,
    }
}

/// The value of a stack of steps.
pub open spec fn stack_view(stack: Option<Vec<DescentContext<'_>>>) -> Stack {
    match stack {
        Some(v) => Some(views(v@)),
        None => None,
    }
}

fn in_range(loc: &Option<(usize, usize)>, at: (usize, usize)) -> (r: bool)
    ensures
        r == covers(*loc, at),
{
    match loc {
        Some((start, end)) => *start <= at.0 && at.1 <= *end,
        None => false,
    }
}

/// The step for a node, followed by the steps below it, if there are any.
fn make_stack<'a>(
    context: Context<'a>,
    name: String,
    docstring: &'a Option<String>,
    below: Option<Vec<DescentContext<'a>>>,
) -> (r: Option<Vec<DescentContext<'a>>>)
    ensures
        stack_view(r) == step_then(
            context@,
            name@,
            crate::utils::text::opt_text(*docstring),
            stack_view(below),
        ),
{
    let mut result: Vec<DescentContext<'a>> = Vec::new();
    let step = DescentContext::new(context, Some(name), docstring.as_ref());
    result.push(step);
    assert(views(result@) =~= seq![step@]);
    match below {
        Some(mut more) => {
            proof {
                lemma_views_add(result@, more@);
            }
            result.append(&mut more);
        },
        None => {
            assert(views(result@) =~= seq![step@] + Seq::empty());
        },
    }
    Some(result)
}

fn descend_identifier<'a>(node: &'a Parsed<Identifier>, at: (usize, usize)) -> (r: Option<
    Vec<DescentContext<'a>>,
>)
    ensures
        stack_view(r) == identifier_stack(node@, at),
{
    if in_range(&node.loc, at) {
        make_stack(Context::Identifier(&node.data), node.data.value.clone(), &node.docstring, None)
    } else {
        None
    }
}

fn descend_grant<'a>(node: &'a Parsed<Grant>, at: (usize, usize)) -> (r: Option<
    Vec<DescentContext<'a>>,
>)
    ensures
        stack_view(r) == grant_stack(node@, at),
{
    if in_range(&node.loc, at) {
        make_stack(
            Context::Grant(&node.data),
            join_texts(&node.data.grant, "."),
            &node.docstring,
            None,
        )
    } else {
        None
    }
}

fn descend_attribute<'a>(node: &'a Parsed<Attribute>, at: (usize, usize)) -> (r: Option<
    Vec<DescentContext<'a>>,
>)
    ensures
        stack_view(r) == attribute_stack(node@, at),
{
    if in_range(&node.loc, at) {
        let below = descend_identifier(&node.data.name, at);
        make_stack(
            Context::Attribute(&node.data),
            node.data.name.data.value.clone(),
            &node.docstring,
            below,
        )
    } else {
        None
    }
}

fn descend_identifiers<'a>(nodes: &'a Vec<Parsed<Identifier>>, at: (usize, usize)) -> (r: Option<
    Vec<DescentContext<'a>>,
>)
    ensures
        stack_view(r) == first_identifier(views(nodes@), at, 0),
{
    let mut i: usize = 0;
    while i < nodes.len()
        invariant
            i <= nodes@.len(),
            first_identifier(views(nodes@), at, 0) == first_identifier(views(nodes@), at, i as nat),
        decreases nodes@.len() - i,
    {
        let found = descend_identifier(&nodes[i], at);
        if found.is_some() {
            return found;
        }
        i += 1;
    }
    None
}

fn descend_grants<'a>(nodes: &'a Vec<Parsed<Grant>>, at: (usize, usize)) -> (r: Option<
    Vec<DescentContext<'a>>,
>)
    ensures
        stack_view(r) == first_grant(views(nodes@), at, 0),
{
    let mut i: usize = 0;
    while i < nodes.len()
        invariant
            i <= nodes@.len(),
            first_grant(views(nodes@), at, 0) == first_grant(views(nodes@), at, i as nat),
        decreases nodes@.len() - i,
    {
        let found = descend_grant(&nodes[i], at);
        if found.is_some() {
            return found;
        }
        i += 1;
    }
    None
}

fn descend_attributes<'a>(nodes: &'a Vec<Parsed<Attribute>>, at: (usize, usize)) -> (r: Option<
    Vec<DescentContext<'a>>,
>)
    ensures
        stack_view(r) == first_attribute(views(nodes@), at, 0),
{
    let mut i: usize = 0;
    while i < nodes.len()
        invariant
            i <= nodes@.len(),
            first_attribute(views(nodes@), at, 0) == first_attribute(views(nodes@), at, i as nat),
        decreases nodes@.len() - i,
    {
        let found = descend_attribute(&nodes[i], at);
        if found.is_some() {
            return found;
        }
        i += 1;
    }
    None
}

fn descend_relationship<'a>(node: &'a Parsed<Relationship>, at: (usize, usize)) -> (r: Option<
    Vec<DescentContext<'a>>,
>)
    ensures
        stack_view(r) == relationship_stack(node@, at),
{
    if in_range(&node.loc, at) {
        let mut below = descend_attributes(&node.data.attributes, at);
        if below.is_none() {
            below = descend_identifier(&node.data.relationship_name, at);
        }
        if below.is_none() {
            below = descend_identifier(&node.data.entity_name, at);
        }
        make_stack(
            Context::Relationship(&node.data),
            node.data.relationship_name.data.value.clone(),
            &node.docstring,
            below,
        )
    } else {
        None
    }
}

fn descend_relationships<'a>(nodes: &'a Vec<Parsed<Relationship>>, at: (usize, usize)) -> (r:
    Option<Vec<DescentContext<'a>>>)
    ensures
        stack_view(r) == first_relationship(views(nodes@), at, 0),
{
    let mut i: usize = 0;
    while i < nodes.len()
        invariant
            i <= nodes@.len(),
            first_relationship(views(nodes@), at, 0) == first_relationship(
                views(nodes@),
                at,
                i as nat,
            ),
        decreases nodes@.len() - i,
    {
        let found = descend_relationship(&nodes[i], at);
        if found.is_some() {
            return found;
        }
        i += 1;
    }
    None
}

fn descend_entity<'a>(node: &'a Parsed<Entity>, at: (usize, usize)) -> (r: Option<
    Vec<DescentContext<'a>>,
>)
    ensures
        stack_view(r) == entity_stack(node@, at),
{
    if in_range(&node.loc, at) {
        let mut below = descend_relationships(&node.data.relationships, at);
        if below.is_none() {
            below = descend_grants(&node.data.grants, at);
        }
        if below.is_none() {
            below = descend_identifier(&node.data.name, at);
        }
        make_stack(
            Context::Entity(&node.data),
            node.data.name.data.value.clone(),
            &node.docstring,
            below,
        )
    } else {
        None
    }
}

/// Later rules do not change which rule is the first to have a stack.
proof fn lemma_first_rule_found(nodes: Seq<ParsedModel<RuleModel>>, at: (usize, usize), k: nat, n: nat)
    requires
        k <= n <= nodes.len(),
        first_rule(nodes, at, k).is_some(),
    ensures
        first_rule(nodes, at, n) == first_rule(nodes, at, k),
    decreases n - k,
{
    if k < n {
        lemma_first_rule_found(nodes, at, k, (n - 1) as nat);
    }
}

fn descend_rules<'a>(nodes: &'a Vec<Parsed<Rule>>, at: (usize, usize)) -> (r: Option<
    Vec<DescentContext<'a>>,
>)
    ensures
        stack_view(r) == first_rule(views(nodes@), at, nodes@.len()),
    decreases nodes, 1nat,
{
    let mut i: usize = 0;
    while i < nodes.len()
        invariant
            i <= nodes@.len(),
            first_rule(views(nodes@), at, i as nat).is_none(),
        decreases nodes@.len() - i,
    {
        let found = descend_rule(&nodes[i], at);
        if found.is_some() {
            proof {
                lemma_first_rule_found(views(nodes@), at, (i + 1) as nat, nodes@.len());
            }
            return found;
        }
        i += 1;
    }
    None
}

fn descend_rule<'a>(node: &'a Parsed<Rule>, at: (usize, usize)) -> (r: Option<
    Vec<DescentContext<'a>>,
>)
    ensures
        stack_view(r) == rule_stack(node@, at),
    decreases node, 0nat,
{
    if in_range(&node.loc, at) {
        proof {
            assert(node@.data.rules =~= views(node.data.rules@)) by {
                if node.data.rules@.len() > 0 {
                    lemma_rule_children(node.data, 0);
                }
            }
        }
        let mut below = descend_attributes(&node.data.attributes, at);
        if below.is_none() {
            below = descend_grants(&node.data.grants, at);
        }
        if below.is_none() {
            below = descend_rules(&node.data.rules, at);
        }
        if below.is_none() {
            below = descend_identifiers(&node.data.include_fragments, at);
        }
        if below.is_none() {
            below = descend_identifier(&node.data.relationship, at);
        }
        make_stack(
            Context::Rule(&node.data),
            node.data.relationship.data.value.clone(),
            &node.docstring,
            below,
        )
    } else {
        None
    }
}

fn descend_entrypoint<'a>(node: &'a Parsed<Entrypoint>, at: (usize, usize)) -> (r: Option<
    Vec<DescentContext<'a>>,
>)
    ensures
        stack_view(r) == entrypoint_stack(node@, at),
{
    if in_range(&node.loc, at) {
        let mut below = descend_rules(&node.data.rules, at);
        if below.is_none() {
            below = descend_identifier(&node.data.entrypoint, at);
        }
        make_stack(
            Context::Entrypoint(&node.data),
            node.data.entrypoint.data.value.clone(),
            &node.docstring,
            below,
        )
    } else {
        None
    }
}

fn descend_fragment<'a>(node: &'a Parsed<Fragment>, at: (usize, usize)) -> (r: Option<
    Vec<DescentContext<'a>>,
>)
    ensures
        stack_view(r) == fragment_stack(node@, at),
{
    if in_range(&node.loc, at) {
        let mut below = descend_rules(&node.data.rules, at);
        if below.is_none() {
            below = descend_grants(&node.data.grants, at);
        }
        if below.is_none() {
            below = descend_identifier(&node.data.name, at);
        }
        if below.is_none() {
            below = descend_identifier(&node.data.for_entity, at);
        }
        make_stack(
            Context::Fragment(&node.data),
            node.data.name.data.value.clone(),
            &node.docstring,
            below,
        )
    } else {
        None
    }
}

fn descend_entrypoints<'a>(nodes: &'a Vec<Parsed<Entrypoint>>, at: (usize, usize)) -> (r: Option<
    Vec<DescentContext<'a>>,
>)
    ensures
        stack_view(r) == first_entrypoint(views(nodes@), at, 0),
{
    let mut i: usize = 0;
    while i < nodes.len()
        invariant
            i <= nodes@.len(),
            first_entrypoint(views(nodes@), at, 0) == first_entrypoint(views(nodes@), at, i as nat),
        decreases nodes@.len() - i,
    {
        let found = descend_entrypoint(&nodes[i], at);
        if found.is_some() {
            return found;
        }
        i += 1;
    }
    None
}

fn descend_fragments<'a>(nodes: &'a Vec<Parsed<Fragment>>, at: (usize, usize)) -> (r: Option<
    Vec<DescentContext<'a>>,
>)
    ensures
        stack_view(r) == first_fragment(views(nodes@), at, 0),
{
    let mut i: usize = 0;
    while i < nodes.len()
        invariant
            i <= nodes@.len(),
            first_fragment(views(nodes@), at, 0) == first_fragment(views(nodes@), at, i as nat),
        decreases nodes@.len() - i,
    {
        let found = descend_fragment(&nodes[i], at);
        if found.is_some() {
            return found;
        }
        i += 1;
    }
    None
}

fn descend_entities<'a>(nodes: &'a Vec<Parsed<Entity>>, at: (usize, usize)) -> (r: Option<
    Vec<DescentContext<'a>>,
>)
    ensures
        stack_view(r) == first_entity(views(nodes@), at, 0),
{
    let mut i: usize = 0;
    while i < nodes.len()
        invariant
            i <= nodes@.len(),
            first_entity(views(nodes@), at, 0) == first_entity(views(nodes@), at, i as nat),
        decreases nodes@.len() - i,
    {
        let found = descend_entity(&nodes[i], at);
        if found.is_some() {
            return found;
        }
        i += 1;
    }
    None
}

/// What a node is called, and as what kind of node it is noted in a descent.
pub trait DescendableChildren {
    spec fn noted(&self) -> (ContextModel, Option<Seq<char>>);

    fn context_and_name(&self) -> (r: (Context<'_>, Option<String>))
        ensures
            (r.0@, crate::utils::text::opt_text(r.1)) == self.noted(),
    ;
}

impl DescendableChildren for Identifier {
    open spec fn noted(&self) -> (ContextModel, Option<Seq<char>>) {
        (ContextModel::Identifier(self@), Some(self.value@))
    }

    fn context_and_name(&self) -> (r: (Context<'_>, Option<String>)) {
        (Context::Identifier(self), Some(self.value.clone()))
    }
}

impl DescendableChildren for Grant {
    open spec fn noted(&self) -> (ContextModel, Option<Seq<char>>) {
        (ContextModel::Grant(self@), Some(join(self@, "."@)))
    }

    fn context_and_name(&self) -> (r: (Context<'_>, Option<String>)) {
        (Context::Grant(self), Some(join_texts(&self.grant, ".")))
    }
}

impl DescendableChildren for Attribute {
    open spec fn noted(&self) -> (ContextModel, Option<Seq<char>>) {
        (ContextModel::Attribute(self@), Some(self.name.data.value@))
    }

    fn context_and_name(&self) -> (r: (Context<'_>, Option<String>)) {
        (Context::Attribute(self), Some(self.name.data.value.clone()))
    }
}

impl DescendableChildren for Relationship {
    open spec fn noted(&self) -> (ContextModel, Option<Seq<char>>) {
        (ContextModel::Relationship(self@), Some(self.relationship_name.data.value@))
    }

    fn context_and_name(&self) -> (r: (Context<'_>, Option<String>)) {
        (Context::Relationship(self), Some(self.relationship_name.data.value.clone()))
    }
}

impl DescendableChildren for Entity {
    open spec fn noted(&self) -> (ContextModel, Option<Seq<char>>) {
        (ContextModel::Entity(self@), Some(self.name.data.value@))
    }

    fn context_and_name(&self) -> (r: (Context<'_>, Option<String>)) {
        (Context::Entity(self), Some(self.name.data.value.clone()))
    }
}

impl DescendableChildren for Rule {
    open spec fn noted(&self) -> (ContextModel, Option<Seq<char>>) {
        (ContextModel::Rule(self@), Some(self.relationship.data.value@))
    }

    fn context_and_name(&self) -> (r: (Context<'_>, Option<String>)) {
        (Context::Rule(self), Some(self.relationship.data.value.clone()))
    }
}

impl DescendableChildren for Entrypoint {
    open spec fn noted(&self) -> (ContextModel, Option<Seq<char>>) {
        (ContextModel::Entrypoint(self@), Some(self.entrypoint.data.value@))
    }

    fn context_and_name(&self) -> (r: (Context<'_>, Option<String>)) {
        (Context::Entrypoint(self), Some(self.entrypoint.data.value.clone()))
    }
}

impl DescendableChildren for Fragment {
    open spec fn noted(&self) -> (ContextModel, Option<Seq<char>>) {
        (ContextModel::Fragment(self@), Some(self.name.data.value@))
    }

    fn context_and_name(&self) -> (r: (Context<'_>, Option<String>)) {
        (Context::Fragment(self), Some(self.name.data.value.clone()))
    }
}

impl DescendableChildren for RuuLangFile {
    open spec fn noted(&self) -> (ContextModel, Option<Seq<char>>) {
        (ContextModel::Empty, None)
    }

    fn context_and_name(&self) -> (r: (Context<'_>, Option<String>)) {
        (Context::Empty, None)
    }
}

/// A node that a descent can start from.
pub trait Descendable {
    /// The stack that a descent from this node gives for a position.
    spec fn stack_at(&self, at: (usize, usize)) -> Stack;

    /// The nodes around the position `loc`, from this node inwards; none
    /// where this node does not cover the position.
    fn descend_at(&self, loc: (usize, usize)) -> (r: Option<Vec<DescentContext<'_>>>)
        ensures
            stack_view(r) == self.stack_at(loc),
    ;
}

impl Descendable for Parsed<Identifier> {
    open spec fn stack_at(&self, at: (usize, usize)) -> Stack {
        identifier_stack(self@, at)
    }

    fn descend_at(&self, loc: (usize, usize)) -> (r: Option<Vec<DescentContext<'_>>>) {
        descend_identifier(self, loc)
    }
}

impl Descendable for Parsed<Grant> {
    open spec fn stack_at(&self, at: (usize, usize)) -> Stack {
        grant_stack(self@, at)
    }

    fn descend_at(&self, loc: (usize, usize)) -> (r: Option<Vec<DescentContext<'_>>>) {
        descend_grant(self, loc)
    }
}

impl Descendable for Parsed<Attribute> {
    open spec fn stack_at(&self, at: (usize, usize)) -> Stack {
        attribute_stack(self@, at)
    }

    fn descend_at(&self, loc: (usize, usize)) -> (r: Option<Vec<DescentContext<'_>>>) {
        descend_attribute(self, loc)
    }
}

impl Descendable for Parsed<Relationship> {
    open spec fn stack_at(&self, at: (usize, usize)) -> Stack {
        relationship_stack(self@, at)
    }

    fn descend_at(&self, loc: (usize, usize)) -> (r: Option<Vec<DescentContext<'_>>>) {
        descend_relationship(self, loc)
    }
}

impl Descendable for Parsed<Entity> {
    open spec fn stack_at(&self, at: (usize, usize)) -> Stack {
        entity_stack(self@, at)
    }

    fn descend_at(&self, loc: (usize, usize)) -> (r: Option<Vec<DescentContext<'_>>>) {
        descend_entity(self, loc)
    }
}

impl Descendable for Parsed<Rule> {
    open spec fn stack_at(&self, at: (usize, usize)) -> Stack {
        rule_stack(self@, at)
    }

    fn descend_at(&self, loc: (usize, usize)) -> (r: Option<Vec<DescentContext<'_>>>) {
        descend_rule(self, loc)
    }
}

impl Descendable for Parsed<Entrypoint> {
    open spec fn stack_at(&self, at: (usize, usize)) -> Stack {
        entrypoint_stack(self@, at)
    }

    fn descend_at(&self, loc: (usize, usize)) -> (r: Option<Vec<DescentContext<'_>>>) {
        descend_entrypoint(self, loc)
    }
}

impl Descendable for Parsed<Fragment> {
    open spec fn stack_at(&self, at: (usize, usize)) -> Stack {
        fragment_stack(self@, at)
    }

    fn descend_at(&self, loc: (usize, usize)) -> (r: Option<Vec<DescentContext<'_>>>) {
        descend_fragment(self, loc)
    }
}

impl Descendable for RuuLangFile {
    open spec fn stack_at(&self, at: (usize, usize)) -> Stack {
        file_stack(self@, at)
    }

    fn descend_at(&self, loc: (usize, usize)) -> (r: Option<Vec<DescentContext<'_>>>) {
        let mut below = descend_entrypoints(&self.entrypoints, loc);
        if below.is_none() {
            below = descend_fragments(&self.fragments, loc);
        }
        if below.is_none() {
            below = descend_entities(&self.entities, loc);
        }
        match below {
            Some(mut more) => {
                let mut result: Vec<DescentContext<'_>> = Vec::new();
                let step = DescentContext::new(Context::Empty, None, None);
                result.push(step);
                assert(views(result@) =~= seq![step@]);
                proof {
                    lemma_views_add(result@, more@);
                }
                result.append(&mut more);
                Some(result)
            },
            None => None,
        }
    }
}

} // verus!
