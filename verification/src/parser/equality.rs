//! Equality of syntax that looks at what a node says and not at where it was
//! read: byte ranges, file names and documentation are left out of the
//! comparison, everything else counts, and so does the order of what a node
//! holds.

use vstd::prelude::*;
use crate::parser::parse_location::{Identifier, Parsed};
use crate::parser::roundtrip::law::same_file;
use crate::parser::roundtrip::reading::{
    same_attributes, same_entity, same_entrypoint, same_fragment, same_grants, same_names,
    same_relationship, same_relationships, same_rule, same_rules,
};
use crate::parser::ruulang_ast::{
    lemma_rule_children, Attribute, Entrypoint, Fragment, Grant, Rule, RuuLangFile,
};
use crate::parser::schema_ast::{Entity, Relationship};
use crate::utils::text::{texts, views};

verus! {

/// Whether two identifiers have the same name and kind.
pub fn identifiers_equal(a: &Identifier, b: &Identifier) -> (r: bool)
    ensures
        r == (a@ == b@),
{
    a.value == b.value && a.kind == b.kind
}

/// Whether two lists hold the same texts in the same order.
pub fn texts_equal(a: &Vec<String>, b: &Vec<String>) -> (r: bool)
    ensures
        r == (texts(a@) == texts(b@)),
{
    if a.len() != b.len() {
        assert(texts(a@).len() != texts(b@).len());
        return false;
    }
    let mut i: usize = 0;
    while i < a.len()
        invariant
            i <= a@.len(),
            a@.len() == b@.len(),
            forall|k: int| 0 <= k < i ==> a@[k]@ == b@[k]@,
        decreases a@.len() - i,
    {
        if a[i] != b[i] {
            assert(texts(a@)[i as int] != texts(b@)[i as int]);
            return false;
        }
        i += 1;
    }
    assert(texts(a@) =~= texts(b@));
    true
}

/// Whether two lists hold the same attributes in the same order.
pub fn attributes_equal(a: &Vec<Parsed<Attribute>>, b: &Vec<Parsed<Attribute>>) -> (r: bool)
    ensures
        r == same_attributes(views(a@), views(b@)),
{
    if a.len() != b.len() {
        return false;
    }
    let mut i: usize = 0;
    while i < a.len()
        invariant
            i <= a@.len(),
            a@.len() == b@.len(),
            forall|k: int|
                0 <= k < i ==> (#[trigger] views(a@)[k]).data.name.data == views(
                    b@,
                )[k].data.name.data && views(a@)[k].data.arguments == views(b@)[k].data.arguments,
        decreases a@.len() - i,
    {
        if !(identifiers_equal(&a[i].data.name.data, &b[i].data.name.data) && texts_equal(
            &a[i].data.arguments,
            &b[i].data.arguments,
        )) {
            assert(!(views(a@)[i as int].data.name.data == views(b@)[i as int].data.name.data
                && views(a@)[i as int].data.arguments == views(b@)[i as int].data.arguments));
            return false;
        }
        i += 1;
    }
    true
}

/// Whether two lists hold the same grants in the same order.
pub fn grants_equal(a: &Vec<Parsed<Grant>>, b: &Vec<Parsed<Grant>>) -> (r: bool)
    ensures
        r == same_grants(views(a@), views(b@)),
{
    if a.len() != b.len() {
        return false;
    }
    let mut i: usize = 0;
    while i < a.len()
        invariant
            i <= a@.len(),
            a@.len() == b@.len(),
            forall|k: int| 0 <= k < i ==> (#[trigger] views(a@)[k]).data == views(b@)[k].data,
        decreases a@.len() - i,
    {
        if !texts_equal(&a[i].data.grant, &b[i].data.grant) {
            assert(views(a@)[i as int].data != views(b@)[i as int].data);
            return false;
        }
        i += 1;
    }
    true
}

/// Whether two lists hold the same names in the same order.
pub fn names_equal(a: &Vec<Parsed<Identifier>>, b: &Vec<Parsed<Identifier>>) -> (r: bool)
    ensures
        r == same_names(views(a@), views(b@)),
{
    if a.len() != b.len() {
        return false;
    }
    let mut i: usize = 0;
    while i < a.len()
        invariant
            i <= a@.len(),
            a@.len() == b@.len(),
            forall|k: int| 0 <= k < i ==> (#[trigger] views(a@)[k]).data == views(b@)[k].data,
        decreases a@.len() - i,
    {
        if !identifiers_equal(&a[i].data, &b[i].data) {
            assert(views(a@)[i as int].data != views(b@)[i as int].data);
            return false;
        }
        i += 1;
    }
    true
}

/// Whether two relationships say the same.
pub fn relationship_equal(a: &Relationship, b: &Relationship) -> (r: bool)
    ensures
        r == same_relationship(a@, b@),
{
    identifiers_equal(&a.relationship_name.data, &b.relationship_name.data) && identifiers_equal(
        &a.entity_name.data,
        &b.entity_name.data,
    ) && attributes_equal(&a.attributes, &b.attributes)
}

/// Whether two lists hold the same relationships in the same order.
pub fn relationships_equal(a: &Vec<Parsed<Relationship>>, b: &Vec<Parsed<Relationship>>) -> (r:
    bool)
    ensures
        r == same_relationships(views(a@), views(b@)),
{
    if a.len() != b.len() {
        return false;
    }
    let mut i: usize = 0;
    while i < a.len()
        invariant
            i <= a@.len(),
            a@.len() == b@.len(),
            forall|k: int|
                0 <= k < i ==> same_relationship((#[trigger] views(a@)[k]).data, views(b@)[k].data),
        decreases a@.len() - i,
    {
        if !relationship_equal(&a[i].data, &b[i].data) {
            assert(!same_relationship(views(a@)[i as int].data, views(b@)[i as int].data));
            return false;
        }
        i += 1;
    }
    true
}

/// Whether two entities say the same.
pub fn entity_equal(a: &Entity, b: &Entity) -> (r: bool)
    ensures
        r == same_entity(a@, b@),
{
    identifiers_equal(&a.name.data, &b.name.data) && relationships_equal(
        &a.relationships,
        &b.relationships,
    ) && grants_equal(&a.grants, &b.grants)
}

/// Whether two rules say the same, all the way down.
pub fn rule_equal(a: &Rule, b: &Rule) -> (r: bool)
    ensures
        r == same_rule(a@, b@),
    decreases a,
{
    if !(identifiers_equal(&a.relationship.data, &b.relationship.data) && attributes_equal(
        &a.attributes,
        &b.attributes,
    ) && grants_equal(&a.grants, &b.grants) && names_equal(
        &a.include_fragments,
        &b.include_fragments,
    )) {
        return false;
    }
    if a.rules.len() != b.rules.len() {
        return false;
    }
    let mut i: usize = 0;
    while i < a.rules.len()
        invariant
            i <= a.rules@.len(),
            a.rules@.len() == b.rules@.len(),
            a@.rules.len() == a.rules@.len(),
            b@.rules.len() == b.rules@.len(),
            forall|k: int| 0 <= k < i ==> same_rule((#[trigger] a@.rules[k]).data, b@.rules[k].data),
        decreases a.rules@.len() - i,
    {
        proof {
            lemma_rule_children(*a, i as int);
            lemma_rule_children(*b, i as int);
        }
        if !rule_equal(&a.rules[i].data, &b.rules[i].data) {
            assert(!same_rule(a@.rules[i as int].data, b@.rules[i as int].data));
            return false;
        }
        i += 1;
    }
    true
}

/// Whether two lists hold the same rules in the same order.
pub fn rules_equal(a: &Vec<Parsed<Rule>>, b: &Vec<Parsed<Rule>>) -> (r: bool)
    ensures
        r == same_rules(views(a@), views(b@)),
{
    if a.len() != b.len() {
        return false;
    }
    let mut i: usize = 0;
    while i < a.len()
        invariant
            i <= a@.len(),
            a@.len() == b@.len(),
            forall|k: int| 0 <= k < i ==> same_rule((#[trigger] views(a@)[k]).data, views(b@)[k].data),
        decreases a@.len() - i,
    {
        if !rule_equal(&a[i].data, &b[i].data) {
            assert(!same_rule(views(a@)[i as int].data, views(b@)[i as int].data));
            return false;
        }
        i += 1;
    }
    true
}

/// Whether two entrypoints say the same.
pub fn entrypoint_equal(a: &Entrypoint, b: &Entrypoint) -> (r: bool)
    ensures
        r == same_entrypoint(a@, b@),
{
    identifiers_equal(&a.entrypoint.data, &b.entrypoint.data) && rules_equal(&a.rules, &b.rules)
}

/// Whether two fragments say the same.
pub fn fragment_equal(a: &Fragment, b: &Fragment) -> (r: bool)
    ensures
        r == same_fragment(a@, b@),
{
    identifiers_equal(&a.name.data, &b.name.data) && identifiers_equal(
        &a.for_entity.data,
        &b.for_entity.data,
    ) && grants_equal(&a.grants, &b.grants) && rules_equal(&a.rules, &b.rules)
}

/// Whether two files say the same: they hold the same entities, fragments
/// and entrypoints, each kind in the same order.
pub fn file_equal(a: &RuuLangFile, b: &RuuLangFile) -> (r: bool)
    ensures
        r == same_file(a@, b@),
{
    if a.entities.len() != b.entities.len() || a.fragments.len() != b.fragments.len()
        || a.entrypoints.len() != b.entrypoints.len() {
        return false;
    }
    let mut i: usize = 0;
    while i < a.entities.len()
        invariant
            i <= a.entities@.len(),
            a.entities@.len() == b.entities@.len(),
            forall|k: int|
                0 <= k < i ==> same_entity((#[trigger] a@.entities[k]).data, b@.entities[k].data),
        decreases a.entities@.len() - i,
    {
        if !entity_equal(&a.entities[i].data, &b.entities[i].data) {
            assert(!same_entity(a@.entities[i as int].data, b@.entities[i as int].data));
            return false;
        }
        i += 1;
    }
    let mut j: usize = 0;
    while j < a.fragments.len()
        invariant
            j <= a.fragments@.len(),
            a.fragments@.len() == b.fragments@.len(),
            forall|k: int|
                0 <= k < j ==> same_fragment((#[trigger] a@.fragments[k]).data, b@.fragments[k].data),
        decreases a.fragments@.len() - j,
    {
        if !fragment_equal(&a.fragments[j].data, &b.fragments[j].data) {
            assert(!same_fragment(a@.fragments[j as int].data, b@.fragments[j as int].data));
            return false;
        }
        j += 1;
    }
    let mut n: usize = 0;
    while n < a.entrypoints.len()
        invariant
            n <= a.entrypoints@.len(),
            a.entrypoints@.len() == b.entrypoints@.len(),
            forall|k: int|
                0 <= k < n ==> same_entrypoint(
                    (#[trigger] a@.entrypoints[k]).data,
                    b@.entrypoints[k].data,
                ),
        decreases a.entrypoints@.len() - n,
    {
        if !entrypoint_equal(&a.entrypoints[n].data, &b.entrypoints[n].data) {
            assert(!same_entrypoint(a@.entrypoints[n as int].data, b@.entrypoints[n as int].data));
            return false;
        }
        n += 1;
    }
    true
}

} // verus!
