//! Syntax of rule files: grants, attributes, rules, entrypoints and fragments.

use vstd::prelude::*;
use crate::parser::parse_location::{Identifier, IdentifierModel, Parsed, ParsedModel};
use crate::parser::schema_ast::{Entity, EntityModel};
use crate::utils::text::{copy_opt_text, copy_texts, copy_vec, opt_text, texts, views};

verus! {

/// A dotted permission path.
#[derive(Debug)]
pub struct Grant {
    pub grant: Vec<String>,
}

impl View for Grant {
    type V = Seq<Seq<char>>;

    open spec fn view(&self) -> Seq<Seq<char>> {
        texts(self.grant@)
    }
}

impl Grant {
    pub fn new(grant: Vec<String>) -> (r: Self)
        ensures
            r@ == texts(grant@),
            r.grant == grant,
    {
        Grant { grant }
    }
}

impl Clone for Grant {
    fn clone(&self) -> (r: Self)
        ensures
            r@ == self@,
    {
        Grant { grant: copy_texts(&self.grant) }
    }
}

/// A tag on a relationship or a rule.
#[derive(Debug)]
pub struct Attribute {
    pub name: Parsed<Identifier>,
    pub arguments: Vec<String>,
}

/// The mathematical value of an [`Attribute`].
pub struct AttributeModel {
    pub name: ParsedModel<IdentifierModel>,
    pub arguments: Seq<Seq<char>>,
}

impl View for Attribute {
    type V = AttributeModel;

    open spec fn view(&self) -> AttributeModel {
        AttributeModel { name: self.name@, arguments: texts(self.arguments@) }
    }
}

impl Clone for Attribute {
    fn clone(&self) -> (r: Self)
        ensures
            r@ == self@,
    {
        Attribute { name: self.name.clone(), arguments: copy_texts(&self.arguments) }
    }
}

/// A step along a relationship, with what is granted there and the steps below.
#[derive(Debug)]
pub struct Rule {
    pub relationship: Parsed<Identifier>,
    pub attributes: Vec<Parsed<Attribute>>,
    pub grants: Vec<Parsed<Grant>>,
    pub rules: Vec<Parsed<Rule>>,
    pub include_fragments: Vec<Parsed<Identifier>>,
}

/// The mathematical value of a [`Rule`].
pub struct RuleModel {
    pub relationship: ParsedModel<IdentifierModel>,
    pub attributes: Seq<ParsedModel<AttributeModel>>,
    pub grants: Seq<ParsedModel<Seq<Seq<char>>>>,
    pub rules: Seq<ParsedModel<RuleModel>>,
    pub include_fragments: Seq<ParsedModel<IdentifierModel>>,
}

impl Rule {
    /// The mathematical value of this rule, computed down the tree.
    pub open spec fn model(self) -> RuleModel
        decreases self,
    {
        RuleModel {
            relationship: self.relationship@,
            attributes: views(self.attributes@),
            grants: views(self.grants@),
            rules: Seq::new(
                self.rules@.len(),
                |i: int|
                    if 0 <= i < self.rules@.len() {
                        ParsedModel {
                            loc: self.rules@[i].loc,
                            file_name: opt_text(self.rules@[i].file_name),
                            docstring: opt_text(self.rules@[i].docstring),
                            data: self.rules@[i].data.model(),
                        }
                    } else {
                        arbitrary()
                    },
            ),
            include_fragments: views(self.include_fragments@),
        }
    }
}

impl View for Rule {
    type V = RuleModel;

    open spec fn view(&self) -> RuleModel {
        self.model()
    }
}

/// A copy of a rule node with everything below it.
pub fn copy_rule_node(node: &Parsed<Rule>) -> (r: Parsed<Rule>)
    ensures
        r@ == node@,
    decreases node,
{
    let mut rules: Vec<Parsed<Rule>> = Vec::new();
    let mut i: usize = 0;
    while i < node.data.rules.len()
        invariant
            i <= node.data.rules@.len(),
            rules@.len() == i,
            forall|k: int| 0 <= k < i ==> rules@[k]@ == node.data.rules@[k]@,
        decreases node.data.rules@.len() - i,
    {
        rules.push(copy_rule_node(&node.data.rules[i]));
        i += 1;
    }
    let data = Rule {
        relationship: node.data.relationship.clone(),
        attributes: copy_vec(&node.data.attributes),
        grants: copy_vec(&node.data.grants),
        rules,
        include_fragments: copy_vec(&node.data.include_fragments),
    };
    proof {
        assert(data@.rules =~= node.data@.rules);
    }
    Parsed {
        loc: node.loc,
        file_name: copy_opt_text(&node.file_name),
        docstring: copy_opt_text(&node.docstring),
        data,
    }
}

impl Clone for Rule {
    fn clone(&self) -> (r: Self)
        ensures
            r@ == self@,
    {
        let mut rules: Vec<Parsed<Rule>> = Vec::new();
        let mut i: usize = 0;
        while i < self.rules.len()
            invariant
                i <= self.rules@.len(),
                rules@.len() == i,
                forall|k: int| 0 <= k < i ==> rules@[k]@ == self.rules@[k]@,
            decreases self.rules@.len() - i,
        {
            rules.push(copy_rule_node(&self.rules[i]));
            i += 1;
        }
        let r = Rule {
            relationship: self.relationship.clone(),
            attributes: copy_vec(&self.attributes),
            grants: copy_vec(&self.grants),
            rules,
            include_fragments: copy_vec(&self.include_fragments),
        };
        proof {
            assert(r@.rules =~= self@.rules);
        }
        r
    }
}

/// A rule tree rooted at an entity.
#[derive(Debug)]
pub struct Entrypoint {
    pub entrypoint: Parsed<Identifier>,
    pub rules: Vec<Parsed<Rule>>,
}

/// The mathematical value of an [`Entrypoint`].
pub struct EntrypointModel {
    pub entrypoint: ParsedModel<IdentifierModel>,
    pub rules: Seq<ParsedModel<RuleModel>>,
}

impl View for Entrypoint {
    type V = EntrypointModel;

    open spec fn view(&self) -> EntrypointModel {
        EntrypointModel { entrypoint: self.entrypoint@, rules: views(self.rules@) }
    }
}

impl Clone for Entrypoint {
    fn clone(&self) -> (r: Self)
        ensures
            r@ == self@,
    {
        Entrypoint { entrypoint: self.entrypoint.clone(), rules: copy_vec(&self.rules) }
    }
}

/// A reusable rule body for one entity.
#[derive(Debug)]
pub struct Fragment {
    pub name: Parsed<Identifier>,
    pub for_entity: Parsed<Identifier>,
    pub grants: Vec<Parsed<Grant>>,
    pub rules: Vec<Parsed<Rule>>,
}

/// The mathematical value of a [`Fragment`].
pub struct FragmentModel {
    pub name: ParsedModel<IdentifierModel>,
    pub for_entity: ParsedModel<IdentifierModel>,
    pub grants: Seq<ParsedModel<Seq<Seq<char>>>>,
    pub rules: Seq<ParsedModel<RuleModel>>,
}

impl View for Fragment {
    type V = FragmentModel;

    open spec fn view(&self) -> FragmentModel {
        FragmentModel {
            name: self.name@,
            for_entity: self.for_entity@,
            grants: views(self.grants@),
            rules: views(self.rules@),
        }
    }
}

impl Clone for Fragment {
    fn clone(&self) -> (r: Self)
        ensures
            r@ == self@,
    {
        Fragment {
            name: self.name.clone(),
            for_entity: self.for_entity.clone(),
            grants: copy_vec(&self.grants),
            rules: copy_vec(&self.rules),
        }
    }
}

/// Everything one source file declares, in declaration order per kind.
#[derive(Debug)]
pub struct RuuLangFile {
    pub entrypoints: Vec<Parsed<Entrypoint>>,
    pub fragments: Vec<Parsed<Fragment>>,
    pub entities: Vec<Parsed<Entity>>,
}

/// The mathematical value of a [`RuuLangFile`].
pub struct RuuLangFileModel {
    pub entrypoints: Seq<ParsedModel<EntrypointModel>>,
    pub fragments: Seq<ParsedModel<FragmentModel>>,
    pub entities: Seq<ParsedModel<EntityModel>>,
}

impl View for RuuLangFile {
    type V = RuuLangFileModel;

    open spec fn view(&self) -> RuuLangFileModel {
        RuuLangFileModel {
            entrypoints: views(self.entrypoints@),
            fragments: views(self.fragments@),
            entities: views(self.entities@),
        }
    }
}

impl Clone for RuuLangFile {
    fn clone(&self) -> (r: Self)
        ensures
            r@ == self@,
    {
        RuuLangFile {
            entrypoints: copy_vec(&self.entrypoints),
            fragments: copy_vec(&self.fragments),
            entities: copy_vec(&self.entities),
        }
    }
}

/// The view of a rule in a vector is the matching entry of the parent's view.
pub proof fn lemma_rule_children(rule: Rule, i: int)
    requires
        0 <= i < rule.rules@.len(),
    ensures
        rule@.rules.len() == rule.rules@.len(),
        rule@.rules[i] == rule.rules@[i]@,
        rule@.rules == views(rule.rules@),
{
    assert(rule@.rules.len() == rule.rules@.len());
    assert forall|k: int| 0 <= k < rule.rules@.len() implies rule@.rules[k] == rule.rules@[k]@ by {
        assert(rule.rules@[k]@.data == rule.rules@[k].data@);
    }
    assert(rule@.rules =~= views(rule.rules@));
}

} // verus!
