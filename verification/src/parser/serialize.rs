//! From syntax back to source text.

use vstd::prelude::*;
use crate::parser::parse_location::{Parsed, ParsedModel};
use crate::parser::ruulang_ast::{
    lemma_rule_children, Attribute, AttributeModel, Entrypoint, EntrypointModel, Fragment,
    FragmentModel, Grant, Rule, RuleModel, RuuLangFile, RuuLangFileModel,
};
use crate::parser::schema_ast::{Entity, EntityModel, Relationship, RelationshipModel};
use crate::utils::text::{join, join_texts, repeat, same_text, texts, views};
use crate::utils::trie::Path;

verus! {

/// One level of indentation.
pub open spec fn level() -> Seq<char> {
    "    "@
}

/// The text of an attribute: `:name`, with its arguments in parentheses if
/// it has any.
pub open spec fn attribute_text(attr: AttributeModel) -> Seq<char> {
    if attr.arguments.len() > 0 {
        ":"@ + attr.name.data.value + "("@ + join(attr.arguments, ", "@) + ")"@
    } else {
        ":"@ + attr.name.data.value
    }
}

/// The texts of the first `n` attributes, one behind the other.
pub open spec fn attributes_text(attrs: Seq<ParsedModel<AttributeModel>>, n: nat) -> Seq<char>
    decreases n,
{
    if n == 0 || n > attrs.len() {
        Seq::empty()
    } else {
        attributes_text(attrs, (n - 1) as nat) + attribute_text(attrs[n - 1].data)
    }
}

/// The lines of the first `n` grants, each indented by `pad`.
pub open spec fn grant_lines(grants: Seq<ParsedModel<Path>>, pad: Seq<char>, n: nat) -> Seq<char>
    decreases n,
{
    if n == 0 || n > grants.len() {
        Seq::empty()
    } else {
        grant_lines(grants, pad, (n - 1) as nat) + pad + join(grants[n - 1].data, "."@) + ";\n"@
    }
}

/// The grants of a body: a line feed and the grant lines, or nothing.
pub open spec fn grants_block(grants: Seq<ParsedModel<Path>>, pad: Seq<char>) -> Seq<char> {
    if grants.len() > 0 {
        "\n"@ + grant_lines(grants, pad, grants.len())
    } else {
        Seq::empty()
    }
}

/// The lines of the first `n` includes, each indented by `pad`.
pub open spec fn include_lines(
    includes: Seq<ParsedModel<crate::parser::parse_location::IdentifierModel>>,
    pad: Seq<char>,
    n: nat,
) -> Seq<char>
    decreases n,
{
    if n == 0 || n > includes.len() {
        Seq::empty()
    } else {
        include_lines(includes, pad, (n - 1) as nat) + pad + "#"@ + includes[n - 1].data.value
            + ";\n"@
    }
}

/// The includes of a body: a line feed and the include lines, or nothing.
pub open spec fn includes_block(
    includes: Seq<ParsedModel<crate::parser::parse_location::IdentifierModel>>,
    pad: Seq<char>,
) -> Seq<char> {
    if includes.len() > 0 {
        "\n"@ + include_lines(includes, pad, includes.len())
    } else {
        Seq::empty()
    }
}

/// The text of a rule indented by `pad`: the wildcard on a line of its own,
/// or the relationship's name with the attributes, and the body in braces.
pub open spec fn rule_text(rule: RuleModel, pad: Seq<char>) -> Seq<char>
    decreases rule, 0nat,
{
    if rule.relationship.data.value == "*"@ {
        pad + "*\n"@
    } else {
        pad + rule.relationship.data.value + attributes_text(
            rule.attributes,
            rule.attributes.len(),
        ) + " {"@ + grants_block(rule.grants, pad + level()) + includes_block(
            rule.include_fragments,
            pad + level(),
        ) + rules_block(rule.rules, pad + level()) + pad + "}\n"@
    }
}

/// The texts of the first `n` rules with a blank line between neighbours.
pub open spec fn rules_text(rules: Seq<ParsedModel<RuleModel>>, pad: Seq<char>, n: nat) -> Seq<char>
    decreases rules, n,
{
    if n == 0 || n > rules.len() {
        Seq::empty()
    } else if n == 1 {
        rule_text(rules[0].data, pad)
    } else {
        rules_text(rules, pad, (n - 1) as nat) + "\n"@ + rule_text(rules[n - 1].data, pad)
    }
}

/// The rules of a body: a line feed and the rules, or nothing.
pub open spec fn rules_block(rules: Seq<ParsedModel<RuleModel>>, pad: Seq<char>) -> Seq<char>
    decreases rules, rules.len() + 1,
{
    if rules.len() > 0 {
        "\n"@ + rules_text(rules, pad, rules.len())
    } else {
        Seq::empty()
    }
}

/// The text of an entrypoint.
pub open spec fn entrypoint_text(entrypoint: EntrypointModel, pad: Seq<char>) -> Seq<char> {
    pad + "@"@ + entrypoint.entrypoint.data.value + " {\n"@ + rules_text(
        entrypoint.rules,
        pad + level(),
        entrypoint.rules.len(),
    ) + "}"@
}

/// The text of a fragment.
pub open spec fn fragment_text(fragment: FragmentModel, pad: Seq<char>) -> Seq<char> {
    pad + "fragment "@ + fragment.name.data.value + " for "@ + fragment.for_entity.data.value
        + " {"@ + grants_block(fragment.grants, pad + level()) + rules_block(
        fragment.rules,
        pad + level(),
    ) + pad + "}\n"@
}

/// The text of a relationship of an entity.
pub open spec fn relationship_text(rel: RelationshipModel, pad: Seq<char>) -> Seq<char> {
    if rel.attributes.len() > 0 {
        pad + rel.relationship_name.data.value + ": "@ + rel.entity_name.data.value + " { "@
            + attributes_text(rel.attributes, rel.attributes.len()) + " }\n"@
    } else {
        pad + rel.relationship_name.data.value + ": "@ + rel.entity_name.data.value + ";\n"@
    }
}

/// The texts of the first `n` relationships.
pub open spec fn relationships_text(
    rels: Seq<ParsedModel<RelationshipModel>>,
    pad: Seq<char>,
    n: nat,
) -> Seq<char>
    decreases n,
{
    if n == 0 || n > rels.len() {
        Seq::empty()
    } else {
        relationships_text(rels, pad, (n - 1) as nat) + relationship_text(rels[n - 1].data, pad)
    }
}

/// The text of an entity.
pub open spec fn entity_text(entity: EntityModel, pad: Seq<char>) -> Seq<char> {
    pad + "entity "@ + entity.name.data.value + " {\n"@ + relationships_text(
        entity.relationships,
        pad + level(),
        entity.relationships.len(),
    ) + grant_lines(entity.grants, pad + level(), entity.grants.len()) + pad + "}\n"@
}

/// The texts of the first `n` entities, a blank line behind each.
pub open spec fn entities_text(entities: Seq<ParsedModel<EntityModel>>, pad: Seq<char>, n: nat) -> Seq<
    char,
>
    decreases n,
{
    if n == 0 || n > entities.len() {
        Seq::empty()
    } else {
        entities_text(entities, pad, (n - 1) as nat) + entity_text(entities[n - 1].data, pad)
            + "\n"@
    }
}

/// The texts of the first `n` fragments, a blank line behind each.
pub open spec fn fragments_text(fragments: Seq<ParsedModel<FragmentModel>>, pad: Seq<char>, n: nat) -> Seq<
    char,
>
    decreases n,
{
    if n == 0 || n > fragments.len() {
        Seq::empty()
    } else {
        fragments_text(fragments, pad, (n - 1) as nat) + fragment_text(fragments[n - 1].data, pad)
            + "\n"@
    }
}

/// The texts of the first `n` entrypoints, each on lines of its own, with a
/// blank line between neighbours.
pub open spec fn entrypoints_text(
    entrypoints: Seq<ParsedModel<EntrypointModel>>,
    pad: Seq<char>,
    n: nat,
) -> Seq<char>
    decreases n,
{
    if n == 0 || n > entrypoints.len() {
        Seq::empty()
    } else if n == 1 {
        entrypoint_text(entrypoints[0].data, pad) + "\n"@
    } else {
        entrypoints_text(entrypoints, pad, (n - 1) as nat) + "\n"@ + entrypoint_text(
            entrypoints[n - 1].data,
            pad,
        ) + "\n"@
    }
}

/// The text of a file: its entities, its fragments, a blank line if it has
/// both fragments and entrypoints, and its entrypoints.
pub open spec fn file_text(file: RuuLangFileModel, pad: Seq<char>) -> Seq<char> {
    entities_text(file.entities, pad, file.entities.len()) + fragments_text(
        file.fragments,
        pad,
        file.fragments.len(),
    ) + (if file.fragments.len() > 0 && file.entrypoints.len() > 0 {
        "\n"@
    } else {
        Seq::empty()
    }) + entrypoints_text(file.entrypoints, pad, file.entrypoints.len())
}

/// The indentation of `indent` levels.
fn padding(indent: usize) -> (r: String)
    ensures
        r@ == repeat(level(), indent as nat),
{
    let mut out = String::new();
    let mut i: usize = 0;
    while i < indent
        invariant
            i <= indent,
            out@ == repeat(level(), i as nat),
        decreases indent - i,
    {
        out.append("    ");
        i += 1;
    }
    out
}

fn write_attribute(out: &mut String, attr: &Attribute)
    ensures
        final(out)@ == old(out)@ + attribute_text(attr@),
{
    let ghost before = out@;
    out.append(":");
    out.append(attr.name.data.value.as_str());
    if attr.arguments.len() > 0 {
        out.append("(");
        out.append(join_texts(&attr.arguments, ", ").as_str());
        out.append(")");
        assert(out@ =~= before + attribute_text(attr@));
    } else {
        assert(out@ =~= before + attribute_text(attr@));
    }
}

fn write_attributes(out: &mut String, attrs: &Vec<Parsed<Attribute>>)
    ensures
        final(out)@ == old(out)@ + attributes_text(views(attrs@), attrs@.len()),
{
    let ghost before = out@;
    let mut i: usize = 0;
    assert(out@ =~= before + attributes_text(views(attrs@), 0));
    while i < attrs.len()
        invariant
            i <= attrs@.len(),
            out@ == before + attributes_text(views(attrs@), i as nat),
        decreases attrs@.len() - i,
    {
        write_attribute(out, &attrs[i].data);
        assert(out@ =~= before + attributes_text(views(attrs@), (i + 1) as nat));
        i += 1;
    }
}

fn write_grant_lines(out: &mut String, grants: &Vec<Parsed<Grant>>, pad: &str)
    ensures
        final(out)@ == old(out)@ + grant_lines(views(grants@), pad@, grants@.len()),
{
    let ghost before = out@;
    let mut i: usize = 0;
    assert(out@ =~= before + grant_lines(views(grants@), pad@, 0));
    while i < grants.len()
        invariant
            i <= grants@.len(),
            out@ == before + grant_lines(views(grants@), pad@, i as nat),
        decreases grants@.len() - i,
    {
        out.append(pad);
        out.append(join_texts(&grants[i].data.grant, ".").as_str());
        out.append(";\n");
        assert(out@ =~= before + grant_lines(views(grants@), pad@, (i + 1) as nat));
        i += 1;
    }
}

fn write_grants_block(out: &mut String, grants: &Vec<Parsed<Grant>>, pad: &str)
    ensures
        final(out)@ == old(out)@ + grants_block(views(grants@), pad@),
{
    let ghost before = out@;
    if grants.len() > 0 {
        out.append("\n");
        write_grant_lines(out, grants, pad);
        assert(out@ =~= before + grants_block(views(grants@), pad@));
    } else {
        assert(out@ =~= before + grants_block(views(grants@), pad@));
    }
}

fn write_includes_block(
    out: &mut String,
    includes: &Vec<Parsed<crate::parser::parse_location::Identifier>>,
    pad: &str,
)
    ensures
        final(out)@ == old(out)@ + includes_block(views(includes@), pad@),
{
    let ghost before = out@;
    if includes.len() > 0 {
        out.append("\n");
        let ghost start = out@;
        let mut i: usize = 0;
        assert(out@ =~= start + include_lines(views(includes@), pad@, 0));
        while i < includes.len()
            invariant
                i <= includes@.len(),
                out@ == start + include_lines(views(includes@), pad@, i as nat),
            decreases includes@.len() - i,
        {
            out.append(pad);
            out.append("#");
            out.append(includes[i].data.value.as_str());
            out.append(";\n");
            assert(out@ =~= start + include_lines(views(includes@), pad@, (i + 1) as nat));
            i += 1;
        }
        assert(out@ =~= before + includes_block(views(includes@), pad@));
    } else {
        assert(out@ =~= before + includes_block(views(includes@), pad@));
    }
}

fn write_rules(out: &mut String, rules: &Vec<Parsed<Rule>>, pad: &str)
    ensures
        final(out)@ == old(out)@ + rules_text(views(rules@), pad@, rules@.len()),
    decreases rules, 1nat,
{
    let ghost before = out@;
    let mut i: usize = 0;
    assert(out@ =~= before + rules_text(views(rules@), pad@, 0));
    while i < rules.len()
        invariant
            i <= rules@.len(),
            out@ == before + rules_text(views(rules@), pad@, i as nat),
        decreases rules@.len() - i,
    {
        if i > 0 {
            out.append("\n");
        }
        write_rule(out, &rules[i].data, pad);
        assert(out@ =~= before + rules_text(views(rules@), pad@, (i + 1) as nat));
        i += 1;
    }
}

fn write_rule(out: &mut String, rule: &Rule, pad: &str)
    ensures
        final(out)@ == old(out)@ + rule_text(rule@, pad@),
    decreases rule, 0nat,
{
    if same_text(rule.relationship.data.value.as_str(), "*") {
        let mut text = pad.to_owned();
        text.append("*\n");
        out.append(text.as_str());
        return ;
    }
    proof {
        assert(rule@.rules =~= views(rule.rules@)) by {
            if rule.rules@.len() > 0 {
                lemma_rule_children(*rule, 0);
            }
        }
    }
    let mut inner = pad.to_owned();
    inner.append("    ");
    let mut text = pad.to_owned();
    text.append(rule.relationship.data.value.as_str());
    write_attributes(&mut text, &rule.attributes);
    text.append(" {");
    write_grants_block(&mut text, &rule.grants, inner.as_str());
    write_includes_block(&mut text, &rule.include_fragments, inner.as_str());
    write_rules_block(&mut text, &rule.rules, inner.as_str());
    text.append(pad);
    text.append("}\n");
    out.append(text.as_str());
}

fn write_rules_block(out: &mut String, rules: &Vec<Parsed<Rule>>, pad: &str)
    ensures
        final(out)@ == old(out)@ + rules_block(views(rules@), pad@),
    decreases rules, 2nat,
{
    let ghost before = out@;
    if rules.len() > 0 {
        out.append("\n");
        write_rules(out, rules, pad);
        assert(out@ =~= before + rules_block(views(rules@), pad@));
    } else {
        assert(out@ =~= before + rules_block(views(rules@), pad@));
    }
}

fn write_entrypoint(out: &mut String, entrypoint: &Entrypoint, pad: &str)
    ensures
        final(out)@ == old(out)@ + entrypoint_text(entrypoint@, pad@),
{
    let ghost before = out@;
    let mut inner = pad.to_owned();
    inner.append("    ");
    out.append(pad);
    out.append("@");
    out.append(entrypoint.entrypoint.data.value.as_str());
    out.append(" {\n");
    write_rules(out, &entrypoint.rules, inner.as_str());
    out.append("}");
    assert(out@ =~= before + entrypoint_text(entrypoint@, pad@));
}

fn write_fragment(out: &mut String, fragment: &Fragment, pad: &str)
    ensures
        final(out)@ == old(out)@ + fragment_text(fragment@, pad@),
{
    let ghost before = out@;
    let mut inner = pad.to_owned();
    inner.append("    ");
    out.append(pad);
    out.append("fragment ");
    out.append(fragment.name.data.value.as_str());
    out.append(" for ");
    out.append(fragment.for_entity.data.value.as_str());
    out.append(" {");
    write_grants_block(out, &fragment.grants, inner.as_str());
    write_rules_block(out, &fragment.rules, inner.as_str());
    out.append(pad);
    out.append("}\n");
    assert(out@ =~= before + fragment_text(fragment@, pad@));
}

fn write_relationship(out: &mut String, rel: &Relationship, pad: &str)
    ensures
        final(out)@ == old(out)@ + relationship_text(rel@, pad@),
{
    let ghost before = out@;
    out.append(pad);
    out.append(rel.relationship_name.data.value.as_str());
    out.append(": ");
    out.append(rel.entity_name.data.value.as_str());
    if rel.attributes.len() > 0 {
        out.append(" { ");
        write_attributes(out, &rel.attributes);
        out.append(" }\n");
        assert(out@ =~= before + relationship_text(rel@, pad@));
    } else {
        out.append(";\n");
        assert(out@ =~= before + relationship_text(rel@, pad@));
    }
}

fn write_entity(out: &mut String, entity: &Entity, pad: &str)
    ensures
        final(out)@ == old(out)@ + entity_text(entity@, pad@),
{
    let ghost before = out@;
    let mut inner = pad.to_owned();
    inner.append("    ");
    out.append(pad);
    out.append("entity ");
    out.append(entity.name.data.value.as_str());
    out.append(" {\n");
    let ghost head = out@;
    let mut i: usize = 0;
    assert(out@ =~= head + relationships_text(views(entity.relationships@), inner@, 0));
    while i < entity.relationships.len()
        invariant
            i <= entity.relationships@.len(),
            out@ == head + relationships_text(views(entity.relationships@), inner@, i as nat),
        decreases entity.relationships@.len() - i,
    {
        write_relationship(out, &entity.relationships[i].data, inner.as_str());
        assert(out@ =~= head + relationships_text(
            views(entity.relationships@),
            inner@,
            (i + 1) as nat,
        ));
        i += 1;
    }
    write_grant_lines(out, &entity.grants, inner.as_str());
    out.append(pad);
    out.append("}\n");
    assert(out@ =~= before + entity_text(entity@, pad@));
}

/// Syntax that can be written as source text.
pub trait RuuLangSerialize {
    /// The text of this node at `indent` levels of indentation.
    spec fn text(&self, indent: nat) -> Seq<char>;

    /// The source text of this node, indented by `indent` levels of four
    /// spaces.
    fn ruulang_serialize(&self, indent: usize) -> (r: String)
        ensures
            r@ == self.text(indent as nat),
    ;
}

impl RuuLangSerialize for Attribute {
    open spec fn text(&self, indent: nat) -> Seq<char> {
        attribute_text(self@)
    }

    fn ruulang_serialize(&self, _indent: usize) -> (r: String) {
        let mut out = String::new();
        write_attribute(&mut out, self);
        assert(out@ =~= attribute_text(self@));
        out
    }
}

impl RuuLangSerialize for Rule {
    open spec fn text(&self, indent: nat) -> Seq<char> {
        rule_text(self@, repeat(level(), indent))
    }

    fn ruulang_serialize(&self, indent: usize) -> (r: String) {
        let pad = padding(indent);
        let mut out = String::new();
        write_rule(&mut out, self, pad.as_str());
        assert(out@ =~= rule_text(self@, pad@));
        out
    }
}

impl RuuLangSerialize for Entrypoint {
    open spec fn text(&self, indent: nat) -> Seq<char> {
        entrypoint_text(self@, repeat(level(), indent))
    }

    fn ruulang_serialize(&self, indent: usize) -> (r: String) {
        let pad = padding(indent);
        let mut out = String::new();
        write_entrypoint(&mut out, self, pad.as_str());
        assert(out@ =~= entrypoint_text(self@, pad@));
        out
    }
}

impl RuuLangSerialize for Fragment {
    open spec fn text(&self, indent: nat) -> Seq<char> {
        fragment_text(self@, repeat(level(), indent))
    }

    fn ruulang_serialize(&self, indent: usize) -> (r: String) {
        let pad = padding(indent);
        let mut out = String::new();
        write_fragment(&mut out, self, pad.as_str());
        assert(out@ =~= fragment_text(self@, pad@));
        out
    }
}

impl RuuLangSerialize for Relationship {
    open spec fn text(&self, indent: nat) -> Seq<char> {
        relationship_text(self@, repeat(level(), indent))
    }

    fn ruulang_serialize(&self, indent: usize) -> (r: String) {
        let pad = padding(indent);
        let mut out = String::new();
        write_relationship(&mut out, self, pad.as_str());
        assert(out@ =~= relationship_text(self@, pad@));
        out
    }
}

impl RuuLangSerialize for Entity {
    open spec fn text(&self, indent: nat) -> Seq<char> {
        entity_text(self@, repeat(level(), indent))
    }

    fn ruulang_serialize(&self, indent: usize) -> (r: String) {
        let pad = padding(indent);
        let mut out = String::new();
        write_entity(&mut out, self, pad.as_str());
        assert(out@ =~= entity_text(self@, pad@));
        out
    }
}

impl RuuLangSerialize for RuuLangFile {
    open spec fn text(&self, indent: nat) -> Seq<char> {
        file_text(self@, repeat(level(), indent))
    }

    fn ruulang_serialize(&self, indent: usize) -> (r: String) {
        let pad = padding(indent);
        let mut out = String::new();
        let mut i: usize = 0;
        assert(out@ =~= entities_text(self@.entities, pad@, 0));
        while i < self.entities.len()
            invariant
                i <= self.entities@.len(),
                out@ == entities_text(self@.entities, pad@, i as nat),
            decreases self.entities@.len() - i,
        {
            let ghost before = out@;
            write_entity(&mut out, &self.entities[i].data, pad.as_str());
            out.append("\n");
            assert(out@ =~= entities_text(self@.entities, pad@, (i + 1) as nat));
            i += 1;
        }
        let ghost first = out@;
        let mut j: usize = 0;
        assert(out@ =~= first + fragments_text(self@.fragments, pad@, 0));
        while j < self.fragments.len()
            invariant
                j <= self.fragments@.len(),
                out@ == first + fragments_text(self@.fragments, pad@, j as nat),
            decreases self.fragments@.len() - j,
        {
            write_fragment(&mut out, &self.fragments[j].data, pad.as_str());
            out.append("\n");
            assert(out@ =~= first + fragments_text(self@.fragments, pad@, (j + 1) as nat));
            j += 1;
        }
        if self.fragments.len() > 0 && self.entrypoints.len() > 0 {
            out.append("\n");
        }
        let ghost second = out@;
        let mut k: usize = 0;
        assert(out@ =~= second + entrypoints_text(self@.entrypoints, pad@, 0));
        while k < self.entrypoints.len()
            invariant
                k <= self.entrypoints@.len(),
                out@ == second + entrypoints_text(self@.entrypoints, pad@, k as nat),
            decreases self.entrypoints@.len() - k,
        {
            if k > 0 {
                out.append("\n");
            }
            write_entrypoint(&mut out, &self.entrypoints[k].data, pad.as_str());
            out.append("\n");
            assert(out@ =~= second + entrypoints_text(self@.entrypoints, pad@, (k + 1) as nat));
            k += 1;
        }
        assert(out@ =~= file_text(self@, pad@));
        out
    }
}

} // verus!
