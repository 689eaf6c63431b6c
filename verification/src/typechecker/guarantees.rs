//! What validation guarantees: every finding is reported where it occurs, and
//! a file without diagnostics has none.

use vstd::prelude::*;
use crate::parser::parse_location::ParsedModel;
use crate::parser::ruulang_ast::{EntrypointModel, FragmentModel, RuleModel, RuuLangFileModel};
use crate::typechecker::tc_ast::TcEntityModel;
use crate::typechecker::typechecker::{
    allows, at_node, disallowed_grant_message, entrypoint_diagnostics, entrypoints_diagnostics,
    file_diagnostics, fragment_diagnostics, fragment_grant_diagnostics, fragments_diagnostics,
    include_diagnostics, invalid_grant_message, is_wildcard, rule_diagnostics,
    rule_grant_diagnostics, rules_diagnostics, unknown_entity_message, unknown_fragment_message,
    unknown_relationship_message, IndexModel,
};
use crate::utils::error::RuuLangErrorModel;
use crate::utils::trie::Path;

verus! {

/// The entity that `rule` leads to when read with `scope` as the current
/// entity: none for a wildcard, for a relationship that `scope` does not
/// declare, and for a relationship to an entity that the index lacks.
pub open spec fn target_of(ix: IndexModel, scope: TcEntityModel, rule: ParsedModel<RuleModel>) -> Option<
    TcEntityModel,
> {
    let name = rule.data.relationship.data.value;
    if is_wildcard(rule) || !scope.relationships.contains_key(name) {
        None
    } else {
        let target_name = scope.relationships[name].data.entity_name.data.value;
        if ix.entities.contains_key(target_name) {
            Some(ix.entities[target_name])
        } else {
            None
        }
    }
}

/// The rule found by taking, from `rule` downwards, the child at each
/// position of `path` in turn, together with the entity that is current
/// there. None where `path` leaves the tree or passes a rule that leads
/// nowhere.
pub open spec fn descend(
    ix: IndexModel,
    scope: TcEntityModel,
    rule: ParsedModel<RuleModel>,
    path: Seq<int>,
) -> Option<(TcEntityModel, ParsedModel<RuleModel>)>
    decreases path.len(),
{
    if path.len() == 0 {
        Some((scope, rule))
    } else {
        match target_of(ix, scope, rule) {
            None => None,
            Some(target) => if 0 <= path[0] < rule.data.rules.len() {
                descend(ix, target, rule.data.rules[path[0]], path.drop_first())
            } else {
                None
            },
        }
    }
}

/// A way in which a rule can be wrong.
pub enum Offence {
    /// The current entity declares no relationship of the rule's name.
    UnknownRelationship,
    /// The relationship leads to an entity that the index lacks.
    UnknownTarget,
    /// The grant at this position is not allowed by the entity the rule
    /// leads to.
    Grant(int),
    /// The fragment included at this position is not declared for the
    /// entity the rule leads to.
    Include(int),
}

/// Whether `rule`, read with `scope` as the current entity, is wrong in the
/// way `offence`.
pub open spec fn occurs(
    ix: IndexModel,
    scope: TcEntityModel,
    rule: ParsedModel<RuleModel>,
    offence: Offence,
) -> bool {
    let name = rule.data.relationship.data.value;
    !is_wildcard(rule) && match offence {
        Offence::UnknownRelationship => !scope.relationships.contains_key(name),
        Offence::UnknownTarget => scope.relationships.contains_key(name)
            && !ix.entities.contains_key(scope.relationships[name].data.entity_name.data.value),
        Offence::Grant(j) => target_of(ix, scope, rule).is_some() && 0 <= j
            < rule.data.grants.len() && !allows(
            target_of(ix, scope, rule).unwrap(),
            rule.data.grants[j].data,
        ),
        Offence::Include(j) => target_of(ix, scope, rule).is_some() && 0 <= j
            < rule.data.include_fragments.len() && !ix.fragments.contains(
            (
                rule.data.include_fragments[j].data.value,
                target_of(ix, scope, rule).unwrap().name,
            ),
        ),
    }
}

/// The diagnostic for `offence`: it lies at the rule for an unknown
/// relationship, at the relationship's declaration for an unknown target, and
/// at the grant or the include itself otherwise.
pub open spec fn report(
    ix: IndexModel,
    scope: TcEntityModel,
    rule: ParsedModel<RuleModel>,
    offence: Offence,
) -> RuuLangErrorModel {
    let name = rule.data.relationship.data.value;
    match offence {
        Offence::UnknownRelationship => at_node(
            rule,
            unknown_relationship_message(name, scope.name),
        ),
        Offence::UnknownTarget => at_node(
            scope.relationships[name],
            unknown_entity_message(scope.relationships[name].data.entity_name.data.value),
        ),
        Offence::Grant(j) => at_node(
            rule.data.grants[j],
            invalid_grant_message(rule.data.grants[j].data),
        ),
        Offence::Include(j) => at_node(
            rule.data.include_fragments[j],
            unknown_fragment_message(
                rule.data.include_fragments[j].data.value,
                target_of(ix, scope, rule).unwrap().name,
            ),
        ),
    }
}

/// Whether `rule`, read with `scope` as the current entity, is right in
/// itself: it is the wildcard, or its relationship is declared by `scope` and
/// leads to an entity of the index that allows each of the rule's grants and
/// has each of the fragments that the rule includes.
pub open spec fn rule_accepted(ix: IndexModel, scope: TcEntityModel, rule: ParsedModel<RuleModel>) -> bool {
    let name = rule.data.relationship.data.value;
    is_wildcard(rule) || {
        &&& scope.relationships.contains_key(name)
        &&& ix.entities.contains_key(scope.relationships[name].data.entity_name.data.value)
        &&& forall|j: int|
            0 <= j < rule.data.grants.len() ==> allows(
                ix.entities[scope.relationships[name].data.entity_name.data.value],
                (#[trigger] rule.data.grants[j]).data,
            )
        &&& forall|j: int|
            0 <= j < rule.data.include_fragments.len() ==> ix.fragments.contains(
                (
                    (#[trigger] rule.data.include_fragments[j]).data.value,
                    ix.entities[scope.relationships[name].data.entity_name.data.value].name,
                ),
            )
    }
}

proof fn lemma_in_left<A>(a: Seq<A>, b: Seq<A>, x: A)
    requires
        a.contains(x),
    ensures
        (a + b).contains(x),
{
    let i = choose|i: int| 0 <= i < a.len() && a[i] == x;
    assert((a + b)[i] == x);
}

proof fn lemma_in_right<A>(a: Seq<A>, b: Seq<A>, x: A)
    requires
        b.contains(x),
    ensures
        (a + b).contains(x),
{
    let i = choose|i: int| 0 <= i < b.len() && b[i] == x;
    assert((a + b)[a.len() + i] == x);
}

proof fn lemma_in_push<A>(a: Seq<A>, y: A, x: A)
    requires
        a.contains(x) || x == y,
    ensures
        a.push(y).contains(x),
{
    if x == y {
        assert(a.push(y)[a.len() as int] == x);
    } else {
        let i = choose|i: int| 0 <= i < a.len() && a[i] == x;
        assert(a.push(y)[i] == x);
    }
}

proof fn lemma_rule_grant_reported(entity: TcEntityModel, grants: Seq<ParsedModel<Path>>, n: nat, j: int)
    requires
        0 <= j < n <= grants.len(),
        !allows(entity, grants[j].data),
    ensures
        rule_grant_diagnostics(entity, grants, n).contains(
            at_node(grants[j], invalid_grant_message(grants[j].data)),
        ),
    decreases n,
{
    let d = at_node(grants[j], invalid_grant_message(grants[j].data));
    let before = rule_grant_diagnostics(entity, grants, (n - 1) as nat);
    if j < n - 1 {
        lemma_rule_grant_reported(entity, grants, (n - 1) as nat, j);
    }
    if !allows(entity, grants[n - 1].data) {
        lemma_in_push(
            before,
            at_node(grants[n - 1], invalid_grant_message(grants[n - 1].data)),
            d,
        );
    }
}

proof fn lemma_fragment_grant_reported(
    entity: TcEntityModel,
    grants: Seq<ParsedModel<Path>>,
    n: nat,
    j: int,
)
    requires
        0 <= j < n <= grants.len(),
        !allows(entity, grants[j].data),
    ensures
        fragment_grant_diagnostics(entity, grants, n).contains(
            at_node(grants[j], disallowed_grant_message(entity.name, grants[j].data)),
        ),
    decreases n,
{
    let d = at_node(grants[j], disallowed_grant_message(entity.name, grants[j].data));
    let before = fragment_grant_diagnostics(entity, grants, (n - 1) as nat);
    if j < n - 1 {
        lemma_fragment_grant_reported(entity, grants, (n - 1) as nat, j);
    }
    if !allows(entity, grants[n - 1].data) {
        lemma_in_push(
            before,
            at_node(grants[n - 1], disallowed_grant_message(entity.name, grants[n - 1].data)),
            d,
        );
    }
}

proof fn lemma_include_reported(
    ix: IndexModel,
    entity: TcEntityModel,
    includes: Seq<ParsedModel<crate::parser::parse_location::IdentifierModel>>,
    n: nat,
    j: int,
)
    requires
        0 <= j < n <= includes.len(),
        !ix.fragments.contains((includes[j].data.value, entity.name)),
    ensures
        include_diagnostics(ix, entity, includes, n).contains(
            at_node(includes[j], unknown_fragment_message(includes[j].data.value, entity.name)),
        ),
    decreases n,
{
    let d = at_node(includes[j], unknown_fragment_message(includes[j].data.value, entity.name));
    let before = include_diagnostics(ix, entity, includes, (n - 1) as nat);
    if j < n - 1 {
        lemma_include_reported(ix, entity, includes, (n - 1) as nat, j);
    }
    if !ix.fragments.contains((includes[n - 1].data.value, entity.name)) {
        lemma_in_push(
            before,
            at_node(
                includes[n - 1],
                unknown_fragment_message(includes[n - 1].data.value, entity.name),
            ),
            d,
        );
    }
}

/// What one rule of a list reports is among what the list reports.
proof fn lemma_rules_hold_rule(
    ix: IndexModel,
    scope: TcEntityModel,
    rules: Seq<ParsedModel<RuleModel>>,
    n: nat,
    k: int,
    d: RuuLangErrorModel,
)
    requires
        0 <= k < n <= rules.len(),
        rule_diagnostics(ix, scope, rules[k]).contains(d),
    ensures
        rules_diagnostics(ix, scope, rules, n).contains(d),
    decreases n,
{
    let before = rules_diagnostics(ix, scope, rules, (n - 1) as nat);
    let last = rule_diagnostics(ix, scope, rules[n - 1]);
    if k < n - 1 {
        lemma_rules_hold_rule(ix, scope, rules, (n - 1) as nat, k, d);
        lemma_in_left(before, last, d);
    } else {
        lemma_in_right(before, last, d);
    }
}

/// Completeness for one rule tree: whatever is wrong with a rule of the tree
/// that validation reaches is among the diagnostics of the tree, at the place
/// that [`report`] gives.
pub proof fn lemma_offence_reported(
    ix: IndexModel,
    scope: TcEntityModel,
    rule: ParsedModel<RuleModel>,
    path: Seq<int>,
    offence: Offence,
)
    requires
        descend(ix, scope, rule, path).is_some(),
        occurs(
            ix,
            descend(ix, scope, rule, path).unwrap().0,
            descend(ix, scope, rule, path).unwrap().1,
            offence,
        ),
    ensures
        rule_diagnostics(ix, scope, rule).contains(
            report(
                ix,
                descend(ix, scope, rule, path).unwrap().0,
                descend(ix, scope, rule, path).unwrap().1,
                offence,
            ),
        ),
    decreases path.len(),
{
    let here = descend(ix, scope, rule, path).unwrap();
    let d = report(ix, here.0, here.1, offence);
    let all = rule_diagnostics(ix, scope, rule);
    if path.len() == 0 {
        let name = rule.data.relationship.data.value;
        match offence {
            Offence::UnknownRelationship => {
                assert(all[0] == d);
            },
            Offence::UnknownTarget => {
                assert(all[0] == d);
            },
            Offence::Grant(j) => {
                let target = target_of(ix, scope, rule).unwrap();
                let grants = rule_grant_diagnostics(target, rule.data.grants, rule.data.grants.len());
                let includes = include_diagnostics(
                    ix,
                    target,
                    rule.data.include_fragments,
                    rule.data.include_fragments.len(),
                );
                let below = rules_diagnostics(ix, target, rule.data.rules, rule.data.rules.len());
                lemma_rule_grant_reported(target, rule.data.grants, rule.data.grants.len(), j);
                lemma_in_left(grants, includes, d);
                lemma_in_left(grants + includes, below, d);
            },
            Offence::Include(j) => {
                let target = target_of(ix, scope, rule).unwrap();
                let grants = rule_grant_diagnostics(target, rule.data.grants, rule.data.grants.len());
                let includes = include_diagnostics(
                    ix,
                    target,
                    rule.data.include_fragments,
                    rule.data.include_fragments.len(),
                );
                let below = rules_diagnostics(ix, target, rule.data.rules, rule.data.rules.len());
                lemma_include_reported(
                    ix,
                    target,
                    rule.data.include_fragments,
                    rule.data.include_fragments.len(),
                    j,
                );
                lemma_in_right(grants, includes, d);
                lemma_in_left(grants + includes, below, d);
            },
        }
    } else {
        let target = target_of(ix, scope, rule).unwrap();
        let child = rule.data.rules[path[0]];
        lemma_offence_reported(ix, target, child, path.drop_first(), offence);
        let grants = rule_grant_diagnostics(target, rule.data.grants, rule.data.grants.len());
        let includes = include_diagnostics(
            ix,
            target,
            rule.data.include_fragments,
            rule.data.include_fragments.len(),
        );
        let below = rules_diagnostics(ix, target, rule.data.rules, rule.data.rules.len());
        lemma_rules_hold_rule(ix, target, rule.data.rules, rule.data.rules.len(), path[0], d);
        lemma_in_right(grants + includes, below, d);
    }
}

/// Soundness for one rule tree: where the tree has no diagnostic, every rule
/// of it that validation reaches is right in itself.
pub proof fn lemma_clean_rule_accepted(
    ix: IndexModel,
    scope: TcEntityModel,
    rule: ParsedModel<RuleModel>,
    path: Seq<int>,
)
    requires
        rule_diagnostics(ix, scope, rule).len() == 0,
        descend(ix, scope, rule, path).is_some(),
    ensures
        rule_accepted(
            ix,
            descend(ix, scope, rule, path).unwrap().0,
            descend(ix, scope, rule, path).unwrap().1,
        ),
{
    let here = descend(ix, scope, rule, path).unwrap();
    let s = here.0;
    let r = here.1;
    let name = r.data.relationship.data.value;
    if !is_wildcard(r) {
        if !s.relationships.contains_key(name) {
            lemma_offence_reported(ix, scope, rule, path, Offence::UnknownRelationship);
        } else if !ix.entities.contains_key(s.relationships[name].data.entity_name.data.value) {
            lemma_offence_reported(ix, scope, rule, path, Offence::UnknownTarget);
        } else {
            let target = ix.entities[s.relationships[name].data.entity_name.data.value];
            assert forall|j: int| 0 <= j < r.data.grants.len() implies allows(
                target,
                (#[trigger] r.data.grants[j]).data,
            ) by {
                if !allows(target, r.data.grants[j].data) {
                    lemma_offence_reported(ix, scope, rule, path, Offence::Grant(j));
                }
            }
            assert forall|j: int|
                0 <= j < r.data.include_fragments.len() implies ix.fragments.contains(
                ((#[trigger] r.data.include_fragments[j]).data.value, target.name),
            ) by {
                if !ix.fragments.contains((r.data.include_fragments[j].data.value, target.name)) {
                    lemma_offence_reported(ix, scope, rule, path, Offence::Include(j));
                }
            }
        }
    }
}

/// What one fragment reports is among what the file reports.
proof fn lemma_file_holds_fragment(
    ix: IndexModel,
    fragments: Seq<ParsedModel<FragmentModel>>,
    n: nat,
    i: int,
    d: RuuLangErrorModel,
)
    requires
        0 <= i < n <= fragments.len(),
        fragment_diagnostics(ix, fragments[i]).contains(d),
    ensures
        fragments_diagnostics(ix, fragments, n).contains(d),
    decreases n,
{
    let before = fragments_diagnostics(ix, fragments, (n - 1) as nat);
    let last = fragment_diagnostics(ix, fragments[n - 1]);
    if i < n - 1 {
        lemma_file_holds_fragment(ix, fragments, (n - 1) as nat, i, d);
        lemma_in_left(before, last, d);
    } else {
        lemma_in_right(before, last, d);
    }
}

/// What one entrypoint reports is among what the file reports.
proof fn lemma_file_holds_entrypoint(
    ix: IndexModel,
    entrypoints: Seq<ParsedModel<EntrypointModel>>,
    n: nat,
    i: int,
    d: RuuLangErrorModel,
)
    requires
        0 <= i < n <= entrypoints.len(),
        entrypoint_diagnostics(ix, entrypoints[i]).contains(d),
    ensures
        entrypoints_diagnostics(ix, entrypoints, n).contains(d),
    decreases n,
{
    let before = entrypoints_diagnostics(ix, entrypoints, (n - 1) as nat);
    let last = entrypoint_diagnostics(ix, entrypoints[n - 1]);
    if i < n - 1 {
        lemma_file_holds_entrypoint(ix, entrypoints, (n - 1) as nat, i, d);
        lemma_in_left(before, last, d);
    } else {
        lemma_in_right(before, last, d);
    }
}

/// Completeness for entrypoints: an entrypoint of an unknown entity is
/// reported at the entrypoint, and whatever is wrong with a rule that
/// validation reaches below an entrypoint is reported at the place that
/// [`report`] gives.
pub proof fn lemma_entrypoint_offence_reported(
    ix: IndexModel,
    file: RuuLangFileModel,
    i: int,
    j: int,
    path: Seq<int>,
    offence: Offence,
)
    requires
        0 <= i < file.entrypoints.len(),
    ensures
        !ix.entities.contains_key(file.entrypoints[i].data.entrypoint.data.value)
            ==> file_diagnostics(ix, file).contains(
            at_node(
                file.entrypoints[i],
                unknown_entity_message(file.entrypoints[i].data.entrypoint.data.value),
            ),
        ),
        ({
            let name = file.entrypoints[i].data.entrypoint.data.value;
            let rules = file.entrypoints[i].data.rules;
            &&& ix.entities.contains_key(name)
            &&& 0 <= j < rules.len()
            &&& descend(ix, ix.entities[name], rules[j], path).is_some()
            &&& occurs(
                ix,
                descend(ix, ix.entities[name], rules[j], path).unwrap().0,
                descend(ix, ix.entities[name], rules[j], path).unwrap().1,
                offence,
            )
        }) ==> file_diagnostics(ix, file).contains(
            report(
                ix,
                descend(
                    ix,
                    ix.entities[file.entrypoints[i].data.entrypoint.data.value],
                    file.entrypoints[i].data.rules[j],
                    path,
                ).unwrap().0,
                descend(
                    ix,
                    ix.entities[file.entrypoints[i].data.entrypoint.data.value],
                    file.entrypoints[i].data.rules[j],
                    path,
                ).unwrap().1,
                offence,
            ),
        ),
{
    let ep = file.entrypoints[i];
    let name = ep.data.entrypoint.data.value;
    let rules = ep.data.rules;
    let first = fragments_diagnostics(ix, file.fragments, file.fragments.len());
    let second = entrypoints_diagnostics(ix, file.entrypoints, file.entrypoints.len());
    if !ix.entities.contains_key(name) {
        let d = at_node(ep, unknown_entity_message(name));
        assert(entrypoint_diagnostics(ix, ep)[0] == d);
        lemma_file_holds_entrypoint(ix, file.entrypoints, file.entrypoints.len(), i, d);
        lemma_in_right(first, second, d);
    } else if 0 <= j < rules.len() && descend(ix, ix.entities[name], rules[j], path).is_some() {
        let here = descend(ix, ix.entities[name], rules[j], path).unwrap();
        if occurs(ix, here.0, here.1, offence) {
            let d = report(ix, here.0, here.1, offence);
            lemma_offence_reported(ix, ix.entities[name], rules[j], path, offence);
            lemma_rules_hold_rule(ix, ix.entities[name], rules, rules.len(), j, d);
            lemma_file_holds_entrypoint(ix, file.entrypoints, file.entrypoints.len(), i, d);
            lemma_in_right(first, second, d);
        }
    }
}

/// Completeness for fragments: a fragment for an unknown entity is reported
/// at the fragment, a grant that the fragment's entity does not allow is
/// reported at the grant, and whatever is wrong with a rule that validation
/// reaches below a fragment is reported at the place that [`report`] gives.
pub proof fn lemma_fragment_offence_reported(
    ix: IndexModel,
    file: RuuLangFileModel,
    i: int,
    j: int,
    path: Seq<int>,
    offence: Offence,
)
    requires
        0 <= i < file.fragments.len(),
    ensures
        !ix.entities.contains_key(file.fragments[i].data.for_entity.data.value)
            ==> file_diagnostics(ix, file).contains(
            at_node(
                file.fragments[i],
                unknown_entity_message(file.fragments[i].data.for_entity.data.value),
            ),
        ),
        ({
            let name = file.fragments[i].data.for_entity.data.value;
            let grants = file.fragments[i].data.grants;
            &&& ix.entities.contains_key(name)
            &&& 0 <= j < grants.len()
            &&& !allows(ix.entities[name], grants[j].data)
        }) ==> file_diagnostics(ix, file).contains(
            at_node(
                file.fragments[i].data.grants[j],
                disallowed_grant_message(
                    ix.entities[file.fragments[i].data.for_entity.data.value].name,
                    file.fragments[i].data.grants[j].data,
                ),
            ),
        ),
        ({
            let name = file.fragments[i].data.for_entity.data.value;
            let rules = file.fragments[i].data.rules;
            &&& ix.entities.contains_key(name)
            &&& 0 <= j < rules.len()
            &&& descend(ix, ix.entities[name], rules[j], path).is_some()
            &&& occurs(
                ix,
                descend(ix, ix.entities[name], rules[j], path).unwrap().0,
                descend(ix, ix.entities[name], rules[j], path).unwrap().1,
                offence,
            )
        }) ==> file_diagnostics(ix, file).contains(
            report(
                ix,
                descend(
                    ix,
                    ix.entities[file.fragments[i].data.for_entity.data.value],
                    file.fragments[i].data.rules[j],
                    path,
                ).unwrap().0,
                descend(
                    ix,
                    ix.entities[file.fragments[i].data.for_entity.data.value],
                    file.fragments[i].data.rules[j],
                    path,
                ).unwrap().1,
                offence,
            ),
        ),
{
    let f = file.fragments[i];
    let name = f.data.for_entity.data.value;
    let rules = f.data.rules;
    let grants = f.data.grants;
    let first = fragments_diagnostics(ix, file.fragments, file.fragments.len());
    let second = entrypoints_diagnostics(ix, file.entrypoints, file.entrypoints.len());
    if !ix.entities.contains_key(name) {
        let d = at_node(f, unknown_entity_message(name));
        assert(fragment_diagnostics(ix, f)[0] == d);
        lemma_file_holds_fragment(ix, file.fragments, file.fragments.len(), i, d);
        lemma_in_left(first, second, d);
    } else {
        let entity = ix.entities[name];
        let g = fragment_grant_diagnostics(entity, grants, grants.len());
        let below = rules_diagnostics(ix, entity, rules, rules.len());
        if 0 <= j < grants.len() && !allows(entity, grants[j].data) {
            let d = at_node(grants[j], disallowed_grant_message(entity.name, grants[j].data));
            lemma_fragment_grant_reported(entity, grants, grants.len(), j);
            lemma_in_left(g, below, d);
            lemma_file_holds_fragment(ix, file.fragments, file.fragments.len(), i, d);
            lemma_in_left(first, second, d);
        }
        if 0 <= j < rules.len() && descend(ix, entity, rules[j], path).is_some() {
            let here = descend(ix, entity, rules[j], path).unwrap();
            if occurs(ix, here.0, here.1, offence) {
                let d = report(ix, here.0, here.1, offence);
                lemma_offence_reported(ix, entity, rules[j], path, offence);
                lemma_rules_hold_rule(ix, entity, rules, rules.len(), j, d);
                lemma_in_right(g, below, d);
                lemma_file_holds_fragment(ix, file.fragments, file.fragments.len(), i, d);
                lemma_in_left(first, second, d);
            }
        }
    }
}

/// Soundness for a file: where a file has no diagnostic, each of its
/// entrypoints names an entity of the index, each of its fragments is for an
/// entity of the index that allows the fragment's grants, and every rule
/// that validation reaches below either is right in itself.
pub proof fn lemma_clean_file_accepted(
    ix: IndexModel,
    file: RuuLangFileModel,
    i: int,
    j: int,
    path: Seq<int>,
)
    requires
        file_diagnostics(ix, file).len() == 0,
    ensures
        0 <= i < file.entrypoints.len() ==> ix.entities.contains_key(
            file.entrypoints[i].data.entrypoint.data.value,
        ),
        ({
            &&& 0 <= i < file.entrypoints.len()
            &&& 0 <= j < file.entrypoints[i].data.rules.len()
            &&& descend(
                ix,
                ix.entities[file.entrypoints[i].data.entrypoint.data.value],
                file.entrypoints[i].data.rules[j],
                path,
            ).is_some()
        }) ==> rule_accepted(
            ix,
            descend(
                ix,
                ix.entities[file.entrypoints[i].data.entrypoint.data.value],
                file.entrypoints[i].data.rules[j],
                path,
            ).unwrap().0,
            descend(
                ix,
                ix.entities[file.entrypoints[i].data.entrypoint.data.value],
                file.entrypoints[i].data.rules[j],
                path,
            ).unwrap().1,
        ),
        0 <= i < file.fragments.len() ==> ix.entities.contains_key(
            file.fragments[i].data.for_entity.data.value,
        ),
        (0 <= i < file.fragments.len() && 0 <= j < file.fragments[i].data.grants.len()) ==> allows(
            ix.entities[file.fragments[i].data.for_entity.data.value],
            file.fragments[i].data.grants[j].data,
        ),
        ({
            &&& 0 <= i < file.fragments.len()
            &&& 0 <= j < file.fragments[i].data.rules.len()
            &&& descend(
                ix,
                ix.entities[file.fragments[i].data.for_entity.data.value],
                file.fragments[i].data.rules[j],
                path,
            ).is_some()
        }) ==> rule_accepted(
            ix,
            descend(
                ix,
                ix.entities[file.fragments[i].data.for_entity.data.value],
                file.fragments[i].data.rules[j],
                path,
            ).unwrap().0,
            descend(
                ix,
                ix.entities[file.fragments[i].data.for_entity.data.value],
                file.fragments[i].data.rules[j],
                path,
            ).unwrap().1,
        ),
{
    let all = file_diagnostics(ix, file);
    assert(forall|d: RuuLangErrorModel| !all.contains(d));
    if 0 <= i < file.entrypoints.len() {
        lemma_entrypoint_offence_reported(ix, file, i, j, path, Offence::UnknownRelationship);
        let name = file.entrypoints[i].data.entrypoint.data.value;
        let rules = file.entrypoints[i].data.rules;
        if 0 <= j < rules.len() && descend(ix, ix.entities[name], rules[j], path).is_some() {
            lemma_accepted_or_offence(ix, ix.entities[name], rules[j], path);
            let o = accepted_or_offence(ix, ix.entities[name], rules[j], path);
            lemma_entrypoint_offence_reported(ix, file, i, j, path, o);
        }
    }
    if 0 <= i < file.fragments.len() {
        lemma_fragment_offence_reported(ix, file, i, j, path, Offence::UnknownRelationship);
        let name = file.fragments[i].data.for_entity.data.value;
        let rules = file.fragments[i].data.rules;
        if 0 <= j < rules.len() && descend(ix, ix.entities[name], rules[j], path).is_some() {
            lemma_accepted_or_offence(ix, ix.entities[name], rules[j], path);
            let o = accepted_or_offence(ix, ix.entities[name], rules[j], path);
            lemma_fragment_offence_reported(ix, file, i, j, path, o);
        }
    }
}

/// Some way in which the rule at the end of `path` is wrong, if it is not
/// right in itself.
pub open spec fn accepted_or_offence(
    ix: IndexModel,
    scope: TcEntityModel,
    rule: ParsedModel<RuleModel>,
    path: Seq<int>,
) -> Offence {
    let here = descend(ix, scope, rule, path).unwrap();
    choose|o: Offence| occurs(ix, here.0, here.1, o)
}

/// A rule is right in itself or wrong in some way.
proof fn lemma_accepted_or_offence(
    ix: IndexModel,
    scope: TcEntityModel,
    rule: ParsedModel<RuleModel>,
    path: Seq<int>,
)
    requires
        descend(ix, scope, rule, path).is_some(),
    ensures
        rule_accepted(
            ix,
            descend(ix, scope, rule, path).unwrap().0,
            descend(ix, scope, rule, path).unwrap().1,
        ) || occurs(
            ix,
            descend(ix, scope, rule, path).unwrap().0,
            descend(ix, scope, rule, path).unwrap().1,
            accepted_or_offence(ix, scope, rule, path),
        ),
{
    let here = descend(ix, scope, rule, path).unwrap();
    let s = here.0;
    let r = here.1;
    let name = r.data.relationship.data.value;
    if !rule_accepted(ix, s, r) {
        if !s.relationships.contains_key(name) {
            assert(occurs(ix, s, r, Offence::UnknownRelationship));
        } else if !ix.entities.contains_key(s.relationships[name].data.entity_name.data.value) {
            assert(occurs(ix, s, r, Offence::UnknownTarget));
        } else {
            let target = ix.entities[s.relationships[name].data.entity_name.data.value];
            if exists|j: int|
                0 <= j < r.data.grants.len() && !allows(target, (#[trigger] r.data.grants[j]).data) {
                let j = choose|j: int|
                    0 <= j < r.data.grants.len() && !allows(
                        target,
                        (#[trigger] r.data.grants[j]).data,
                    );
                assert(occurs(ix, s, r, Offence::Grant(j)));
            } else {
                let j = choose|j: int|
                    0 <= j < r.data.include_fragments.len() && !ix.fragments.contains(
                        ((#[trigger] r.data.include_fragments[j]).data.value, target.name),
                    );
                assert(occurs(ix, s, r, Offence::Include(j)));
            }
        }
    }
}

} // verus!
