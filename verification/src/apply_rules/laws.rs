//! What holds of every consolidation pass.

use crate::apply_rules::pass_model::{
    absorbed, after_pass, after_rule, after_rules, effective, entity_unlisted,
    lemma_failure_stays, missing_issue, missing_issues, moved, needs_creation, relinked,
    rule_failure, rule_issues, takes_effect, unapplied_issue, PassOutcome, PassState,
    RuleFailure, RuleView,
};
use crate::apply_rules::object_rule::{
    lemma_ids_of_views, pass_state, rule_views, ObjectProperties, ObjectRule,
};
use crate::apply_rules::reference_index::{links_of, reference_map};
use crate::model::Collections;
use crate::objects::{
    entity_views, ids_of, perimeter_views, CommercialMode, Consolidated, EntityView, Line,
    Network, ObjectType, PerimeterView, PhysicalMode, VehicleJourney,
};
use crate::report::{Issue, Report};
use vstd::prelude::*;

verus! {

/// A rule that lists no identifier to absorb is never applied in
/// silence: it adds to the report the one issue that says that it was
/// not applied.
pub proof fn lemma_empty_list_is_reported(
    ids: Seq<Seq<char>>,
    index: Map<Seq<char>, Set<int>>,
    target: Seq<char>,
)
    ensures
        rule_issues(ids, index, Seq::empty(), target) == seq![unapplied_issue(target)],
{
    assert(rule_issues(ids, index, Seq::empty(), target) =~= seq![unapplied_issue(target)]);
}

/// Whether the rule at `i` lists `id` among the identifiers to absorb.
pub open spec fn absorbs(rules: Seq<RuleView>, i: int, id: Seq<char>) -> bool {
    0 <= i < rules.len() && rules[i].grouped_from.contains(id)
}

/// Whether one of the first `n` rules lists `id` among the identifiers to
/// absorb.
pub open spec fn absorbed_before(rules: Seq<RuleView>, n: int, id: Seq<char>) -> bool {
    exists|i: int| 0 <= i < n && #[trigger] absorbs(rules, i, id)
}

/// Whether the rule at `j` has `id` as the identifier of its target.
pub open spec fn targets(rules: Seq<RuleView>, j: int, id: Seq<char>) -> bool {
    0 <= j < rules.len() && rules[j].target == Ok::<Seq<char>, RuleFailure>(id)
}

/// Whether the rule at `j` finds its target `id` missing from a
/// collection that held `ids` before the pass: the collection never held
/// it, or an earlier rule absorbed it.
pub open spec fn creates(rules: Seq<RuleView>, ids: Seq<Seq<char>>, j: int, id: Seq<char>) -> bool {
    targets(rules, j, id) && (!ids.contains(id) || absorbed_before(rules, j, id))
}

/// Whether one of the first `n` rules finds its target `id` missing.
pub open spec fn created_before(rules: Seq<RuleView>, ids: Seq<Seq<char>>, n: int, id: Seq<char>)
    -> bool {
    exists|j: int| 0 <= j < n && #[trigger] creates(rules, ids, j, id)
}

/// The state after the first `n` rules.
pub open spec fn state_at(
    initial: PassState,
    rules: Seq<RuleView>,
    n: int,
    index: Map<Seq<char>, Set<int>>,
    in_perimeters: bool,
) -> PassState {
    after_rules(initial, rules.take(n), index, in_perimeters).state
}

/// An identifier is in a collection after the removal of the listed
/// ones just where it was there before and is not listed.
pub proof fn lemma_ids_after_removal(
    entities: Seq<EntityView>,
    listed: Seq<Seq<char>>,
    id: Seq<char>,
)
    ensures
        ids_of(entities.filter(entity_unlisted(listed))).contains(id) <==> ids_of(
            entities,
        ).contains(id) && !listed.contains(id),
{
    let keep = entity_unlisted(listed);
    let kept = entities.filter(keep);
    if ids_of(kept).contains(id) {
        let i = choose|i: int| 0 <= i < kept.len() && ids_of(kept)[i] == id;
        entities.lemma_filter_pred(keep, i);
        assert(kept.contains(kept[i]));
        entities.lemma_filter_contains_rev(keep, kept[i]);
        let j = choose|j: int| 0 <= j < entities.len() && entities[j] == kept[i];
        assert(ids_of(entities)[j] == id);
    }
    if ids_of(entities).contains(id) && !listed.contains(id) {
        let j = choose|j: int| 0 <= j < entities.len() && ids_of(entities)[j] == id;
        entities.lemma_filter_contains(keep, j);
        let i = choose|i: int| 0 <= i < kept.len() && kept[i] == entities[j];
        assert(ids_of(kept)[i] == id);
    }
}

/// Where the rules do not fail, none of their prefixes does.
pub proof fn lemma_prefix_succeeds(
    initial: PassState,
    rules: Seq<RuleView>,
    n: int,
    index: Map<Seq<char>, Set<int>>,
    in_perimeters: bool,
)
    requires
        0 <= n <= rules.len(),
        after_rules(initial, rules, index, in_perimeters).failure is None,
    ensures
        after_rules(initial, rules.take(n), index, in_perimeters).failure is None,
{
    if after_rules(initial, rules.take(n), index, in_perimeters).failure is Some {
        lemma_failure_stays(initial, rules, n, index, in_perimeters);
    }
}

/// Where the first `n + 1` rules do not fail, the rule at `n` does not
/// fail in the state that the first `n` rules leave, and takes it to the
/// state after `n + 1` rules.
pub proof fn lemma_step(
    initial: PassState,
    rules: Seq<RuleView>,
    n: int,
    index: Map<Seq<char>, Set<int>>,
    in_perimeters: bool,
)
    requires
        0 <= n < rules.len(),
        after_rules(initial, rules.take(n + 1), index, in_perimeters).failure is None,
    ensures
        after_rules(initial, rules.take(n), index, in_perimeters).failure is None,
        rule_failure(state_at(initial, rules, n, index, in_perimeters), rules[n]) is None,
        rules[n].target is Ok,
        state_at(initial, rules, n + 1, index, in_perimeters) == after_rule(
            state_at(initial, rules, n, index, in_perimeters),
            rules[n],
            index,
            in_perimeters,
        ),
{
    assert(rules.take(n + 1).drop_last() == rules.take(n));
    assert(rules.take(n + 1).last() == rules[n]);
}

/// What a collection holds after the first `n` rules of a pass that has
/// not failed: the identifiers that it held before the pass and that none
/// of these rules absorbs. And what awaits insertion: the targets that
/// one of these rules found missing.
pub proof fn lemma_collection_after_rules(
    initial: PassState,
    rules: Seq<RuleView>,
    n: int,
    index: Map<Seq<char>, Set<int>>,
    in_perimeters: bool,
)
    requires
        0 <= n <= rules.len(),
        initial.staged.len() == 0,
        after_rules(initial, rules.take(n), index, in_perimeters).failure is None,
    ensures
        forall|id: Seq<char>|
            #![trigger ids_of(state_at(initial, rules, n, index, in_perimeters).entities).contains(id)]
            ids_of(state_at(initial, rules, n, index, in_perimeters).entities).contains(id) <==> (
            ids_of(initial.entities).contains(id) && !absorbed_before(rules, n, id)),
        forall|id: Seq<char>|
            #![trigger ids_of(state_at(initial, rules, n, index, in_perimeters).staged).contains(id)]
            ids_of(state_at(initial, rules, n, index, in_perimeters).staged).contains(id)
                <==> created_before(rules, ids_of(initial.entities), n, id),
    decreases n,
{
    let ids = ids_of(initial.entities);
    let now = state_at(initial, rules, n, index, in_perimeters);
    if n == 0 {
        assert(rules.take(0).len() == 0);
        assert(ids_of(now.staged).len() == 0);
    } else {
        lemma_step(initial, rules, n - 1, index, in_perimeters);
        lemma_collection_after_rules(initial, rules, n - 1, index, in_perimeters);
        let before = state_at(initial, rules, n - 1, index, in_perimeters);
        let rule = rules[n - 1];
        let target = rule.target->Ok_0;
        assert forall|id: Seq<char>|
            #![trigger ids_of(now.entities).contains(id)]
            ids_of(now.entities).contains(id) <==> (ids.contains(id) && !absorbed_before(
                rules,
                n,
                id,
            )) by {
            lemma_ids_after_removal(before.entities, rule.grouped_from, id);
            lemma_absorbed_before_step(rules, n - 1, id);
        }
        assert forall|id: Seq<char>|
            #![trigger ids_of(now.staged).contains(id)]
            ids_of(now.staged).contains(id) <==> created_before(rules, ids, n, id) by {
            lemma_created_before_step(rules, ids, n - 1, id);
            assert(ids_of(before.entities).contains(target) <==> (ids.contains(target)
                && !absorbed_before(rules, n - 1, target)));
            if needs_creation(before, target) {
                let made = EntityView { id: target, name: rule.name->Some_0 };
                assert(ids_of(before.staged.push(made)) =~= ids_of(before.staged).push(target));
                if ids_of(now.staged).contains(id) {
                    let i = choose|i: int|
                        0 <= i < ids_of(now.staged).len() && ids_of(now.staged)[i] == id;
                    if i < before.staged.len() {
                        assert(ids_of(before.staged)[i] == id);
                    }
                }
                if ids_of(before.staged).contains(id) {
                    let i = choose|i: int|
                        0 <= i < ids_of(before.staged).len() && ids_of(before.staged)[i] == id;
                    assert(ids_of(now.staged)[i] == id);
                }
                if id == target {
                    assert(ids_of(now.staged)[before.staged.len() as int] == id);
                }
            }
        }
    }
}

/// One more rule: an identifier is absorbed before `n + 1` if it is
/// before `n`, or by the rule at `n`.
pub proof fn lemma_absorbed_before_step(rules: Seq<RuleView>, n: int, id: Seq<char>)
    requires
        0 <= n < rules.len(),
    ensures
        absorbed_before(rules, n + 1, id) <==> absorbed_before(rules, n, id) || absorbs(
            rules,
            n,
            id,
        ),
{
    if absorbed_before(rules, n + 1, id) {
        let i = choose|i: int| 0 <= i < n + 1 && #[trigger] absorbs(rules, i, id);
        if i < n {
            assert(absorbed_before(rules, n, id));
        }
    }
    if absorbed_before(rules, n, id) {
        let i = choose|i: int| 0 <= i < n && #[trigger] absorbs(rules, i, id);
        assert(absorbs(rules, i, id));
    }
}

/// One more rule: a target is found missing before `n + 1` if it is
/// before `n`, or by the rule at `n`.
pub proof fn lemma_created_before_step(
    rules: Seq<RuleView>,
    ids: Seq<Seq<char>>,
    n: int,
    id: Seq<char>,
)
    requires
        0 <= n < rules.len(),
    ensures
        created_before(rules, ids, n + 1, id) <==> created_before(rules, ids, n, id) || creates(
            rules,
            ids,
            n,
            id,
        ),
{
    if created_before(rules, ids, n + 1, id) {
        let j = choose|j: int| 0 <= j < n + 1 && #[trigger] creates(rules, ids, j, id);
        if j < n {
            assert(created_before(rules, ids, n, id));
        }
    }
    if created_before(rules, ids, n, id) {
        let j = choose|j: int| 0 <= j < n && #[trigger] creates(rules, ids, j, id);
        assert(creates(rules, ids, j, id));
    }
}

/// What a collection holds after a pass that did not fail: the
/// identifiers that it held before and that no rule absorbs, and the
/// targets that a rule found missing.
pub proof fn lemma_collection_after_pass(
    initial: PassState,
    rules: Seq<RuleView>,
    index: Map<Seq<char>, Set<int>>,
    in_perimeters: bool,
    id: Seq<char>,
)
    requires
        initial.staged.len() == 0,
        after_pass(initial, rules, index, in_perimeters).failure is None,
    ensures
        ids_of(after_pass(initial, rules, index, in_perimeters).state.entities).contains(id) <==> (
        ids_of(initial.entities).contains(id) && !absorbed_before(rules, rules.len() as int, id))
            || created_before(rules, ids_of(initial.entities), rules.len() as int, id),
{
    let n = rules.len() as int;
    assert(rules.take(n) == rules);
    lemma_collection_after_rules(initial, rules, n, index, in_perimeters);
    let last = state_at(initial, rules, n, index, in_perimeters);
    let after = after_pass(initial, rules, index, in_perimeters).state;
    assert(ids_of(after.entities) =~= ids_of(last.entities) + ids_of(last.staged));
    if ids_of(after.entities).contains(id) {
        let i = choose|i: int| 0 <= i < ids_of(after.entities).len() && ids_of(after.entities)[i]
            == id;
        if i < last.entities.len() {
            assert(ids_of(last.entities)[i] == id);
        } else {
            assert(ids_of(last.staged)[i - last.entities.len()] == id);
        }
    }
    if ids_of(last.entities).contains(id) {
        let i = choose|i: int| 0 <= i < ids_of(last.entities).len() && ids_of(last.entities)[i]
            == id;
        assert(ids_of(after.entities)[i] == id);
    }
    if ids_of(last.staged).contains(id) {
        let i = choose|i: int| 0 <= i < ids_of(last.staged).len() && ids_of(last.staged)[i] == id;
        assert(ids_of(after.entities)[last.entities.len() + i] == id);
    }
}

/// After a pass that did not fail, an identifier that a rule lists to be
/// absorbed, and that the collection held before the pass, is not in the
/// collection. This holds where no rule has as its target an identifier
/// that the collection held and that an earlier rule absorbed: such a
/// target is created anew, and inserted at the end of the pass.
pub proof fn lemma_absorbed_identifiers_leave(
    initial: PassState,
    rules: Seq<RuleView>,
    index: Map<Seq<char>, Set<int>>,
    in_perimeters: bool,
    i: int,
    id: Seq<char>,
)
    requires
        initial.staged.len() == 0,
        after_pass(initial, rules, index, in_perimeters).failure is None,
        forall|j: int, target: Seq<char>|
            #![trigger targets(rules, j, target)]
            targets(rules, j, target) && ids_of(initial.entities).contains(target)
                ==> !absorbed_before(rules, j, target),
        absorbs(rules, i, id),
        ids_of(initial.entities).contains(id),
    ensures
        !ids_of(after_pass(initial, rules, index, in_perimeters).state.entities).contains(id),
{
    let n = rules.len() as int;
    lemma_collection_after_pass(initial, rules, index, in_perimeters, id);
    assert(absorbed_before(rules, n, id));
    if created_before(rules, ids_of(initial.entities), n, id) {
        let j = choose|j: int|
            0 <= j < n && #[trigger] creates(rules, ids_of(initial.entities), j, id);
        assert(targets(rules, j, id));
    }
}

/// A filter whose predicate holds of every element keeps the sequence.
pub proof fn lemma_filter_keeps_all<A>(s: Seq<A>, pred: spec_fn(A) -> bool)
    requires
        forall|i: int| 0 <= i < s.len() ==> pred(#[trigger] s[i]),
    ensures
        s.filter(pred) == s,
    decreases s.len(),
{
    reveal(Seq::filter);
    if s.len() > 0 {
        let rest = s.drop_last();
        assert forall|i: int| 0 <= i < rest.len() implies pred(#[trigger] rest[i]) by {
            assert(rest[i] == s[i]);
        }
        lemma_filter_keeps_all(rest, pred);
        assert(rest.push(s.last()) == s);
    }
}

/// The issues for a list of identifiers of which none names an entity.
pub open spec fn all_missing(grouped: Seq<Seq<char>>, target: Seq<char>) -> Seq<Issue> {
    Seq::new(grouped.len(), |k: int| missing_issue(grouped[k], target))
}

/// Where none of the listed identifiers names an entity, each one is
/// reported.
pub proof fn lemma_all_missing(grouped: Seq<Seq<char>>, ids: Seq<Seq<char>>, target: Seq<char>)
    requires
        forall|k: int| 0 <= k < grouped.len() ==> !ids.contains(#[trigger] grouped[k]),
    ensures
        missing_issues(grouped, ids, target) == all_missing(grouped, target),
    decreases grouped.len(),
{
    if grouped.len() > 0 {
        let rest = grouped.drop_last();
        assert forall|k: int| 0 <= k < rest.len() implies !ids.contains(#[trigger] rest[k]) by {
            assert(rest[k] == grouped[k]);
        }
        lemma_all_missing(rest, ids, target);
        assert(!ids.contains(grouped[grouped.len() - 1]));
        assert(all_missing(rest, target).push(missing_issue(grouped.last(), target))
            =~= all_missing(grouped, target));
    } else {
        assert(missing_issues(grouped, ids, target) =~= all_missing(grouped, target));
    }
}

/// The issues of a pass in which no listed identifier names an entity:
/// for each rule, one for each listed identifier, and one that says that
/// the rule was not applied.
pub open spec fn rerun_issues(rules: Seq<RuleView>) -> Seq<Issue>
    decreases rules.len(),
{
    if rules.len() == 0 {
        Seq::empty()
    } else {
        rerun_issues(rules.drop_last()) + all_missing(
            rules.last().grouped_from,
            rules.last().target->Ok_0,
        ).push(unapplied_issue(rules.last().target->Ok_0))
    }
}

/// The state with these issues added to its report.
pub open spec fn with_issues(state: PassState, issues: Seq<Issue>) -> PassState {
    PassState {
        entities: state.entities,
        staged: state.staged,
        links: state.links,
        perimeters: state.perimeters,
        report: state.report + issues,
    }
}

/// Rules whose targets are all in the collection, and whose listed
/// identifiers are all missing from it, change nothing but the report.
proof fn lemma_rerun(
    initial: PassState,
    rules: Seq<RuleView>,
    n: int,
    index: Map<Seq<char>, Set<int>>,
    in_perimeters: bool,
)
    requires
        0 <= n <= rules.len(),
        initial.staged.len() == 0,
        forall|k: int, id: Seq<char>|
            #![trigger absorbs(rules, k, id)]
            absorbs(rules, k, id) ==> !ids_of(initial.entities).contains(id),
        forall|j: int|
            0 <= j < rules.len() ==> (#[trigger] rules[j]).target is Ok && ids_of(
                initial.entities,
            ).contains(rules[j].target->Ok_0),
    ensures
        after_rules(initial, rules.take(n), index, in_perimeters) == (PassOutcome {
            state: with_issues(initial, rerun_issues(rules.take(n))),
            failure: None,
        }),
    decreases n,
{
    if n == 0 {
        assert(rules.take(0).len() == 0);
        assert(initial.report + rerun_issues(rules.take(0)) =~= initial.report);
    } else {
        lemma_rerun(initial, rules, n - 1, index, in_perimeters);
        assert(rules.take(n).drop_last() == rules.take(n - 1));
        assert(rules.take(n).last() == rules[n - 1]);
        let before = with_issues(initial, rerun_issues(rules.take(n - 1)));
        let rule = rules[n - 1];
        let target = rule.target->Ok_0;
        let ids = ids_of(initial.entities);
        assert(rule_failure(before, rule) is None);
        let after = after_rule(before, rule, index, in_perimeters);
        assert forall|k: int| 0 <= k < rule.grouped_from.len() implies !ids.contains(
            #[trigger] rule.grouped_from[k],
        ) by {
            assert(absorbs(rules, n - 1, rule.grouped_from[k]));
        }
        assert forall|i: int| 0 <= i < initial.entities.len() implies entity_unlisted(
            rule.grouped_from,
        )(#[trigger] initial.entities[i]) by {
            assert(ids[i] == initial.entities[i].id);
            if rule.grouped_from.contains(initial.entities[i].id) {
                assert(absorbs(rules, n - 1, initial.entities[i].id));
            }
        }
        lemma_filter_keeps_all(initial.entities, entity_unlisted(rule.grouped_from));
        lemma_all_missing(rule.grouped_from, ids, target);
        assert(!takes_effect(ids, index, rule.grouped_from));
        assert(after.links =~= initial.links);
        assert(after.perimeters =~= initial.perimeters);
        assert(after.report =~= initial.report + rerun_issues(rules.take(n)));
    }
}

/// A second pass with the same rules, on the store that a first pass
/// left, changes neither the collection, nor the references of the
/// dependents, nor the perimeters; it reports each listed identifier as
/// missing and each rule as not applied; and it does not fail. This
/// holds whatever index the second pass is given. It holds where no
/// target of a rule is listed to be absorbed by a rule: such a target
/// would be absorbed or created again.
pub proof fn lemma_second_pass_changes_nothing(
    initial: PassState,
    rules: Seq<RuleView>,
    index: Map<Seq<char>, Set<int>>,
    in_perimeters: bool,
    report: Seq<Issue>,
    second_index: Map<Seq<char>, Set<int>>,
)
    requires
        initial.staged.len() == 0,
        after_pass(initial, rules, index, in_perimeters).failure is None,
        forall|j: int, k: int, target: Seq<char>|
            #![trigger targets(rules, j, target), absorbs(rules, k, target)]
            targets(rules, j, target) ==> !absorbs(rules, k, target),
    ensures
        ({
            let first = after_pass(initial, rules, index, in_perimeters).state;
            let second = after_pass(
                PassState {
                    entities: first.entities,
                    staged: Seq::empty(),
                    links: first.links,
                    perimeters: first.perimeters,
                    report: report,
                },
                rules,
                second_index,
                in_perimeters,
            );
            &&& second.failure is None
            &&& second.state.entities == first.entities
            &&& second.state.links == first.links
            &&& second.state.perimeters == first.perimeters
            &&& second.state.report == report + rerun_issues(rules)
        }),
{
    let n = rules.len() as int;
    let first = after_pass(initial, rules, index, in_perimeters).state;
    let again = PassState {
        entities: first.entities,
        staged: Seq::empty(),
        links: first.links,
        perimeters: first.perimeters,
        report: report,
    };
    let ids = ids_of(initial.entities);
    assert forall|k: int, id: Seq<char>|
        #![trigger absorbs(rules, k, id)]
        absorbs(rules, k, id) implies !ids_of(first.entities).contains(id) by {
        lemma_collection_after_pass(initial, rules, index, in_perimeters, id);
        assert(absorbed_before(rules, n, id));
        if created_before(rules, ids, n, id) {
            let j = choose|j: int| 0 <= j < n && #[trigger] creates(rules, ids, j, id);
            assert(targets(rules, j, id));
        }
    }
    assert forall|j: int| 0 <= j < rules.len() implies (#[trigger] rules[j]).target is Ok
        && ids_of(first.entities).contains(rules[j].target->Ok_0) by {
        lemma_prefix_succeeds(initial, rules, j + 1, index, in_perimeters);
        lemma_step(initial, rules, j, index, in_perimeters);
        let target = rules[j].target->Ok_0;
        lemma_collection_after_pass(initial, rules, index, in_perimeters, target);
        assert(targets(rules, j, target));
        if ids.contains(target) {
            if absorbed_before(rules, n, target) {
                let k = choose|k: int| 0 <= k < n && #[trigger] absorbs(rules, k, target);
            }
        } else {
            assert(creates(rules, ids, j, target));
        }
    }
    lemma_rerun(again, rules, n, second_index, in_perimeters);
    assert(rules.take(n) == rules);
    assert(first.entities + Seq::<EntityView>::empty() =~= first.entities);
}

/// The first rule that lists `id` among the identifiers to absorb.
pub open spec fn first_absorber(rules: Seq<RuleView>, id: Seq<char>) -> int {
    choose|i: int| #[trigger] absorbs(rules, i, id) && !absorbed_before(rules, i, id)
}

/// An identifier that one of the first `n` rules absorbs has a first rule
/// that absorbs it, among these.
pub proof fn lemma_first_absorber(rules: Seq<RuleView>, n: int, id: Seq<char>)
    requires
        absorbed_before(rules, n, id),
    ensures
        0 <= first_absorber(rules, id) < n,
        absorbs(rules, first_absorber(rules, id), id),
        !absorbed_before(rules, first_absorber(rules, id), id),
    decreases n,
{
    let i = choose|i: int| 0 <= i < n && #[trigger] absorbs(rules, i, id);
    if absorbed_before(rules, i, id) {
        lemma_first_absorber(rules, i, id);
    } else {
        assert(absorbs(rules, i, id) && !absorbed_before(rules, i, id));
    }
    let first = first_absorber(rules, id);
    if first >= n {
        assert(absorbs(rules, i, id));
        assert(absorbed_before(rules, first, id));
    }
}

/// The identifier to which a dependent refers after a pass, where it
/// referred to `link` before: the target of the first rule that absorbs
/// `link`, or `link` itself where no rule does.
pub open spec fn link_after(rules: Seq<RuleView>, n: int, link: Seq<char>) -> Seq<char> {
    if absorbed_before(rules, n, link) {
        rules[first_absorber(rules, link)].target->Ok_0
    } else {
        link
    }
}

/// Whether every reference names an entity of the collection.
pub open spec fn links_resolve(ids: Seq<Seq<char>>, links: Seq<Seq<char>>) -> bool {
    forall|p: int| 0 <= p < links.len() ==> ids.contains(#[trigger] links[p])
}

/// With the index of a store, a rule repoints a dependent just where it
/// lists the identifier to which the dependent referred before the
/// pass, and the collection still holds that identifier.
pub proof fn lemma_moved_by_listing(
    ids: Seq<Seq<char>>,
    links: Seq<Seq<char>>,
    held: Seq<Seq<char>>,
    grouped: Seq<Seq<char>>,
    p: int,
)
    requires
        0 <= p < links.len(),
        held.contains(links[p]) ==> ids.contains(links[p]),
    ensures
        moved(held, reference_map(ids, links), grouped, p)
            <==> grouped.contains(links[p]) && held.contains(links[p]),
{
    let index = reference_map(ids, links);
    if moved(held, index, grouped, p) {
        let k = choose|k: int|
            0 <= k < grouped.len() && effective(held, index, #[trigger] grouped[k])
                && index[grouped[k]].contains(p);
        assert(grouped[k] == links[p]);
    }
    if grouped.contains(links[p]) && held.contains(links[p]) {
        let k = choose|k: int| 0 <= k < grouped.len() && grouped[k] == links[p];
        assert(index.dom().contains(links[p]));
        assert(index[links[p]].contains(p));
        assert(effective(held, index, grouped[k]));
    }
}

/// One more rule: a reference goes to the target of the rule at `n` if
/// that rule is the first to absorb what the dependent referred to, and
/// is as it was after `n` rules otherwise.
pub proof fn lemma_link_after_step(rules: Seq<RuleView>, n: int, link: Seq<char>)
    requires
        0 <= n < rules.len(),
    ensures
        link_after(rules, n + 1, link) == if absorbs(rules, n, link) && !absorbed_before(
            rules,
            n,
            link,
        ) {
            rules[n].target->Ok_0
        } else {
            link_after(rules, n, link)
        },
{
    lemma_absorbed_before_step(rules, n, link);
    if absorbed_before(rules, n + 1, link) {
        lemma_first_absorber(rules, n + 1, link);
        let first = first_absorber(rules, link);
        if absorbs(rules, n, link) && !absorbed_before(rules, n, link) {
            if first < n {
                assert(absorbs(rules, first, link));
                assert(absorbed_before(rules, n, link));
            }
        }
    }
}

/// Where the store is consistent and the index is that of the store, the
/// first `n` rules of a pass that has not failed leave each dependent
/// referring to the target of the first of them that absorbs what it
/// referred to.
pub proof fn lemma_links_after_rules(
    initial: PassState,
    rules: Seq<RuleView>,
    n: int,
    in_perimeters: bool,
)
    requires
        0 <= n <= rules.len(),
        initial.staged.len() == 0,
        links_resolve(ids_of(initial.entities), initial.links),
        after_rules(
            initial,
            rules.take(n),
            reference_map(ids_of(initial.entities), initial.links),
            in_perimeters,
        ).failure is None,
    ensures
        state_at(
            initial,
            rules,
            n,
            reference_map(ids_of(initial.entities), initial.links),
            in_perimeters,
        ).links == Seq::new(initial.links.len(), |p: int| link_after(rules, n, initial.links[p])),
    decreases n,
{
    let ids = ids_of(initial.entities);
    let index = reference_map(ids, initial.links);
    let now = state_at(initial, rules, n, index, in_perimeters);
    let wanted = Seq::new(initial.links.len(), |p: int| link_after(rules, n, initial.links[p]));
    if n == 0 {
        assert(rules.take(0).len() == 0);
        assert(now.links =~= wanted);
    } else {
        lemma_step(initial, rules, n - 1, index, in_perimeters);
        lemma_links_after_rules(initial, rules, n - 1, in_perimeters);
        lemma_collection_after_rules(initial, rules, n - 1, index, in_perimeters);
        let before = state_at(initial, rules, n - 1, index, in_perimeters);
        let grouped = rules[n - 1].grouped_from;
        let target = rules[n - 1].target->Ok_0;
        let held = ids_of(before.entities);
        assert(now.links == relinked(before.links, held, index, grouped, target));
        assert forall|p: int| 0 <= p < initial.links.len() implies now.links[p] == wanted[p] by {
            let link = initial.links[p];
            assert(ids.contains(link));
            assert(held.contains(link) <==> (ids.contains(link) && !absorbed_before(
                rules,
                n - 1,
                link,
            )));
            lemma_moved_by_listing(ids, initial.links, held, grouped, p);
            lemma_link_after_step(rules, n - 1, link);
            assert(before.links[p] == link_after(rules, n - 1, link));
        }
        assert(now.links =~= wanted);
    }
}

/// Whether the rule at `i` repoints in a pass from `initial`: one of the
/// identifiers that it lists names an entity that the collection holds
/// when the rule is applied, and has an entry in the index.
pub open spec fn took_effect(
    initial: PassState,
    rules: Seq<RuleView>,
    i: int,
    index: Map<Seq<char>, Set<int>>,
    in_perimeters: bool,
) -> bool {
    0 <= i < rules.len() && takes_effect(
        ids_of(state_at(initial, rules, i, index, in_perimeters).entities),
        index,
        rules[i].grouped_from,
    )
}

/// After a pass that did not fail, each dependent refers to an entity of
/// the collection, where each one did before the pass and the index was
/// that of the store. This holds where the target of each rule that
/// repointed is in the collection at the end; a target that the rule
/// itself or a later one absorbs is not, unless a rule creates it again.
pub proof fn lemma_references_resolve(
    initial: PassState,
    rules: Seq<RuleView>,
    in_perimeters: bool,
)
    requires
        initial.staged.len() == 0,
        links_resolve(ids_of(initial.entities), initial.links),
        after_pass(
            initial,
            rules,
            reference_map(ids_of(initial.entities), initial.links),
            in_perimeters,
        ).failure is None,
        forall|i: int|
            #[trigger] took_effect(
                initial,
                rules,
                i,
                reference_map(ids_of(initial.entities), initial.links),
                in_perimeters,
            ) ==> ids_of(
                after_pass(
                    initial,
                    rules,
                    reference_map(ids_of(initial.entities), initial.links),
                    in_perimeters,
                ).state.entities,
            ).contains(rules[i].target->Ok_0),
    ensures
        links_resolve(
            ids_of(
                after_pass(
                    initial,
                    rules,
                    reference_map(ids_of(initial.entities), initial.links),
                    in_perimeters,
                ).state.entities,
            ),
            after_pass(
                initial,
                rules,
                reference_map(ids_of(initial.entities), initial.links),
                in_perimeters,
            ).state.links,
        ),
{
    let ids = ids_of(initial.entities);
    let index = reference_map(ids, initial.links);
    let n = rules.len() as int;
    let after = after_pass(initial, rules, index, in_perimeters).state;
    assert(rules.take(n) == rules);
    lemma_links_after_rules(initial, rules, n, in_perimeters);
    assert forall|p: int| 0 <= p < after.links.len() implies ids_of(after.entities).contains(
        #[trigger] after.links[p],
    ) by {
        let link = initial.links[p];
        assert(ids.contains(link));
        if absorbed_before(rules, n, link) {
            lemma_first_absorber(rules, n, link);
            let first = first_absorber(rules, link);
            lemma_prefix_succeeds(initial, rules, first, index, in_perimeters);
            lemma_collection_after_rules(initial, rules, first, index, in_perimeters);
            let held = ids_of(state_at(initial, rules, first, index, in_perimeters).entities);
            assert(held.contains(link));
            let k = choose|k: int|
                0 <= k < rules[first].grouped_from.len() && rules[first].grouped_from[k] == link;
            assert(index.dom().contains(link));
            assert(effective(held, index, rules[first].grouped_from[k]));
            assert(took_effect(initial, rules, first, index, in_perimeters));
        } else {
            lemma_collection_after_pass(initial, rules, index, in_perimeters, link);
        }
    }
}

/// After a pass that did not fail, the target of each rule is in the
/// collection, where no rule lists its own target, or that of an earlier
/// rule, among the identifiers to absorb.
pub proof fn lemma_targets_stay(
    initial: PassState,
    rules: Seq<RuleView>,
    index: Map<Seq<char>, Set<int>>,
    in_perimeters: bool,
    i: int,
)
    requires
        initial.staged.len() == 0,
        after_pass(initial, rules, index, in_perimeters).failure is None,
        forall|j: int, k: int, target: Seq<char>|
            #![trigger targets(rules, j, target), absorbs(rules, k, target)]
            targets(rules, j, target) && j <= k ==> !absorbs(rules, k, target),
        0 <= i < rules.len(),
    ensures
        rules[i].target is Ok,
        ids_of(after_pass(initial, rules, index, in_perimeters).state.entities).contains(
            rules[i].target->Ok_0,
        ),
{
    let n = rules.len() as int;
    let ids = ids_of(initial.entities);
    lemma_prefix_succeeds(initial, rules, i + 1, index, in_perimeters);
    lemma_step(initial, rules, i, index, in_perimeters);
    let target = rules[i].target->Ok_0;
    lemma_collection_after_pass(initial, rules, index, in_perimeters, target);
    assert(targets(rules, i, target));
    if ids.contains(target) && absorbed_before(rules, n, target) {
        let k = choose|k: int| 0 <= k < n && #[trigger] absorbs(rules, k, target);
        assert(k < i);
        assert(absorbed_before(rules, i, target));
        assert(creates(rules, ids, i, target));
    } else if !ids.contains(target) {
        assert(creates(rules, ids, i, target));
    }
}

/// Whether the rule at `i` repoints what refers to `id`: it lists `id`,
/// which names an entity that the collection holds when the rule is
/// applied, and has an entry in the index.
pub open spec fn repointed_at(
    initial: PassState,
    rules: Seq<RuleView>,
    i: int,
    index: Map<Seq<char>, Set<int>>,
    in_perimeters: bool,
    id: Seq<char>,
) -> bool {
    absorbs(rules, i, id) && effective(
        ids_of(state_at(initial, rules, i, index, in_perimeters).entities),
        index,
        id,
    )
}

/// Whether none of the first `n` rules repoints what refers to `id`.
pub open spec fn never_repointed(
    initial: PassState,
    rules: Seq<RuleView>,
    n: int,
    index: Map<Seq<char>, Set<int>>,
    in_perimeters: bool,
    id: Seq<char>,
) -> bool {
    forall|i: int|
        0 <= i < n ==> !#[trigger] repointed_at(initial, rules, i, index, in_perimeters, id)
}

/// Whether a perimeter is as the first `n` rules of a pass can leave the
/// perimeter `before`: untouched, and then no rule repointed what refers
/// to the network that it names; or naming the target of a rule that
/// repointed. Only a perimeter on a network, in a pass on networks, is
/// ever touched.
pub open spec fn perimeter_follows(
    initial: PassState,
    rules: Seq<RuleView>,
    n: int,
    index: Map<Seq<char>, Set<int>>,
    in_perimeters: bool,
    before: PerimeterView,
    now: PerimeterView,
) -> bool {
    &&& now.ticket_use_id == before.ticket_use_id
    &&& now.object_type == before.object_type
    &&& if in_perimeters && before.object_type == ObjectType::Network {
        ||| now.object_id == before.object_id && never_repointed(
            initial,
            rules,
            n,
            index,
            in_perimeters,
            before.object_id,
        )
        ||| exists|i: int|
            0 <= i < n && #[trigger] took_effect(initial, rules, i, index, in_perimeters)
                && now.object_id == rules[i].target->Ok_0
    } else {
        now.object_id == before.object_id
    }
}

/// The first `n` rules of a pass that has not failed leave each
/// perimeter untouched, or naming the target of a rule that repointed.
pub proof fn lemma_perimeters_after_rules(
    initial: PassState,
    rules: Seq<RuleView>,
    n: int,
    index: Map<Seq<char>, Set<int>>,
    in_perimeters: bool,
)
    requires
        0 <= n <= rules.len(),
        after_rules(initial, rules.take(n), index, in_perimeters).failure is None,
    ensures
        state_at(initial, rules, n, index, in_perimeters).perimeters.len()
            == initial.perimeters.len(),
        forall|q: int|
            0 <= q < initial.perimeters.len() ==> perimeter_follows(
                initial,
                rules,
                n,
                index,
                in_perimeters,
                initial.perimeters[q],
                #[trigger] state_at(initial, rules, n, index, in_perimeters).perimeters[q],
            ),
    decreases n,
{
    let now = state_at(initial, rules, n, index, in_perimeters);
    if n == 0 {
        assert(rules.take(0).len() == 0);
    } else {
        lemma_step(initial, rules, n - 1, index, in_perimeters);
        lemma_perimeters_after_rules(initial, rules, n - 1, index, in_perimeters);
        let before = state_at(initial, rules, n - 1, index, in_perimeters);
        let rule = rules[n - 1];
        let grouped = rule.grouped_from;
        let target = rule.target->Ok_0;
        let held = ids_of(before.entities);
        assert forall|q: int| 0 <= q < initial.perimeters.len() implies perimeter_follows(
            initial,
            rules,
            n,
            index,
            in_perimeters,
            initial.perimeters[q],
            #[trigger] now.perimeters[q],
        ) by {
            let first = initial.perimeters[q];
            let was = before.perimeters[q];
            assert(perimeter_follows(initial, rules, n - 1, index, in_perimeters, first, was));
            if in_perimeters && first.object_type == ObjectType::Network {
                if absorbed(held, index, grouped, was.object_id) {
                    let k = choose|k: int|
                        0 <= k < grouped.len() && effective(held, index, #[trigger] grouped[k])
                            && grouped[k] == was.object_id;
                    assert(took_effect(initial, rules, n - 1, index, in_perimeters));
                } else if was.object_id == first.object_id && never_repointed(
                    initial,
                    rules,
                    n - 1,
                    index,
                    in_perimeters,
                    first.object_id,
                ) {
                    if repointed_at(initial, rules, n - 1, index, in_perimeters, first.object_id) {
                        let k = choose|k: int|
                            0 <= k < grouped.len() && grouped[k] == first.object_id;
                        assert(effective(held, index, grouped[k]));
                        assert(false);
                    }
                } else {
                    let i = choose|i: int|
                        0 <= i < n - 1 && #[trigger] took_effect(
                            initial,
                            rules,
                            i,
                            index,
                            in_perimeters,
                        ) && was.object_id == rules[i].target->Ok_0;
                    assert(took_effect(initial, rules, i, index, in_perimeters));
                }
            }
        }
    }
}

/// After a pass on networks that did not fail, each perimeter on a
/// network names a network of the collection, where each one did before
/// the pass. This holds where the target of each rule that repointed is
/// in the collection at the end, and so is each network that a perimeter
/// names, that a rule absorbs, and that has no entry in the index: the
/// perimeters on such a network are not repointed.
pub proof fn lemma_perimeters_resolve(
    initial: PassState,
    rules: Seq<RuleView>,
    index: Map<Seq<char>, Set<int>>,
)
    requires
        initial.staged.len() == 0,
        after_pass(initial, rules, index, true).failure is None,
        forall|q: int|
            0 <= q < initial.perimeters.len() && (#[trigger] initial.perimeters[q]).object_type
                == ObjectType::Network ==> ids_of(initial.entities).contains(
                initial.perimeters[q].object_id,
            ),
        forall|i: int| #[trigger]
            took_effect(initial, rules, i, index, true) ==> ids_of(
                after_pass(initial, rules, index, true).state.entities,
            ).contains(rules[i].target->Ok_0),
        forall|q: int|
            0 <= q < initial.perimeters.len() && (#[trigger] initial.perimeters[q]).object_type
                == ObjectType::Network && absorbed_before(
                rules,
                rules.len() as int,
                initial.perimeters[q].object_id,
            ) && !index.dom().contains(initial.perimeters[q].object_id) ==> ids_of(
                after_pass(initial, rules, index, true).state.entities,
            ).contains(initial.perimeters[q].object_id),
    ensures
        after_pass(initial, rules, index, true).state.perimeters.len()
            == initial.perimeters.len(),
        forall|q: int|
            0 <= q < initial.perimeters.len() && (#[trigger] after_pass(
                initial,
                rules,
                index,
                true,
            ).state.perimeters[q]).object_type == ObjectType::Network ==> ids_of(
                after_pass(initial, rules, index, true).state.entities,
            ).contains(after_pass(initial, rules, index, true).state.perimeters[q].object_id),
{
    let n = rules.len() as int;
    let ids = ids_of(initial.entities);
    let after = after_pass(initial, rules, index, true).state;
    assert(rules.take(n) == rules);
    lemma_perimeters_after_rules(initial, rules, n, index, true);
    assert forall|q: int|
        0 <= q < initial.perimeters.len() && (#[trigger] after.perimeters[q]).object_type
            == ObjectType::Network implies ids_of(after.entities).contains(
        after.perimeters[q].object_id,
    ) by {
        let first = initial.perimeters[q];
        let last = state_at(initial, rules, n, index, true).perimeters[q];
        assert(perimeter_follows(initial, rules, n, index, true, first, last));
        let id = first.object_id;
        if last.object_id == id && never_repointed(initial, rules, n, index, true, id) {
            if absorbed_before(rules, n, id) {
                lemma_first_absorber(rules, n, id);
                let i = first_absorber(rules, id);
                lemma_prefix_succeeds(initial, rules, i, index, true);
                lemma_collection_after_rules(initial, rules, i, index, true);
                assert(!repointed_at(initial, rules, i, index, true, id));
            } else {
                lemma_collection_after_pass(initial, rules, index, true, id);
            }
        }
    }
}

/// Whether no rule lists its own target, or that of an earlier rule,
/// among the identifiers to absorb.
pub open spec fn targets_kept(rules: Seq<RuleView>) -> bool {
    forall|j: int, k: int, target: Seq<char>|
        #![trigger targets(rules, j, target), absorbs(rules, k, target)]
        targets(rules, j, target) && j <= k ==> !absorbs(rules, k, target)
}

/// After a pass that did not fail, each dependent refers to an entity of
/// the collection, where each one did before the pass, the index was that
/// of the store, and no rule lists its own target, or that of an earlier
/// rule, among the identifiers to absorb.
pub proof fn lemma_references_resolve_where_targets_stay(
    initial: PassState,
    rules: Seq<RuleView>,
    in_perimeters: bool,
)
    requires
        initial.staged.len() == 0,
        links_resolve(ids_of(initial.entities), initial.links),
        after_pass(
            initial,
            rules,
            reference_map(ids_of(initial.entities), initial.links),
            in_perimeters,
        ).failure is None,
        targets_kept(rules),
    ensures
        links_resolve(
            ids_of(
                after_pass(
                    initial,
                    rules,
                    reference_map(ids_of(initial.entities), initial.links),
                    in_perimeters,
                ).state.entities,
            ),
            after_pass(
                initial,
                rules,
                reference_map(ids_of(initial.entities), initial.links),
                in_perimeters,
            ).state.links,
        ),
{
    let index = reference_map(ids_of(initial.entities), initial.links);
    assert forall|i: int| #[trigger]
        took_effect(initial, rules, i, index, in_perimeters) implies ids_of(
        after_pass(initial, rules, index, in_perimeters).state.entities,
    ).contains(rules[i].target->Ok_0) by {
        lemma_targets_stay(initial, rules, index, in_perimeters, i);
    }
    lemma_references_resolve(initial, rules, in_perimeters);
}

/// After a pass on networks that did not fail, each perimeter on a
/// network names a network of the collection, where each one did before
/// the pass, no rule lists its own target, or that of an earlier rule,
/// among the identifiers to absorb, and each network that a perimeter
/// names and that a rule absorbs has an entry in the index.
pub proof fn lemma_perimeters_resolve_where_targets_stay(
    initial: PassState,
    rules: Seq<RuleView>,
    index: Map<Seq<char>, Set<int>>,
)
    requires
        initial.staged.len() == 0,
        after_pass(initial, rules, index, true).failure is None,
        forall|q: int|
            0 <= q < initial.perimeters.len() && (#[trigger] initial.perimeters[q]).object_type
                == ObjectType::Network ==> ids_of(initial.entities).contains(
                initial.perimeters[q].object_id,
            ),
        targets_kept(rules),
        forall|q: int|
            0 <= q < initial.perimeters.len() && (#[trigger] initial.perimeters[q]).object_type
                == ObjectType::Network && absorbed_before(
                rules,
                rules.len() as int,
                initial.perimeters[q].object_id,
            ) ==> index.dom().contains(initial.perimeters[q].object_id),
    ensures
        after_pass(initial, rules, index, true).state.perimeters.len()
            == initial.perimeters.len(),
        forall|q: int|
            0 <= q < initial.perimeters.len() && (#[trigger] after_pass(
                initial,
                rules,
                index,
                true,
            ).state.perimeters[q]).object_type == ObjectType::Network ==> ids_of(
                after_pass(initial, rules, index, true).state.entities,
            ).contains(after_pass(initial, rules, index, true).state.perimeters[q].object_id),
{
    assert forall|i: int| #[trigger] took_effect(initial, rules, i, index, true) implies ids_of(
        after_pass(initial, rules, index, true).state.entities,
    ).contains(rules[i].target->Ok_0) by {
        lemma_targets_stay(initial, rules, index, true, i);
    }
    lemma_perimeters_resolve(initial, rules, index);
}

/// A pass on a category that perimeters do not name leaves the
/// perimeters as they were.
pub proof fn lemma_perimeters_kept(
    initial: PassState,
    rules: Seq<RuleView>,
    index: Map<Seq<char>, Set<int>>,
)
    ensures
        after_pass(initial, rules, index, false).state.perimeters == initial.perimeters,
{
    let n = rules.len() as int;
    assert(rules.take(n) == rules);
    lemma_first_failure(initial, rules, n, index, false);
    let m = first_failure(initial, rules, n, index, false);
    lemma_perimeters_after_rules(initial, rules, m, index, false);
    assert(after_pass(initial, rules, index, false).state.perimeters =~= initial.perimeters);
}

/// The number of rules that a pass applies: all of the first `n`, or
/// those before the first of them that fails.
pub open spec fn first_failure(
    initial: PassState,
    rules: Seq<RuleView>,
    n: int,
    index: Map<Seq<char>, Set<int>>,
    in_perimeters: bool,
) -> int
    decreases n,
{
    if n <= 0 {
        0
    } else if after_rules(initial, rules.take(n - 1), index, in_perimeters).failure is Some {
        first_failure(initial, rules, n - 1, index, in_perimeters)
    } else {
        if after_rules(initial, rules.take(n), index, in_perimeters).failure is Some {
            n - 1
        } else {
            n
        }
    }
}

/// The state in which the first `n` rules leave a pass is the one in
/// which the rules that it applies leave it, and these do not fail.
pub proof fn lemma_first_failure(
    initial: PassState,
    rules: Seq<RuleView>,
    n: int,
    index: Map<Seq<char>, Set<int>>,
    in_perimeters: bool,
)
    requires
        0 <= n <= rules.len(),
    ensures
        0 <= first_failure(initial, rules, n, index, in_perimeters) <= n,
        after_rules(
            initial,
            rules.take(first_failure(initial, rules, n, index, in_perimeters)),
            index,
            in_perimeters,
        ).failure is None,
        after_rules(initial, rules.take(n), index, in_perimeters).state == state_at(
            initial,
            rules,
            first_failure(initial, rules, n, index, in_perimeters),
            index,
            in_perimeters,
        ),
    decreases n,
{
    if n <= 0 {
        assert(rules.take(0).len() == 0);
    } else {
        lemma_first_failure(initial, rules, n - 1, index, in_perimeters);
        assert(rules.take(n).drop_last() == rules.take(n - 1));
    }
}

/// The rules of a category as a pass reads them: none where the category
/// has no rules.
pub open spec fn category_rules(rules: Option<Vec<ObjectProperties>>, id_field: Seq<char>) -> Seq<
    RuleView,
> {
    match rules {
        Some(rules) => rule_views(rules@, id_field),
        None => Seq::empty(),
    }
}

/// Whether every reference of the store names an entity of the store:
/// the network and the commercial mode of each line, the physical mode
/// of each vehicle journey, and the network of each perimeter on a
/// network.
pub open spec fn references_resolve(
    networks: Seq<Seq<char>>,
    commercial_modes: Seq<Seq<char>>,
    physical_modes: Seq<Seq<char>>,
    line_networks: Seq<Seq<char>>,
    line_commercial_modes: Seq<Seq<char>>,
    journey_physical_modes: Seq<Seq<char>>,
    perimeters: Seq<PerimeterView>,
) -> bool {
    &&& links_resolve(networks, line_networks)
    &&& links_resolve(commercial_modes, line_commercial_modes)
    &&& links_resolve(physical_modes, journey_physical_modes)
    &&& forall|q: int|
        0 <= q < perimeters.len() && (#[trigger] perimeters[q]).object_type == ObjectType::Network
            ==> networks.contains(perimeters[q].object_id)
}

/// A run that does not fail leaves a store in which every reference
/// names an entity, where the store was so before the run and the
/// indexes were built from it. This holds where, in each category, no
/// rule lists its own target, or that of an earlier rule, among the
/// identifiers to absorb, and where a line refers to each network that a
/// perimeter names and that a rule absorbs.
pub proof fn lemma_run_keeps_references(rule: ObjectRule, collections: Collections, report: Report)
    requires
        rule.built_from(collections),
        references_resolve(
            collections.networks.ids(),
            collections.commercial_modes.ids(),
            collections.physical_modes.ids(),
            links_of::<Network, Line>(collections.lines@),
            links_of::<CommercialMode, Line>(collections.lines@),
            links_of::<PhysicalMode, VehicleJourney>(collections.vehicle_journeys@),
            perimeter_views(collections.ticket_use_perimeters@),
        ),
        rule.consolidation(collections, report).physical_modes.failure is None,
        targets_kept(category_rules(rule.configuration().networks_rules, Network::id_field())),
        targets_kept(
            category_rules(rule.configuration().commercial_modes_rules, CommercialMode::id_field()),
        ),
        targets_kept(
            category_rules(rule.configuration().physical_modes_rules, PhysicalMode::id_field()),
        ),
        forall|q: int|
            0 <= q < collections.ticket_use_perimeters@.len() && (
            #[trigger] collections.ticket_use_perimeters@[q]).object_type == ObjectType::Network
                && absorbed_before(
                category_rules(rule.configuration().networks_rules, Network::id_field()),
                category_rules(rule.configuration().networks_rules, Network::id_field()).len() as int,
                collections.ticket_use_perimeters@[q].object_id@,
            ) ==> links_of::<Network, Line>(collections.lines@).contains(
                collections.ticket_use_perimeters@[q].object_id@,
            ),
    ensures
        references_resolve(
            ids_of(rule.consolidation(collections, report).networks.state.entities),
            ids_of(rule.consolidation(collections, report).commercial_modes.state.entities),
            ids_of(rule.consolidation(collections, report).physical_modes.state.entities),
            rule.consolidation(collections, report).networks.state.links,
            rule.consolidation(collections, report).commercial_modes.state.links,
            rule.consolidation(collections, report).physical_modes.state.links,
            rule.consolidation(collections, report).physical_modes.state.perimeters,
        ),
{
    let plan = rule.consolidation(collections, report);
    let perimeters = perimeter_views(collections.ticket_use_perimeters@);
    lemma_ids_of_views(collections.networks@);
    lemma_ids_of_views(collections.commercial_modes@);
    lemma_ids_of_views(collections.physical_modes@);
    assert(entity_views(Seq::<Network>::empty()) =~= Seq::<EntityView>::empty());
    assert(entity_views(Seq::<CommercialMode>::empty()) =~= Seq::<EntityView>::empty());
    assert(entity_views(Seq::<PhysicalMode>::empty()) =~= Seq::<EntityView>::empty());
    let networks = pass_state::<Network, Line>(
        collections.networks@,
        Seq::empty(),
        collections.lines@,
        collections.ticket_use_perimeters@,
        report,
    );
    match (rule.configuration().networks_rules, rule.lines_by_network()) {
        (Some(rules), Some(index)) => {
            let views = rule_views(rules@, Network::id_field());
            lemma_references_resolve_where_targets_stay(networks, views, true);
            assert forall|q: int|
                0 <= q < networks.perimeters.len() && (#[trigger] networks.perimeters[q]).object_type
                    == ObjectType::Network && absorbed_before(
                    views,
                    views.len() as int,
                    networks.perimeters[q].object_id,
                ) implies index@.dom().contains(networks.perimeters[q].object_id) by {
                assert(networks.perimeters[q] == collections.ticket_use_perimeters@[q]@);
            }
            lemma_perimeters_resolve_where_targets_stay(networks, views, index@);
        },
        _ => {},
    }
    let commercial_modes = PassState {
        entities: entity_views(collections.commercial_modes@),
        staged: Seq::empty(),
        links: links_of::<CommercialMode, Line>(collections.lines@),
        perimeters: plan.networks.state.perimeters,
        report: plan.networks.state.report,
    };
    match (rule.configuration().commercial_modes_rules, rule.lines_by_commercial_mode()) {
        (Some(rules), Some(index)) => {
            let views = rule_views(rules@, CommercialMode::id_field());
            lemma_references_resolve_where_targets_stay(commercial_modes, views, false);
            lemma_perimeters_kept(commercial_modes, views, index@);
        },
        _ => {},
    }
    let physical_modes = PassState {
        entities: entity_views(collections.physical_modes@),
        staged: Seq::empty(),
        links: links_of::<PhysicalMode, VehicleJourney>(collections.vehicle_journeys@),
        perimeters: plan.commercial_modes.state.perimeters,
        report: plan.commercial_modes.state.report,
    };
    match (rule.configuration().physical_modes_rules, rule.vjs_by_physical_mode()) {
        (Some(rules), Some(index)) => {
            let views = rule_views(rules@, PhysicalMode::id_field());
            lemma_references_resolve_where_targets_stay(physical_modes, views, false);
            lemma_perimeters_kept(physical_modes, views, index@);
        },
        _ => {},
    }
}

} // verus!
