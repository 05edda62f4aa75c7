//! What a consolidation pass does, as a function on sequences and maps.
//!
//! A pass works on one category of reference entities (the targets), on
//! the entities that refer to them (the dependents) and, for networks, on
//! the ticket use perimeters. It applies the rules of the category in
//! order, and inserts at the end the entities that the rules created.

use crate::objects::{ids_of, EntityView, ObjectType, PerimeterView};
use crate::report::{Issue, ReportCategory};
use vstd::prelude::*;

verus! {

/// Why a rule stops the run.
pub enum RuleFailure {
    /// The properties have no member under the key of the identifier.
    KeyRequired(Seq<char>),
    /// The member under the key of the identifier is not a string.
    MustBeFilled(Seq<char>),
    /// The entity with this identifier has to be created, and the
    /// properties do not give its name as a string.
    InvalidProperties(Seq<char>),
}

/// A rule as a pass reads it.
pub struct RuleView {
    /// The identifier of the target, or why it cannot be had.
    pub target: Result<Seq<char>, RuleFailure>,
    /// The display name that the properties give, if they give one.
    pub name: Option<Seq<char>>,
    /// The identifiers to absorb into the target.
    pub grouped_from: Seq<Seq<char>>,
}

/// What a pass works on.
pub struct PassState {
    /// The entities of the target collection, in order.
    pub entities: Seq<EntityView>,
    /// The entities that rules created, awaiting insertion.
    pub staged: Seq<EntityView>,
    /// The identifier to which each dependent refers, by position.
    pub links: Seq<Seq<char>>,
    /// The ticket use perimeters, in order.
    pub perimeters: Seq<PerimeterView>,
    /// The issues reported so far.
    pub report: Seq<Issue>,
}

/// A state, and the failure that stopped the pass there, if one did.
pub struct PassOutcome {
    pub state: PassState,
    pub failure: Option<RuleFailure>,
}

/// The message for an identifier to absorb that names no entity.
pub open spec fn missing_message(id: Seq<char>, target: Seq<char>) -> Seq<char> {
    "The identifier \""@ + id + "\" doesn't exist, and therefore cannot be regrouped in \""@
        + target + "\""@
}

/// The message for a rule that repointed nothing.
pub open spec fn unapplied_message(target: Seq<char>) -> Seq<char> {
    "The rule on identifier \""@ + target + "\" was not applied"@
}

/// The issue for an identifier to absorb that names no entity.
pub open spec fn missing_issue(id: Seq<char>, target: Seq<char>) -> Issue {
    Issue { category: ReportCategory::ObjectNotFound, message: missing_message(id, target) }
}

/// The issue for a rule that repointed nothing.
pub open spec fn unapplied_issue(target: Seq<char>) -> Issue {
    Issue { category: ReportCategory::RuleNotApplied, message: unapplied_message(target) }
}

/// The predicate "its identifier is not one of `listed`" on entities.
pub open spec fn entity_unlisted(listed: Seq<Seq<char>>) -> spec_fn(EntityView) -> bool {
    |entity: EntityView| !listed.contains(entity.id)
}

/// Whether absorbing `id` repoints: an entity has this identifier, and
/// the index has an entry for it.
pub open spec fn effective(ids: Seq<Seq<char>>, index: Map<Seq<char>, Set<int>>, id: Seq<char>)
    -> bool {
    ids.contains(id) && index.dom().contains(id)
}

/// Whether one of the identifiers to absorb repoints.
pub open spec fn takes_effect(
    ids: Seq<Seq<char>>,
    index: Map<Seq<char>, Set<int>>,
    grouped: Seq<Seq<char>>,
) -> bool {
    exists|k: int| 0 <= k < grouped.len() && effective(ids, index, #[trigger] grouped[k])
}

/// Whether the dependent at `position` is repointed: the index lists it
/// under one of the identifiers to absorb that repoint.
pub open spec fn moved(
    ids: Seq<Seq<char>>,
    index: Map<Seq<char>, Set<int>>,
    grouped: Seq<Seq<char>>,
    position: int,
) -> bool {
    exists|k: int|
        0 <= k < grouped.len() && effective(ids, index, #[trigger] grouped[k])
            && index[grouped[k]].contains(position)
}

/// The references of the dependents after a rule: those that are
/// repointed refer to the target.
pub open spec fn relinked(
    links: Seq<Seq<char>>,
    ids: Seq<Seq<char>>,
    index: Map<Seq<char>, Set<int>>,
    grouped: Seq<Seq<char>>,
    target: Seq<char>,
) -> Seq<Seq<char>> {
    Seq::new(
        links.len(),
        |p: int|
            if moved(ids, index, grouped, p) {
                target
            } else {
                links[p]
            },
    )
}

/// Whether `id` is one of the identifiers to absorb that repoint.
pub open spec fn absorbed(
    ids: Seq<Seq<char>>,
    index: Map<Seq<char>, Set<int>>,
    grouped: Seq<Seq<char>>,
    id: Seq<char>,
) -> bool {
    exists|k: int|
        0 <= k < grouped.len() && effective(ids, index, #[trigger] grouped[k]) && grouped[k]
            == id
}

/// A perimeter after a rule: if it names a network that is absorbed and
/// repoints, it names the target.
pub open spec fn reperimetered_one(
    perimeter: PerimeterView,
    ids: Seq<Seq<char>>,
    index: Map<Seq<char>, Set<int>>,
    grouped: Seq<Seq<char>>,
    target: Seq<char>,
    in_perimeters: bool,
) -> PerimeterView {
    if in_perimeters && perimeter.object_type == ObjectType::Network && absorbed(
        ids,
        index,
        grouped,
        perimeter.object_id,
    ) {
        PerimeterView {
            ticket_use_id: perimeter.ticket_use_id,
            object_type: perimeter.object_type,
            object_id: target,
        }
    } else {
        perimeter
    }
}

/// The perimeters after a rule. Where `in_perimeters` is false, the
/// category is not one that perimeters name, and they stay as they are.
pub open spec fn reperimetered(
    perimeters: Seq<PerimeterView>,
    ids: Seq<Seq<char>>,
    index: Map<Seq<char>, Set<int>>,
    grouped: Seq<Seq<char>>,
    target: Seq<char>,
    in_perimeters: bool,
) -> Seq<PerimeterView> {
    Seq::new(
        perimeters.len(),
        |q: int| reperimetered_one(perimeters[q], ids, index, grouped, target, in_perimeters),
    )
}

/// The issues for the identifiers to absorb that name no entity, in the
/// order of the list.
pub open spec fn missing_issues(grouped: Seq<Seq<char>>, ids: Seq<Seq<char>>, target: Seq<char>)
    -> Seq<Issue>
    decreases grouped.len(),
{
    if grouped.len() == 0 {
        Seq::empty()
    } else {
        let before = missing_issues(grouped.drop_last(), ids, target);
        if ids.contains(grouped.last()) {
            before
        } else {
            before.push(missing_issue(grouped.last(), target))
        }
    }
}

/// The issues that a rule adds to the report.
pub open spec fn rule_issues(
    ids: Seq<Seq<char>>,
    index: Map<Seq<char>, Set<int>>,
    grouped: Seq<Seq<char>>,
    target: Seq<char>,
) -> Seq<Issue> {
    if takes_effect(ids, index, grouped) {
        missing_issues(grouped, ids, target)
    } else {
        missing_issues(grouped, ids, target).push(unapplied_issue(target))
    }
}

/// Whether the target has to be created: no entity has its identifier,
/// and none that awaits insertion.
pub open spec fn needs_creation(state: PassState, target: Seq<char>) -> bool {
    !ids_of(state.entities).contains(target) && !ids_of(state.staged).contains(target)
}

/// Why the rule stops the run in this state, if it does.
pub open spec fn rule_failure(state: PassState, rule: RuleView) -> Option<RuleFailure> {
    match rule.target {
        Err(failure) => Some(failure),
        Ok(target) => if needs_creation(state, target) && rule.name is None {
            Some(RuleFailure::InvalidProperties(target))
        } else {
            None
        },
    }
}

/// The state after a rule that does not stop the run.
pub open spec fn after_rule(
    state: PassState,
    rule: RuleView,
    index: Map<Seq<char>, Set<int>>,
    in_perimeters: bool,
) -> PassState
    recommends
        rule_failure(state, rule) is None,
{
    let target = rule.target->Ok_0;
    let ids = ids_of(state.entities);
    PassState {
        entities: state.entities.filter(entity_unlisted(rule.grouped_from)),
        staged: if needs_creation(state, target) {
            state.staged.push(EntityView { id: target, name: rule.name->Some_0 })
        } else {
            state.staged
        },
        links: relinked(state.links, ids, index, rule.grouped_from, target),
        perimeters: reperimetered(
            state.perimeters,
            ids,
            index,
            rule.grouped_from,
            target,
            in_perimeters,
        ),
        report: state.report + rule_issues(ids, index, rule.grouped_from, target),
    }
}

/// No entity that awaits insertion has the identifier of an entity of the
/// collection, nor that of another one that awaits insertion.
pub open spec fn staging_sound(state: PassState) -> bool {
    &&& ids_of(state.staged).no_duplicates()
    &&& forall|a: int|
        0 <= a < state.staged.len() ==> !ids_of(state.entities).contains(
            #[trigger] ids_of(state.staged)[a],
        )
}

/// A rule that does not fail keeps the staging sound.
pub proof fn lemma_rule_keeps_staging_sound(
    state: PassState,
    rule: RuleView,
    index: Map<Seq<char>, Set<int>>,
    in_perimeters: bool,
)
    requires
        staging_sound(state),
        rule_failure(state, rule) is None,
    ensures
        staging_sound(after_rule(state, rule, index, in_perimeters)),
{
    let after = after_rule(state, rule, index, in_perimeters);
    let target = rule.target->Ok_0;
    assert forall|id: Seq<char>| ids_of(after.entities).contains(id) implies ids_of(
        state.entities,
    ).contains(id) by {
        let i = choose|i: int| 0 <= i < after.entities.len() && ids_of(after.entities)[i] == id;
        let entity = after.entities[i];
        assert(after.entities.contains(entity));
        state.entities.lemma_filter_contains_rev(entity_unlisted(rule.grouped_from), entity);
        let j = choose|j: int| 0 <= j < state.entities.len() && state.entities[j] == entity;
        assert(ids_of(state.entities)[j] == id);
    }
    if needs_creation(state, target) {
        let made = EntityView { id: target, name: rule.name->Some_0 };
        assert(ids_of(state.staged.push(made)) =~= ids_of(state.staged).push(target));
        crate::collection::lemma_push_keeps_distinct(ids_of(state.staged), target);
    }
    assert forall|a: int| 0 <= a < after.staged.len() implies !ids_of(after.entities).contains(
        #[trigger] ids_of(after.staged)[a],
    ) by {
        if a < state.staged.len() {
            assert(ids_of(after.staged)[a] == ids_of(state.staged)[a]);
        }
    }
}

/// The outcome of one more rule after `before`: nothing more once a rule
/// has failed.
pub open spec fn next_outcome(
    before: PassOutcome,
    rule: RuleView,
    index: Map<Seq<char>, Set<int>>,
    in_perimeters: bool,
) -> PassOutcome {
    if before.failure is Some {
        before
    } else {
        match rule_failure(before.state, rule) {
            Some(failure) => PassOutcome { state: before.state, failure: Some(failure) },
            None => PassOutcome {
                state: after_rule(before.state, rule, index, in_perimeters),
                failure: None,
            },
        }
    }
}

/// The outcome of the rules, applied in order up to the first that fails.
pub open spec fn after_rules(
    initial: PassState,
    rules: Seq<RuleView>,
    index: Map<Seq<char>, Set<int>>,
    in_perimeters: bool,
) -> PassOutcome
    decreases rules.len(),
{
    if rules.len() == 0 {
        PassOutcome { state: initial, failure: None }
    } else {
        next_outcome(
            after_rules(initial, rules.drop_last(), index, in_perimeters),
            rules.last(),
            index,
            in_perimeters,
        )
    }
}

/// The state with the created entities inserted after the others.
pub open spec fn inserted(state: PassState) -> PassState {
    PassState {
        entities: state.entities + state.staged,
        staged: Seq::empty(),
        links: state.links,
        perimeters: state.perimeters,
        report: state.report,
    }
}

/// The state with the created entities dropped.
pub open spec fn discarded(state: PassState) -> PassState {
    PassState {
        entities: state.entities,
        staged: Seq::empty(),
        links: state.links,
        perimeters: state.perimeters,
        report: state.report,
    }
}

/// The outcome of a pass: that of its rules; then, where none failed, the
/// insertion of the created entities, and where one failed, their loss.
pub open spec fn after_pass(
    initial: PassState,
    rules: Seq<RuleView>,
    index: Map<Seq<char>, Set<int>>,
    in_perimeters: bool,
) -> PassOutcome {
    let outcome = after_rules(initial, rules, index, in_perimeters);
    if outcome.failure is Some {
        PassOutcome { state: discarded(outcome.state), failure: outcome.failure }
    } else {
        PassOutcome { state: inserted(outcome.state), failure: None }
    }
}

/// Once a rule has failed, more rules change nothing.
pub proof fn lemma_failure_stays(
    initial: PassState,
    rules: Seq<RuleView>,
    failed: int,
    index: Map<Seq<char>, Set<int>>,
    in_perimeters: bool,
)
    requires
        0 <= failed <= rules.len(),
        after_rules(initial, rules.take(failed), index, in_perimeters).failure is Some,
    ensures
        after_rules(initial, rules, index, in_perimeters) == after_rules(
            initial,
            rules.take(failed),
            index,
            in_perimeters,
        ),
    decreases rules.len() - failed,
{
    if failed < rules.len() {
        assert(rules.take(failed + 1).drop_last() == rules.take(failed));
        lemma_failure_stays(initial, rules, failed + 1, index, in_perimeters);
    } else {
        assert(rules.take(failed) == rules);
    }
}

} // verus!
