//! Regroup rules on networks, commercial modes and physical modes, and
//! their application to a store.

use crate::apply_rules::json::{text_member, text_member_of, Lookup, LookupView};
use crate::apply_rules::pass_model::{
    absorbed, after_pass, after_rule, after_rules, discarded, effective, entity_unlisted,
    inserted, lemma_failure_stays, lemma_rule_keeps_staging_sound, missing_issues,
    missing_message, moved, relinked, reperimetered, reperimetered_one, rule_failure,
    rule_issues, staging_sound, takes_effect, unapplied_message, PassOutcome, PassState,
    RuleFailure, RuleView,
};
use crate::apply_rules::reference_index::{
    links_of, position_set, reference_map, rests_of, ReferenceIndex,
};
use crate::collection::{keys, lemma_filter_then_map, row_unlisted, texts, Arena};
use crate::model::Collections;
use crate::objects::{
    entity_views, ids_of, perimeter_views, CommercialMode, Consolidated, EntityView, Identified,
    Line, Linked, Network, ObjectType, PerimeterView, PhysicalMode, TicketUsePerimeter,
    VehicleJourney,
};
use crate::report::{Report, ReportCategory};
use serde_json::Value;
use vstd::prelude::*;
use vstd::string::StringExecFns;

verus! {

/// Why a rule stops the run.
#[derive(Debug)]
pub enum RuleError {
    /// The properties have no member under this key, which gives the
    /// identifier.
    KeyRequired(String),
    /// The member under this key, which gives the identifier, is not a
    /// string.
    MustBeFilled(String),
    /// The entity with this identifier has to be created, and the
    /// properties do not give its name as a string.
    InvalidProperties(String),
}

impl View for RuleError {
    type V = RuleFailure;

    open spec fn view(&self) -> RuleFailure {
        match self {
            RuleError::KeyRequired(key) => RuleFailure::KeyRequired(key@),
            RuleError::MustBeFilled(key) => RuleFailure::MustBeFilled(key@),
            RuleError::InvalidProperties(id) => RuleFailure::InvalidProperties(id@),
        }
    }
}

/// What the failure says to the user.
pub open spec fn failure_message(failure: RuleFailure) -> Seq<char> {
    match failure {
        RuleFailure::KeyRequired(key) => "Key \""@ + key + "\" is required"@,
        RuleFailure::MustBeFilled(key) => "Value for \""@ + key + "\" must be filled in"@,
        RuleFailure::InvalidProperties(id) => "The properties of \""@ + id
            + "\" must give a name"@,
    }
}

impl RuleError {
    /// What the error says to the user.
    pub fn message(&self) -> (message: String)
        ensures
            message@ == failure_message(self@),
    {
        match self {
            RuleError::KeyRequired(key) => {
                let mut message = String::from_str("Key \"");
                message.append(key.as_str());
                message.append("\" is required");
                message
            },
            RuleError::MustBeFilled(key) => {
                let mut message = String::from_str("Value for \"");
                message.append(key.as_str());
                message.append("\" must be filled in");
                message
            },
            RuleError::InvalidProperties(id) => {
                let mut message = String::from_str("The properties of \"");
                message.append(id.as_str());
                message.append("\" must give a name");
                message
            },
        }
    }
}

/// The identifier that a lookup under `key` gives, or why it gives none.
pub open spec fn target_of(lookup: LookupView, key: Seq<char>) -> Result<Seq<char>, RuleFailure> {
    match lookup {
        LookupView::Absent => Err(RuleFailure::KeyRequired(key)),
        LookupView::NotText => Err(RuleFailure::MustBeFilled(key)),
        LookupView::Text(id) => Ok(id),
    }
}

/// The display name that a lookup gives, if it gives one.
pub open spec fn name_of(lookup: LookupView) -> Option<Seq<char>> {
    match lookup {
        LookupView::Text(name) => Some(name),
        _ => None,
    }
}

/// The character sequence of an identifier, and the failure of an error.
pub open spec fn target_view(target: Result<String, RuleError>) -> Result<Seq<char>, RuleFailure> {
    match target {
        Ok(id) => Ok(id@),
        Err(error) => Err(error@),
    }
}

/// The identifier that a lookup under `id_key` gives: the text that was
/// found. A member that is missing or not a string is an error.
pub fn identifier_from(lookup: Lookup, id_key: &str) -> (target: Result<String, RuleError>)
    ensures
        target_view(target) == target_of(lookup@, id_key@),
{
    match lookup {
        Lookup::Absent => Err(RuleError::KeyRequired(id_key.to_owned())),
        Lookup::NotText => Err(RuleError::MustBeFilled(id_key.to_owned())),
        Lookup::Text(id) => Ok(id),
    }
}

/// The references of the dependents after those that the index lists
/// under `removed` are repointed to `target`.
pub open spec fn repointed_links(
    links: Seq<Seq<char>>,
    index: Map<Seq<char>, Set<int>>,
    removed: Seq<char>,
    target: Seq<char>,
) -> Seq<Seq<char>> {
    Seq::new(
        links.len(),
        |p: int|
            if index.dom().contains(removed) && index[removed].contains(p) {
                target
            } else {
                links[p]
            },
    )
}

/// A perimeter after those that name the network `removed` are repointed
/// to `target`.
pub open spec fn repointed_perimeter(perimeter: PerimeterView, removed: Seq<char>, target: Seq<char>)
    -> PerimeterView {
    if perimeter.object_type == ObjectType::Network && perimeter.object_id == removed {
        PerimeterView {
            ticket_use_id: perimeter.ticket_use_id,
            object_type: perimeter.object_type,
            object_id: target,
        }
    } else {
        perimeter
    }
}

/// The perimeters after those that name the network `removed` are
/// repointed to `target`.
pub open spec fn repointed_perimeters(
    perimeters: Seq<PerimeterView>,
    removed: Seq<char>,
    target: Seq<char>,
) -> Seq<PerimeterView> {
    Seq::new(perimeters.len(), |q: int| repointed_perimeter(perimeters[q], removed, target))
}

/// Repoints to `target` the perimeters that name the network `removed`.
pub fn repoint_perimeters(
    perimeters: &mut Vec<TicketUsePerimeter>,
    target: &String,
    removed: &String,
)
    ensures
        perimeter_views(final(perimeters)@) == repointed_perimeters(
            perimeter_views(old(perimeters)@),
            removed@,
            target@,
        ),
{
    let ghost before = perimeter_views(perimeters@);
    let mut q: usize = 0;
    while q < perimeters.len()
        invariant
            q <= perimeters@.len(),
            perimeters@.len() == before.len(),
            forall|k: int|
                0 <= k < q ==> #[trigger] perimeters@[k]@ == repointed_perimeter(
                    before[k],
                    removed@,
                    target@,
                ),
            forall|k: int| q <= k < before.len() ==> #[trigger] perimeters@[k]@ == before[k],
        decreases perimeters@.len() - q,
    {
        let ghost current = perimeters@;
        assert(current[q as int]@ == before[q as int]);
        if perimeters[q].object_type == ObjectType::Network && perimeters[q].object_id
            == *removed {
            let moved = TicketUsePerimeter {
                ticket_use_id: perimeters[q].ticket_use_id.clone(),
                object_type: ObjectType::Network,
                object_id: target.clone(),
            };
            perimeters[q] = moved;
        }
        assert forall|k: int| 0 <= k < q + 1 implies #[trigger] perimeters@[k]@
            == repointed_perimeter(before[k], removed@, target@) by {
            if k < q {
                assert(perimeters@[k] == current[k]);
            }
        }
        assert forall|k: int| q + 1 <= k < before.len() implies #[trigger] perimeters@[k]@
            == before[k] by {
            assert(perimeters@[k] == current[k]);
        }
        q += 1;
    }
    assert(perimeter_views(perimeters@) =~= repointed_perimeters(before, removed@, target@));
}

/// Repoints to `target` what refers to the entity `removed`: the
/// dependents that the index lists under its identifier and, for a
/// category that perimeters name, the perimeters that name it. An entity
/// without an entry in the index changes nothing, and `false` comes
/// back.
pub fn repoint<P: Consolidated, D: Linked<P>>(
    index: &ReferenceIndex,
    dependents: &mut Arena<D>,
    perimeters: &mut Vec<TicketUsePerimeter>,
    target: &String,
    removed: &String,
) -> (changed: bool)
    requires
        old(dependents).wf(),
        index.valid_for(old(dependents)@.len()),
    ensures
        final(dependents).wf(),
        changed == index@.dom().contains(removed@),
        keys(final(dependents)@) == keys(old(dependents)@),
        rests_of::<P, D>(final(dependents)@) == rests_of::<P, D>(old(dependents)@),
        links_of::<P, D>(final(dependents)@) == repointed_links(
            links_of::<P, D>(old(dependents)@),
            index@,
            removed@,
            target@,
        ),
        perimeter_views(final(perimeters)@) == if changed && P::in_perimeters() {
            repointed_perimeters(perimeter_views(old(perimeters)@), removed@, target@)
        } else {
            perimeter_views(old(perimeters)@)
        },
{
    let ghost before = dependents@;
    match index.get(removed) {
        None => {
            assert(links_of::<P, D>(before) =~= repointed_links(
                links_of::<P, D>(before),
                index@,
                removed@,
                target@,
            ));
            false
        },
        Some(positions) => {
            let mut j: usize = 0;
            while j < positions.len()
                invariant
                    j <= positions@.len(),
                    dependents.wf(),
                    dependents@.len() == before.len(),
                    position_set(positions@) == index@[removed@],
                    index@.dom().contains(removed@),
                    index.valid_for(before.len()),
                    forall|p: int|
                        0 <= p < before.len() ==> (#[trigger] dependents@[p]).key()
                            == before[p].key() && Linked::<P>::rest(&dependents@[p])
                            == Linked::<P>::rest(&before[p]),
                    forall|p: int|
                        0 <= p < before.len() ==> Linked::<P>::link(&#[trigger] dependents@[p])
                            == if exists|k: int| 0 <= k < j && positions@[k] == p {
                            target@
                        } else {
                            Linked::<P>::link(&before[p])
                        },
                decreases positions@.len() - j,
            {
                let position = positions[j];
                proof {
                    assert(position_set(positions@).contains(position as int));
                }
                let row = Linked::<P>::relinked(dependents.get(position), target.clone());
                let ghost current = dependents@;
                dependents.replace(position, row);
                proof {
                    assert forall|p: int| 0 <= p < before.len() implies Linked::<P>::link(
                        &#[trigger] dependents@[p],
                    ) == if exists|k: int| 0 <= k < j + 1 && positions@[k] == p {
                        target@
                    } else {
                        Linked::<P>::link(&before[p])
                    } by {
                        if p == position {
                            assert(positions@[j as int] == p);
                        } else {
                            assert(dependents@[p] == current[p]);
                            if exists|k: int| 0 <= k < j + 1 && positions@[k] == p {
                                let k = choose|k: int| 0 <= k < j + 1 && positions@[k] == p;
                                assert(k < j);
                            }
                        }
                    }
                }
                j += 1;
            }
            proof {
                assert(keys(dependents@) =~= keys(before));
                assert(rests_of::<P, D>(dependents@) =~= rests_of::<P, D>(before));
                assert forall|p: int| 0 <= p < before.len() implies links_of::<P, D>(
                    dependents@,
                )[p] == repointed_links(links_of::<P, D>(before), index@, removed@, target@)[p] by {
                    if index@[removed@].contains(p) {
                        let k = choose|k: int| 0 <= k < positions@.len() && positions@[k] == p;
                        assert(0 <= k < j && positions@[k] == p);
                    }
                    if exists|k: int| 0 <= k < j && positions@[k] == p {
                        let k = choose|k: int| 0 <= k < j && positions@[k] == p;
                        assert(position_set(positions@).contains(p));
                    }
                }
                assert(links_of::<P, D>(dependents@) =~= repointed_links(
                    links_of::<P, D>(before),
                    index@,
                    removed@,
                    target@,
                ));
            }
            if P::named_in_perimeters() {
                repoint_perimeters(perimeters, target, removed);
            }
            true
        },
    }
}

/// What a pass works on, read off the collections.
pub open spec fn pass_state<P: Consolidated, D: Linked<P>>(
    collection: Seq<P>,
    staged: Seq<P>,
    dependents: Seq<D>,
    perimeters: Seq<TicketUsePerimeter>,
    report: Report,
) -> PassState {
    PassState {
        entities: entity_views(collection),
        staged: entity_views(staged),
        links: links_of::<P, D>(dependents),
        perimeters: perimeter_views(perimeters),
        report: report@,
    }
}

/// The identifiers of the entities as specifications see them are those
/// of the rows.
pub proof fn lemma_ids_of_views<P: Consolidated>(rows: Seq<P>)
    ensures
        ids_of(entity_views(rows)) == keys(rows),
{
    assert(ids_of(entity_views(rows)) =~= keys(rows));
}

/// One more identifier to absorb: a dependent is repointed if it was
/// already, or if the new identifier repoints and the index lists the
/// dependent under it.
proof fn lemma_moved_step(
    ids: Seq<Seq<char>>,
    index: Map<Seq<char>, Set<int>>,
    grouped: Seq<Seq<char>>,
    i: int,
    p: int,
)
    requires
        0 <= i < grouped.len(),
    ensures
        moved(ids, index, grouped.take(i + 1), p) == (moved(ids, index, grouped.take(i), p) || (
        effective(ids, index, grouped[i]) && index[grouped[i]].contains(p))),
{
    let shorter = grouped.take(i);
    let longer = grouped.take(i + 1);
    if moved(ids, index, longer, p) {
        let k = choose|k: int|
            0 <= k < longer.len() && effective(ids, index, #[trigger] longer[k])
                && index[longer[k]].contains(p);
        if k < i {
            assert(shorter[k] == longer[k]);
        }
    }
    if moved(ids, index, shorter, p) {
        let k = choose|k: int|
            0 <= k < shorter.len() && effective(ids, index, #[trigger] shorter[k])
                && index[shorter[k]].contains(p);
        assert(longer[k] == shorter[k]);
    }
    if effective(ids, index, grouped[i]) && index[grouped[i]].contains(p) {
        assert(longer[i] == grouped[i]);
    }
}

/// One more identifier to absorb: an identifier is absorbed with effect
/// if it was already, or if it is the new one and that one repoints.
proof fn lemma_absorbed_step(
    ids: Seq<Seq<char>>,
    index: Map<Seq<char>, Set<int>>,
    grouped: Seq<Seq<char>>,
    i: int,
    id: Seq<char>,
)
    requires
        0 <= i < grouped.len(),
    ensures
        absorbed(ids, index, grouped.take(i + 1), id) == (absorbed(
            ids,
            index,
            grouped.take(i),
            id,
        ) || (effective(ids, index, grouped[i]) && grouped[i] == id)),
{
    let shorter = grouped.take(i);
    let longer = grouped.take(i + 1);
    if absorbed(ids, index, longer, id) {
        let k = choose|k: int|
            0 <= k < longer.len() && effective(ids, index, #[trigger] longer[k]) && longer[k]
                == id;
        if k < i {
            assert(shorter[k] == longer[k]);
        }
    }
    if absorbed(ids, index, shorter, id) {
        let k = choose|k: int|
            0 <= k < shorter.len() && effective(ids, index, #[trigger] shorter[k])
                && shorter[k] == id;
        assert(longer[k] == shorter[k]);
    }
    if effective(ids, index, grouped[i]) && grouped[i] == id {
        assert(longer[i] == grouped[i]);
    }
}

/// One more identifier to absorb: the list takes effect if it did
/// already, or if the new identifier repoints.
proof fn lemma_takes_effect_step(
    ids: Seq<Seq<char>>,
    index: Map<Seq<char>, Set<int>>,
    grouped: Seq<Seq<char>>,
    i: int,
)
    requires
        0 <= i < grouped.len(),
    ensures
        takes_effect(ids, index, grouped.take(i + 1)) == (takes_effect(
            ids,
            index,
            grouped.take(i),
        ) || effective(ids, index, grouped[i])),
{
    let shorter = grouped.take(i);
    let longer = grouped.take(i + 1);
    if takes_effect(ids, index, longer) {
        let k = choose|k: int|
            0 <= k < longer.len() && effective(ids, index, #[trigger] longer[k]);
        if k < i {
            assert(shorter[k] == longer[k]);
        }
    }
    if takes_effect(ids, index, shorter) {
        let k = choose|k: int|
            0 <= k < shorter.len() && effective(ids, index, #[trigger] shorter[k]);
        assert(longer[k] == shorter[k]);
    }
    if effective(ids, index, grouped[i]) {
        assert(longer[i] == grouped[i]);
    }
}

/// The message for an identifier to absorb that names no entity.
pub fn missing_text(id: &String, target: &String) -> (message: String)
    ensures
        message@ == missing_message(id@, target@),
{
    let mut message = String::from_str("The identifier \"");
    message.append(id.as_str());
    message.append("\" doesn't exist, and therefore cannot be regrouped in \"");
    message.append(target.as_str());
    message.append("\"");
    message
}

/// The message for a rule that repointed nothing.
pub fn unapplied_text(target: &String) -> (message: String)
    ensures
        message@ == unapplied_message(target@),
{
    let mut message = String::from_str("The rule on identifier \"");
    message.append(target.as_str());
    message.append("\" was not applied");
    message
}

/// Whether a row has the identifier `id`.
pub fn holds_id<T: Identified>(rows: &Vec<T>, id: &String) -> (found: bool)
    ensures
        found == keys(rows@).contains(id@),
{
    let mut i: usize = 0;
    while i < rows.len()
        invariant
            i <= rows@.len(),
            forall|j: int| 0 <= j < i ==> keys(rows@)[j] != id@,
        decreases rows@.len() - i,
    {
        if *rows[i].id() == *id {
            assert(keys(rows@)[i as int] == id@);
            return true;
        }
        i += 1;
    }
    false
}

/// A regroup rule: the properties of the target entity, and the
/// identifiers of the entities to absorb into it.
#[derive(Debug)]
pub struct ObjectProperties {
    properties: Value,
    grouped_from: Vec<String>,
}

impl ObjectProperties {
    /// The properties of the target entity.
    pub closed spec fn properties(&self) -> Value {
        self.properties
    }

    /// The identifiers of the entities to absorb.
    pub closed spec fn grouped(&self) -> Seq<Seq<char>> {
        texts(self.grouped_from@)
    }

    /// The rule as a pass on the category with the key `id_field` reads it.
    pub open spec fn rule_view(&self, id_field: Seq<char>) -> RuleView {
        RuleView {
            target: target_of(text_member_of(self.properties(), id_field), id_field),
            name: name_of(text_member_of(self.properties(), "name"@)),
            grouped_from: self.grouped(),
        }
    }

    /// The rule with these properties and this list of identifiers to
    /// absorb.
    pub fn new(properties: Value, grouped_from: Vec<String>) -> (rule: Self)
        ensures
            rule.properties() == properties,
            rule.grouped() == texts(grouped_from@),
    {
        ObjectProperties { properties, grouped_from }
    }

    /// The identifiers of the entities to absorb.
    pub fn grouped_from(&self) -> (listed: &Vec<String>)
        ensures
            texts(listed@) == self.grouped(),
    {
        &self.grouped_from
    }

    /// The identifier of the target: the string that the properties hold
    /// under `id_key`.
    pub fn check(&self, id_key: &str) -> (target: Result<String, RuleError>)
        ensures
            target_view(target) == self.rule_view(id_key@).target,
    {
        identifier_from(text_member(&self.properties, id_key), id_key)
    }
}

impl ObjectProperties {
    /// Absorbs the listed entities into the entity `id`: what refers to
    /// one of them that the collection holds is repointed to `id`, and
    /// each one that the collection does not hold is reported. Says
    /// whether anything was repointed.
    pub fn regroup<P: Consolidated, D: Linked<P>>(
        &self,
        id: &String,
        collection: &Arena<P>,
        report: &mut Report,
        index: &ReferenceIndex,
        dependents: &mut Arena<D>,
        perimeters: &mut Vec<TicketUsePerimeter>,
    ) -> (applied: Result<bool, RuleError>)
        requires
            collection.wf(),
            old(dependents).wf(),
            index.valid_for(old(dependents)@.len()),
        ensures
            final(dependents).wf(),
            applied matches Ok(changed) && changed == takes_effect(
                collection.ids(),
                index@,
                self.grouped(),
            ),
            keys(final(dependents)@) == keys(old(dependents)@),
            rests_of::<P, D>(final(dependents)@) == rests_of::<P, D>(old(dependents)@),
            links_of::<P, D>(final(dependents)@) == relinked(
                links_of::<P, D>(old(dependents)@),
                collection.ids(),
                index@,
                self.grouped(),
                id@,
            ),
            perimeter_views(final(perimeters)@) == reperimetered(
                perimeter_views(old(perimeters)@),
                collection.ids(),
                index@,
                self.grouped(),
                id@,
                P::in_perimeters(),
            ),
            final(report)@ == old(report)@ + missing_issues(
                self.grouped(),
                collection.ids(),
                id@,
            ),
    {
        let ghost ids = collection.ids();
        let ghost grouped = self.grouped();
        let ghost links = links_of::<P, D>(dependents@);
        let ghost views = perimeter_views(perimeters@);
        let ghost issues = report@;
        let mut changed = false;
        let mut i: usize = 0;
        proof {
            assert(grouped.take(0).len() == 0);
            assert(links =~= relinked(links, ids, index@, grouped.take(0), id@));
            assert(views =~= reperimetered(
                views,
                ids,
                index@,
                grouped.take(0),
                id@,
                P::in_perimeters(),
            ));
            assert(issues =~= issues + missing_issues(grouped.take(0), ids, id@));
        }
        while i < self.grouped_from.len()
            invariant
                i <= grouped.len(),
                grouped == texts(self.grouped_from@),
                ids == collection.ids(),
                collection.wf(),
                dependents.wf(),
                index.valid_for(dependents@.len()),
                keys(dependents@) == keys(old(dependents)@),
                rests_of::<P, D>(dependents@) == rests_of::<P, D>(old(dependents)@),
                changed == takes_effect(ids, index@, grouped.take(i as int)),
                links_of::<P, D>(dependents@) == relinked(
                    links,
                    ids,
                    index@,
                    grouped.take(i as int),
                    id@,
                ),
                perimeter_views(perimeters@) == reperimetered(
                    views,
                    ids,
                    index@,
                    grouped.take(i as int),
                    id@,
                    P::in_perimeters(),
                ),
                report@ == issues + missing_issues(grouped.take(i as int), ids, id@),
            decreases grouped.len() - i,
        {
            let grouped_id = &self.grouped_from[i];
            let ghost shorter = grouped.take(i as int);
            let ghost longer = grouped.take(i + 1);
            let ghost links_before = links_of::<P, D>(dependents@);
            let ghost views_before = perimeter_views(perimeters@);
            proof {
                assert(grouped[i as int] == grouped_id@);
                assert(longer.drop_last() == shorter);
                assert(longer.last() == grouped_id@);
                lemma_takes_effect_step(ids, index@, grouped, i as int);
            }
            if !collection.contains_id(grouped_id.as_str()) {
                report.add_error(missing_text(grouped_id, id), ReportCategory::ObjectNotFound);
                proof {
                    assert forall|p: int| 0 <= p < links.len() implies relinked(
                        links,
                        ids,
                        index@,
                        longer,
                        id@,
                    )[p] == relinked(links, ids, index@, shorter, id@)[p] by {
                        lemma_moved_step(ids, index@, grouped, i as int, p);
                    }
                    assert(relinked(links, ids, index@, longer, id@) =~= relinked(
                        links,
                        ids,
                        index@,
                        shorter,
                        id@,
                    ));
                    assert forall|q: int| 0 <= q < views.len() implies reperimetered(
                        views,
                        ids,
                        index@,
                        longer,
                        id@,
                        P::in_perimeters(),
                    )[q] == reperimetered(views, ids, index@, shorter, id@, P::in_perimeters())[q] by {
                        lemma_absorbed_step(ids, index@, grouped, i as int, views[q].object_id);
                    }
                    assert(reperimetered(views, ids, index@, longer, id@, P::in_perimeters())
                        =~= reperimetered(views, ids, index@, shorter, id@, P::in_perimeters()));
                    assert(report@ =~= issues + missing_issues(longer, ids, id@));
                }
            } else {
                let moved_now = repoint::<P, D>(index, dependents, perimeters, id, grouped_id);
                changed = moved_now || changed;
                proof {
                    assert forall|p: int| 0 <= p < links.len() implies links_of::<P, D>(
                        dependents@,
                    )[p] == relinked(links, ids, index@, longer, id@)[p] by {
                        lemma_moved_step(ids, index@, grouped, i as int, p);
                    }
                    assert(links_of::<P, D>(dependents@) =~= relinked(
                        links,
                        ids,
                        index@,
                        longer,
                        id@,
                    ));
                    assert forall|q: int| 0 <= q < views.len() implies perimeter_views(
                        perimeters@,
                    )[q] == reperimetered(views, ids, index@, longer, id@, P::in_perimeters())[q] by {
                        lemma_absorbed_step(ids, index@, grouped, i as int, views[q].object_id);
                        lemma_absorbed_step(ids, index@, grouped, i as int, id@);
                        assert(views_before[q] == reperimetered_one(
                            views[q],
                            ids,
                            index@,
                            shorter,
                            id@,
                            P::in_perimeters(),
                        ));
                    }
                    assert(perimeter_views(perimeters@) =~= reperimetered(
                        views,
                        ids,
                        index@,
                        longer,
                        id@,
                        P::in_perimeters(),
                    ));
                    assert(report@ =~= issues + missing_issues(longer, ids, id@));
                }
            }
            i += 1;
        }
        proof {
            assert(grouped.take(i as int) == grouped);
        }
        Ok(changed)
    }
}

/// The predicate "its identifier is not one of `listed`" on entities
/// agrees with the one on rows.
proof fn lemma_views_of_unlisted<P: Consolidated>(rows: Seq<P>, listed: Seq<Seq<char>>)
    ensures
        entity_views(rows.filter(row_unlisted(listed))) == entity_views(rows).filter(
            entity_unlisted(listed),
        ),
{
    let f = |row: P| EntityView { id: row.key(), name: row.named() };
    lemma_filter_then_map(rows, f, row_unlisted::<P>(listed), entity_unlisted(listed));
    assert(entity_views(rows.filter(row_unlisted(listed))) =~= rows.filter(
        row_unlisted(listed),
    ).map_values(f));
    assert(entity_views(rows) =~= rows.map_values(f));
}

impl ObjectProperties {
    /// Applies the rule. The identifier of the target is read from the
    /// properties; where no entity has it and none awaits insertion, the
    /// target is created from the properties and awaits insertion in
    /// `staged`. Then the listed entities are absorbed into the target, a
    /// rule that repointed nothing is reported, and the listed entities
    /// leave the collection. A rule that fails changes nothing.
    pub fn apply<P: Consolidated, D: Linked<P>>(
        &self,
        collection: &mut Arena<P>,
        report: &mut Report,
        index: &ReferenceIndex,
        dependents: &mut Arena<D>,
        perimeters: &mut Vec<TicketUsePerimeter>,
        staged: &mut Vec<P>,
    ) -> (done: Result<(), RuleError>)
        requires
            old(collection).wf(),
            old(dependents).wf(),
            index.valid_for(old(dependents)@.len()),
        ensures
            final(collection).wf(),
            final(dependents).wf(),
            keys(final(dependents)@) == keys(old(dependents)@),
            rests_of::<P, D>(final(dependents)@) == rests_of::<P, D>(old(dependents)@),
            done matches Err(error) ==> {
                &&& rule_failure(
                    pass_state::<P, D>(
                        old(collection)@,
                        old(staged)@,
                        old(dependents)@,
                        old(perimeters)@,
                        *old(report),
                    ),
                    self.rule_view(P::id_field()),
                ) == Some(error@)
                &&& final(collection)@ == old(collection)@
                &&& final(staged)@ == old(staged)@
                &&& final(dependents)@ == old(dependents)@
                &&& final(perimeters)@ == old(perimeters)@
                &&& final(report)@ == old(report)@
            },
            done is Ok ==> {
                &&& rule_failure(
                    pass_state::<P, D>(
                        old(collection)@,
                        old(staged)@,
                        old(dependents)@,
                        old(perimeters)@,
                        *old(report),
                    ),
                    self.rule_view(P::id_field()),
                ) is None
                &&& pass_state::<P, D>(
                    final(collection)@,
                    final(staged)@,
                    final(dependents)@,
                    final(perimeters)@,
                    *final(report),
                ) == after_rule(
                    pass_state::<P, D>(
                        old(collection)@,
                        old(staged)@,
                        old(dependents)@,
                        old(perimeters)@,
                        *old(report),
                    ),
                    self.rule_view(P::id_field()),
                    index@,
                    P::in_perimeters(),
                )
            },
    {
        let ghost before = pass_state::<P, D>(
            collection@,
            staged@,
            dependents@,
            perimeters@,
            *report,
        );
        let ghost rule = self.rule_view(P::id_field());
        let ghost rows = collection@;
        proof {
            lemma_ids_of_views(collection@);
            lemma_ids_of_views(staged@);
        }
        let id = match self.check(P::id_key()) {
            Ok(id) => id,
            Err(error) => {
                return Err(error);
            },
        };
        if !collection.contains_id(id.as_str()) && !holds_id(staged, &id) {
            match text_member(&self.properties, "name") {
                Lookup::Text(name) => {
                    let ghost waiting = staged@;
                    let made = P::create(id.clone(), name);
                    staged.push(made);
                    assert(entity_views(staged@) =~= entity_views(waiting).push(
                        EntityView { id: id@, name: name@ },
                    ));
                },
                _ => {
                    return Err(RuleError::InvalidProperties(id));
                },
            }
        }
        let changed = match self.regroup::<P, D>(&id, collection, report, index, dependents, perimeters) {
            Ok(changed) => changed,
            Err(error) => {
                return Err(error);
            },
        };
        if !changed {
            report.add_error(unapplied_text(&id), ReportCategory::RuleNotApplied);
        }
        collection.remove_ids(&self.grouped_from);
        proof {
            lemma_views_of_unlisted(rows, self.grouped());
            assert(report@ =~= before.report + rule_issues(
                ids_of(before.entities),
                index@,
                rule.grouped_from,
                id@,
            ));
        }
        Ok(())
    }
}

/// The rules as a pass on the category with the key `id_field` reads them.
pub open spec fn rule_views(rules: Seq<ObjectProperties>, id_field: Seq<char>) -> Seq<RuleView> {
    rules.map_values(|rule: ObjectProperties| rule.rule_view(id_field))
}

/// Applies the rules of one category in order, up to the first that
/// fails, and then inserts the entities that they created after those
/// that the collection holds. Where a rule fails, the entities created so
/// far are lost, and what the rules before it did stays.
pub fn apply_category<P: Consolidated, D: Linked<P>>(
    rules: &Vec<ObjectProperties>,
    index: &ReferenceIndex,
    collection: &mut Arena<P>,
    dependents: &mut Arena<D>,
    perimeters: &mut Vec<TicketUsePerimeter>,
    report: &mut Report,
) -> (done: Result<(), RuleError>)
    requires
        old(collection).wf(),
        old(dependents).wf(),
        index.valid_for(old(dependents)@.len()),
    ensures
        final(collection).wf(),
        final(dependents).wf(),
        keys(final(dependents)@) == keys(old(dependents)@),
        rests_of::<P, D>(final(dependents)@) == rests_of::<P, D>(old(dependents)@),
        done matches Err(error) ==> after_pass(
            pass_state::<P, D>(
                old(collection)@,
                Seq::empty(),
                old(dependents)@,
                old(perimeters)@,
                *old(report),
            ),
            rule_views(rules@, P::id_field()),
            index@,
            P::in_perimeters(),
        ).failure == Some(error@),
        done is Ok ==> after_pass(
            pass_state::<P, D>(
                old(collection)@,
                Seq::empty(),
                old(dependents)@,
                old(perimeters)@,
                *old(report),
            ),
            rule_views(rules@, P::id_field()),
            index@,
            P::in_perimeters(),
        ).failure is None,
        pass_state::<P, D>(
            final(collection)@,
            Seq::empty(),
            final(dependents)@,
            final(perimeters)@,
            *final(report),
        ) == after_pass(
            pass_state::<P, D>(
                old(collection)@,
                Seq::empty(),
                old(dependents)@,
                old(perimeters)@,
                *old(report),
            ),
            rule_views(rules@, P::id_field()),
            index@,
            P::in_perimeters(),
        ).state,
{
    let ghost initial = pass_state::<P, D>(
        collection@,
        Seq::empty(),
        dependents@,
        perimeters@,
        *report,
    );
    let ghost views = rule_views(rules@, P::id_field());
    let mut staged: Vec<P> = Vec::new();
    let mut k: usize = 0;
    proof {
        assert(views.take(0).len() == 0);
        assert(entity_views(staged@) =~= Seq::<EntityView>::empty());
        assert(ids_of(initial.staged) =~= Seq::<Seq<char>>::empty());
    }
    while k < rules.len()
        invariant
            k <= rules@.len(),
            views == rule_views(rules@, P::id_field()),
            initial == pass_state::<P, D>(
                old(collection)@,
                Seq::empty(),
                old(dependents)@,
                old(perimeters)@,
                *old(report),
            ),
            dependents@.len() == old(dependents)@.len(),
            collection.wf(),
            dependents.wf(),
            index.valid_for(dependents@.len()),
            keys(dependents@) == keys(old(dependents)@),
            rests_of::<P, D>(dependents@) == rests_of::<P, D>(old(dependents)@),
            after_rules(initial, views.take(k as int), index@, P::in_perimeters())
                == (PassOutcome {
                state: pass_state::<P, D>(
                    collection@,
                    staged@,
                    dependents@,
                    perimeters@,
                    *report,
                ),
                failure: None,
            }),
            staging_sound(
                pass_state::<P, D>(collection@, staged@, dependents@, perimeters@, *report),
            ),
        decreases rules@.len() - k,
    {
        let ghost state = pass_state::<P, D>(
            collection@,
            staged@,
            dependents@,
            perimeters@,
            *report,
        );
        proof {
            assert(views.take(k + 1).drop_last() == views.take(k as int));
            assert(views.take(k + 1).last() == rules@[k as int].rule_view(P::id_field()));
        }
        match rules[k].apply::<P, D>(collection, report, index, dependents, perimeters, &mut staged) {
            Ok(()) => {
                proof {
                    assert(keys(dependents@).len() == dependents@.len());
                    assert(keys(old(dependents)@).len() == old(dependents)@.len());
                    lemma_rule_keeps_staging_sound(
                        state,
                        rules@[k as int].rule_view(P::id_field()),
                        index@,
                        P::in_perimeters(),
                    );
                }
            },
            Err(error) => {
                proof {
                    assert(after_rules(initial, views.take(k + 1), index@, P::in_perimeters())
                        == (PassOutcome { state, failure: Some(error@) }));
                    lemma_failure_stays(
                        initial,
                        views,
                        k as int + 1,
                        index@,
                        P::in_perimeters(),
                    );
                    assert(entity_views(Seq::<P>::empty()) =~= Seq::<EntityView>::empty());
                    assert(perimeter_views(perimeters@) == state.perimeters);
                    assert(links_of::<P, D>(dependents@) == state.links);
                    assert(pass_state::<P, D>(
                        collection@,
                        Seq::empty(),
                        dependents@,
                        perimeters@,
                        *report,
                    ) == discarded(state));
                }
                return Err(error);
            },
        }
        k += 1;
    }
    proof {
        assert(views.take(k as int) == views);
    }
    let ghost base = collection@;
    let ghost created = staged@;
    let ghost state = pass_state::<P, D>(collection@, staged@, dependents@, perimeters@, *report);
    proof {
        lemma_ids_of_views(base);
        lemma_ids_of_views(created);
    }
    let mut done: Ghost<int> = Ghost(0);
    while staged.len() > 0
        invariant
            0 <= done@ <= created.len(),
            collection.wf(),
            collection@ == base + created.take(done@),
            staged@ == created.skip(done@),
            keys(created).no_duplicates(),
            forall|a: int| 0 <= a < created.len() ==> !keys(base).contains(#[trigger] keys(created)[a]),
        decreases staged@.len(),
    {
        proof {
            assert(staged@[0] == created[done@]);
            let key = created[done@].key();
            assert(keys(created)[done@] == key);
            if keys(collection@).contains(key) {
                let j = choose|j: int| 0 <= j < collection@.len() && keys(collection@)[j] == key;
                if j < base.len() {
                    assert(keys(base)[j] == key);
                } else {
                    assert(keys(created)[j - base.len()] == key);
                }
            }
        }
        let entity = staged.remove(0);
        let refused = collection.push(entity);
        proof {
            assert(refused is None);
            assert(created.take(done@ + 1) == created.take(done@).push(created[done@]));
            assert(created.skip(done@).remove(0) == created.skip(done@ + 1));
            assert(collection@ == base + created.take(done@ + 1));
            done@ = done@ + 1;
        }
    }
    proof {
        assert(created.take(done@) == created);
        assert(entity_views(base + created) =~= entity_views(base) + entity_views(created));
        assert(entity_views(staged@) =~= Seq::<EntityView>::empty());
        assert(pass_state::<P, D>(
            collection@,
            Seq::empty(),
            dependents@,
            perimeters@,
            *report,
        ) == inserted(state));
    }
    Ok(())
}

/// The rules of a run: for each category, its rules in the order of the
/// rule file, or none where the file does not name the category.
#[derive(Debug)]
pub struct ObjectRuleConfiguration {
    pub networks_rules: Option<Vec<ObjectProperties>>,
    pub commercial_modes_rules: Option<Vec<ObjectProperties>>,
    pub physical_modes_rules: Option<Vec<ObjectProperties>>,
}

/// The rules of a run with, for each category that has rules, the
/// reference index of the store as it was when the rules were loaded.
#[derive(Debug)]
pub struct ObjectRule {
    configuration: ObjectRuleConfiguration,
    lines_by_network: Option<ReferenceIndex>,
    lines_by_commercial_mode: Option<ReferenceIndex>,
    vjs_by_physical_mode: Option<ReferenceIndex>,
}

/// The outcome of the pass of one category: that of its rules where the
/// category has rules and an index, and no change where it has none.
pub open spec fn stage(
    initial: PassState,
    rules: Option<Vec<ObjectProperties>>,
    index: Option<ReferenceIndex>,
    id_field: Seq<char>,
    in_perimeters: bool,
) -> PassOutcome {
    match (rules, index) {
        (Some(rules), Some(index)) => after_pass(
            initial,
            rule_views(rules@, id_field),
            index@,
            in_perimeters,
        ),
        _ => PassOutcome { state: initial, failure: None },
    }
}

/// The outcome of a stage that comes after another: nothing happens once
/// a pass has failed.
pub open spec fn later_stage(
    earlier: PassOutcome,
    initial: PassState,
    rules: Option<Vec<ObjectProperties>>,
    index: Option<ReferenceIndex>,
    id_field: Seq<char>,
    in_perimeters: bool,
) -> PassOutcome {
    if earlier.failure is Some {
        PassOutcome { state: initial, failure: earlier.failure }
    } else {
        stage(initial, rules, index, id_field, in_perimeters)
    }
}

/// The outcomes of the three passes of a run.
pub struct Consolidation {
    pub networks: PassOutcome,
    pub commercial_modes: PassOutcome,
    pub physical_modes: PassOutcome,
}

/// Whether the index, if there is one, is that of these identifiers and
/// these references, and there is one just where there are rules.
pub open spec fn index_built(
    index: Option<ReferenceIndex>,
    rules: Option<Vec<ObjectProperties>>,
    ids: Seq<Seq<char>>,
    links: Seq<Seq<char>>,
) -> bool {
    &&& index is Some <==> rules is Some
    &&& index matches Some(built) ==> built@ == reference_map(ids, links)
}

/// Whether every position of the index, if there is one, is below `count`.
pub open spec fn index_fits(index: Option<ReferenceIndex>, count: nat) -> bool {
    index matches Some(built) ==> built.valid_for(count)
}

impl ObjectRule {
    /// The rules.
    pub closed spec fn configuration(&self) -> ObjectRuleConfiguration {
        self.configuration
    }

    /// The index of the lines by network, where networks have rules.
    pub closed spec fn lines_by_network(&self) -> Option<ReferenceIndex> {
        self.lines_by_network
    }

    /// The index of the lines by commercial mode, where commercial modes
    /// have rules.
    pub closed spec fn lines_by_commercial_mode(&self) -> Option<ReferenceIndex> {
        self.lines_by_commercial_mode
    }

    /// The index of the vehicle journeys by physical mode, where physical
    /// modes have rules.
    pub closed spec fn vjs_by_physical_mode(&self) -> Option<ReferenceIndex> {
        self.vjs_by_physical_mode
    }

    /// The indexes are those of `collections`, one for each category that
    /// has rules.
    pub open spec fn built_from(&self, collections: Collections) -> bool {
        &&& index_built(
            self.lines_by_network(),
            self.configuration().networks_rules,
            collections.networks.ids(),
            links_of::<Network, Line>(collections.lines@),
        )
        &&& index_built(
            self.lines_by_commercial_mode(),
            self.configuration().commercial_modes_rules,
            collections.commercial_modes.ids(),
            links_of::<CommercialMode, Line>(collections.lines@),
        )
        &&& index_built(
            self.vjs_by_physical_mode(),
            self.configuration().physical_modes_rules,
            collections.physical_modes.ids(),
            links_of::<PhysicalMode, VehicleJourney>(collections.vehicle_journeys@),
        )
    }

    /// The positions of the indexes are positions of the lines and of the
    /// vehicle journeys of `collections`.
    pub open spec fn fits(&self, collections: Collections) -> bool {
        &&& index_fits(self.lines_by_network(), collections.lines@.len())
        &&& index_fits(self.lines_by_commercial_mode(), collections.lines@.len())
        &&& index_fits(self.vjs_by_physical_mode(), collections.vehicle_journeys@.len())
    }

    /// The outcomes of the three passes of a run on `collections`:
    /// networks, then commercial modes, then physical modes. Each pass
    /// takes the perimeters and the report as the one before left them.
    pub open spec fn consolidation(&self, collections: Collections, report: Report)
        -> Consolidation {
        let networks = stage(
            pass_state::<Network, Line>(
                collections.networks@,
                Seq::empty(),
                collections.lines@,
                collections.ticket_use_perimeters@,
                report,
            ),
            self.configuration().networks_rules,
            self.lines_by_network(),
            Network::id_field(),
            Network::in_perimeters(),
        );
        let commercial_modes = later_stage(
            networks,
            PassState {
                entities: entity_views(collections.commercial_modes@),
                staged: Seq::empty(),
                links: links_of::<CommercialMode, Line>(collections.lines@),
                perimeters: networks.state.perimeters,
                report: networks.state.report,
            },
            self.configuration().commercial_modes_rules,
            self.lines_by_commercial_mode(),
            CommercialMode::id_field(),
            CommercialMode::in_perimeters(),
        );
        let physical_modes = later_stage(
            commercial_modes,
            PassState {
                entities: entity_views(collections.physical_modes@),
                staged: Seq::empty(),
                links: links_of::<PhysicalMode, VehicleJourney>(collections.vehicle_journeys@),
                perimeters: commercial_modes.state.perimeters,
                report: commercial_modes.state.report,
            },
            self.configuration().physical_modes_rules,
            self.vjs_by_physical_mode(),
            PhysicalMode::id_field(),
            PhysicalMode::in_perimeters(),
        );
        Consolidation { networks, commercial_modes, physical_modes }
    }

    /// The rules with the reference indexes of `collections`: of the
    /// lines by network, of the lines by commercial mode and of the
    /// vehicle journeys by physical mode, each one only where its category
    /// has rules.
    pub fn new(configuration: ObjectRuleConfiguration, collections: &Collections) -> (rule: Self)
        ensures
            rule.configuration() == configuration,
            rule.built_from(*collections),
            rule.fits(*collections),
    {
        let lines_by_network = if configuration.networks_rules.is_some() {
            Some(ReferenceIndex::build::<Network, Line>(&collections.networks, &collections.lines))
        } else {
            None
        };
        let lines_by_commercial_mode = if configuration.commercial_modes_rules.is_some() {
            Some(
                ReferenceIndex::build::<CommercialMode, Line>(
                    &collections.commercial_modes,
                    &collections.lines,
                ),
            )
        } else {
            None
        };
        let vjs_by_physical_mode = if configuration.physical_modes_rules.is_some() {
            Some(
                ReferenceIndex::build::<PhysicalMode, VehicleJourney>(
                    &collections.physical_modes,
                    &collections.vehicle_journeys,
                ),
            )
        } else {
            None
        };
        ObjectRule {
            configuration,
            lines_by_network,
            lines_by_commercial_mode,
            vjs_by_physical_mode,
        }
    }

    /// Applies the rules to `collections`: those on networks, then those
    /// on commercial modes, then those on physical modes, each category
    /// in one pass. The first rule that fails stops the run.
    pub fn apply_rules(&self, collections: &mut Collections, report: &mut Report) -> (done: Result<
        (),
        RuleError,
    >)
        requires
            old(collections).wf(),
            self.fits(*old(collections)),
        ensures
            final(collections).wf(),
            done matches Err(error) ==> self.consolidation(
                *old(collections),
                *old(report),
            ).physical_modes.failure == Some(error@),
            done is Ok ==> self.consolidation(
                *old(collections),
                *old(report),
            ).physical_modes.failure is None,
            entity_views(final(collections).networks@) == self.consolidation(
                *old(collections),
                *old(report),
            ).networks.state.entities,
            links_of::<Network, Line>(final(collections).lines@) == self.consolidation(
                *old(collections),
                *old(report),
            ).networks.state.links,
            entity_views(final(collections).commercial_modes@) == self.consolidation(
                *old(collections),
                *old(report),
            ).commercial_modes.state.entities,
            links_of::<CommercialMode, Line>(final(collections).lines@) == self.consolidation(
                *old(collections),
                *old(report),
            ).commercial_modes.state.links,
            entity_views(final(collections).physical_modes@) == self.consolidation(
                *old(collections),
                *old(report),
            ).physical_modes.state.entities,
            links_of::<PhysicalMode, VehicleJourney>(final(collections).vehicle_journeys@)
                == self.consolidation(*old(collections), *old(report)).physical_modes.state.links,
            perimeter_views(final(collections).ticket_use_perimeters@) == self.consolidation(
                *old(collections),
                *old(report),
            ).physical_modes.state.perimeters,
            final(report)@ == self.consolidation(
                *old(collections),
                *old(report),
            ).physical_modes.state.report,
            keys(final(collections).lines@) == keys(old(collections).lines@),
            keys(final(collections).vehicle_journeys@) == keys(old(collections).vehicle_journeys@),
            final(collections).stop_areas == old(collections).stop_areas,
            final(collections).tickets == old(collections).tickets,
            final(collections).ticket_uses == old(collections).ticket_uses,
            final(collections).ticket_prices == old(collections).ticket_prices,
            final(collections).ticket_use_restrictions == old(collections).ticket_use_restrictions,
    {
        let ghost plan = self.consolidation(*collections, *report);
        let ghost lines = collections.lines@;
        proof {
            assert(entity_views(Seq::<Network>::empty()) =~= Seq::<EntityView>::empty());
            assert(entity_views(Seq::<CommercialMode>::empty()) =~= Seq::<EntityView>::empty());
            assert(entity_views(Seq::<PhysicalMode>::empty()) =~= Seq::<EntityView>::empty());
        }
        match &self.configuration.networks_rules {
            Some(rules) => match &self.lines_by_network {
                Some(index) => {
                    match apply_category::<Network, Line>(
                        rules,
                        index,
                        &mut collections.networks,
                        &mut collections.lines,
                        &mut collections.ticket_use_perimeters,
                        report,
                    ) {
                        Ok(()) => {},
                        Err(error) => {
                            proof {
                                lemma_commercial_modes_kept(lines, collections.lines@);
                            }
                            return Err(error);
                        },
                    }
                },
                None => {},
            },
            None => {},
        }
        proof {
            lemma_commercial_modes_kept(lines, collections.lines@);
            assert(keys(collections.lines@).len() == collections.lines@.len());
            assert(keys(lines).len() == lines.len());
        }
        let ghost lines_then = collections.lines@;
        match &self.configuration.commercial_modes_rules {
            Some(rules) => match &self.lines_by_commercial_mode {
                Some(index) => {
                    match apply_category::<CommercialMode, Line>(
                        rules,
                        index,
                        &mut collections.commercial_modes,
                        &mut collections.lines,
                        &mut collections.ticket_use_perimeters,
                        report,
                    ) {
                        Ok(()) => {},
                        Err(error) => {
                            proof {
                                lemma_networks_kept(lines_then, collections.lines@);
                            }
                            return Err(error);
                        },
                    }
                },
                None => {},
            },
            None => {},
        }
        proof {
            lemma_networks_kept(lines_then, collections.lines@);
        }
        match &self.configuration.physical_modes_rules {
            Some(rules) => match &self.vjs_by_physical_mode {
                Some(index) => {
                    match apply_category::<PhysicalMode, VehicleJourney>(
                        rules,
                        index,
                        &mut collections.physical_modes,
                        &mut collections.vehicle_journeys,
                        &mut collections.ticket_use_perimeters,
                        report,
                    ) {
                        Ok(()) => {},
                        Err(error) => {
                            return Err(error);
                        },
                    }
                },
                None => {},
            },
            None => {},
        }
        Ok(())
    }
}

/// Lines whose attributes other than the network are the same have the
/// same commercial modes.
proof fn lemma_commercial_modes_kept(before: Seq<Line>, after: Seq<Line>)
    requires
        rests_of::<Network, Line>(after) == rests_of::<Network, Line>(before),
    ensures
        links_of::<CommercialMode, Line>(after) == links_of::<CommercialMode, Line>(before),
{
    assert(rests_of::<Network, Line>(after).len() == after.len());
    assert(rests_of::<Network, Line>(before).len() == before.len());
    assert forall|p: int| 0 <= p < after.len() implies links_of::<CommercialMode, Line>(after)[p]
        == links_of::<CommercialMode, Line>(before)[p] by {
        assert(rests_of::<Network, Line>(after)[p] == rests_of::<Network, Line>(before)[p]);
        assert(rests_of::<Network, Line>(after)[p][1] == after[p].commercial_mode_id@);
        assert(rests_of::<Network, Line>(before)[p][1] == before[p].commercial_mode_id@);
    }
    assert(links_of::<CommercialMode, Line>(after) =~= links_of::<CommercialMode, Line>(before));
}

/// Lines whose attributes other than the commercial mode are the same
/// have the same networks.
proof fn lemma_networks_kept(before: Seq<Line>, after: Seq<Line>)
    requires
        rests_of::<CommercialMode, Line>(after) == rests_of::<CommercialMode, Line>(before),
    ensures
        links_of::<Network, Line>(after) == links_of::<Network, Line>(before),
{
    assert(rests_of::<CommercialMode, Line>(after).len() == after.len());
    assert(rests_of::<CommercialMode, Line>(before).len() == before.len());
    assert forall|p: int| 0 <= p < after.len() implies links_of::<Network, Line>(after)[p]
        == links_of::<Network, Line>(before)[p] by {
        assert(rests_of::<CommercialMode, Line>(after)[p] == rests_of::<CommercialMode, Line>(
            before,
        )[p]);
        assert(rests_of::<CommercialMode, Line>(after)[p][1] == after[p].network_id@);
        assert(rests_of::<CommercialMode, Line>(before)[p][1] == before[p].network_id@);
    }
    assert(links_of::<Network, Line>(after) =~= links_of::<Network, Line>(before));
}

} // verus!
