//! Import of a fare bundle into a store: see [`merge_fare`].

use crate::collection::{first_repeat, is_listed, keys, texts, Arena};
use crate::model::Collections;
use crate::objects::{
    Identified, ObjectType, PerimeterView, RestrictionType, RestrictionView, Ticket,
    TicketPrice, TicketUse, TicketUsePerimeter, TicketUseRestriction,
};
use crate::report::{Issue, Report, ReportCategory};
use vstd::prelude::*;
use vstd::string::StringExecFns;

verus! {

/// Why the import of a fare bundle stops.
#[derive(Debug)]
pub enum FareError {
    /// The bundle does not hold the table of this name.
    NotFound(String),
    /// In the table of this name, this identifier occurs twice.
    IdentifierAlreadyExists(String, String),
}

/// Why the import of a fare bundle stops, as specifications see it.
pub enum FareFailure {
    NotFound(Seq<char>),
    IdentifierAlreadyExists(Seq<char>, Seq<char>),
}

impl View for FareError {
    type V = FareFailure;

    open spec fn view(&self) -> FareFailure {
        match self {
            FareError::NotFound(file) => FareFailure::NotFound(file@),
            FareError::IdentifierAlreadyExists(file, id) => FareFailure::IdentifierAlreadyExists(
                file@,
                id@,
            ),
        }
    }
}

/// What the failure says to the user.
pub open spec fn fare_failure_message(failure: FareFailure) -> Seq<char> {
    match failure {
        FareFailure::NotFound(file) => file + " not found"@,
        FareFailure::IdentifierAlreadyExists(file, id) => "identifier "@ + id
            + " already exists in "@ + file,
    }
}

impl FareError {
    /// What the error says to the user.
    pub fn message(&self) -> (message: String)
        ensures
            message@ == fare_failure_message(self@),
    {
        match self {
            FareError::NotFound(file) => {
                let mut message = file.clone();
                message.append(" not found");
                message
            },
            FareError::IdentifierAlreadyExists(file, id) => {
                let mut message = String::from_str("identifier ");
                message.append(id.as_str());
                message.append(" already exists in ");
                message.append(file.as_str());
                message
            },
        }
    }
}

/// The tables of a fare bundle, each with its rows in the order of the
/// file, or none where the bundle does not hold the table.
#[derive(Debug)]
pub struct FareBundle {
    pub tickets: Option<Vec<Ticket>>,
    pub ticket_uses: Option<Vec<TicketUse>>,
    pub ticket_prices: Option<Vec<TicketPrice>>,
    pub ticket_use_perimeters: Option<Vec<TicketUsePerimeter>>,
    pub ticket_use_restrictions: Option<Vec<TicketUseRestriction>>,
}

/// At most one position of a sequence is the first at which an element
/// occurs for the second time.
pub proof fn lemma_first_repeat_unique(ids: Seq<Seq<char>>, a: int, b: int)
    requires
        first_repeat(ids, a),
        first_repeat(ids, b),
    ensures
        a == b,
{
    if a < b {
        let j = choose|j: int| 0 <= j < ids.take(a).len() && ids.take(a)[j] == ids[a];
        assert(ids.take(b)[j] == ids.take(b)[a]);
    }
    if b < a {
        let j = choose|j: int| 0 <= j < ids.take(b).len() && ids.take(b)[j] == ids[b];
        assert(ids.take(a)[j] == ids.take(a)[b]);
    }
}

/// Why a table with identifiers cannot be taken: it is missing, or an
/// identifier occurs twice in it, and then the first one that repeats an
/// earlier one is named.
pub open spec fn keyed_table_failure<T: Identified>(table: Option<Vec<T>>, file_name: Seq<char>)
    -> Option<FareFailure> {
    match table {
        None => Some(FareFailure::NotFound(file_name)),
        Some(rows) => if keys(rows@).no_duplicates() {
            None
        } else {
            Some(
                FareFailure::IdentifierAlreadyExists(
                    file_name,
                    keys(rows@)[choose|at: int| first_repeat(keys(rows@), at)],
                ),
            )
        },
    }
}

/// The collection of a table with identifiers. A table that is missing is
/// an error, and so is one in which an identifier occurs twice.
pub fn fill_collection_with_id<T: Identified>(table: Option<Vec<T>>, file_name: &str) -> (filled:
    Result<Arena<T>, FareError>)
    ensures
        filled matches Ok(arena) ==> keyed_table_failure(table, file_name@) is None && arena.wf()
            && arena@ == table->Some_0@,
        filled matches Err(error) ==> keyed_table_failure(table, file_name@) == Some(error@),
{
    match table {
        None => Err(FareError::NotFound(file_name.to_owned())),
        Some(rows) => {
            let ghost ids = keys(rows@);
            match Arena::from_rows(rows) {
                Ok(arena) => Ok(arena),
                Err(id) => {
                    proof {
                        let at = choose|at: int| #[trigger]
                            first_repeat(ids, at) && ids[at] == id@;
                        let chosen = choose|at: int| first_repeat(ids, at);
                        lemma_first_repeat_unique(ids, at, chosen);
                    }
                    Err(FareError::IdentifierAlreadyExists(file_name.to_owned(), id))
                },
            }
        },
    }
}

/// The rows of a table without identifiers. A table that is missing is an
/// error.
pub fn fill_collection<T>(table: Option<Vec<T>>, file_name: &str) -> (filled: Result<
    Vec<T>,
    FareError,
>)
    ensures
        filled matches Ok(rows) ==> table == Some(rows),
        filled matches Err(error) ==> table is None && error@ == FareFailure::NotFound(
            file_name@,
        ),
{
    match table {
        None => Err(FareError::NotFound(file_name.to_owned())),
        Some(rows) => Ok(rows),
    }
}

/// Whether the object that a perimeter names is in the store: a network
/// among the networks, anything else among the lines.
pub open spec fn perimeter_resolves(
    perimeter: PerimeterView,
    network_ids: Seq<Seq<char>>,
    line_ids: Seq<Seq<char>>,
) -> bool {
    if perimeter.object_type == ObjectType::Network {
        network_ids.contains(perimeter.object_id)
    } else {
        line_ids.contains(perimeter.object_id)
    }
}

/// The predicate "the object that it names is in the store" on perimeters.
pub open spec fn perimeter_kept(network_ids: Seq<Seq<char>>, line_ids: Seq<Seq<char>>) -> spec_fn(
    TicketUsePerimeter,
) -> bool {
    |row: TicketUsePerimeter| perimeter_resolves(row@, network_ids, line_ids)
}

/// The message for a perimeter that names an object which is not in the
/// store.
pub open spec fn perimeter_message(perimeter: PerimeterView) -> Seq<char> {
    if perimeter.object_type == ObjectType::Network {
        "network_id "@ + perimeter.object_id + " not found"@
    } else {
        "line_id "@ + perimeter.object_id + " not found"@
    }
}

/// The issues for the perimeters that name an object which is not in the
/// store, in the order of the rows.
pub open spec fn perimeter_issues(
    rows: Seq<TicketUsePerimeter>,
    network_ids: Seq<Seq<char>>,
    line_ids: Seq<Seq<char>>,
) -> Seq<Issue>
    decreases rows.len(),
{
    if rows.len() == 0 {
        Seq::empty()
    } else {
        let before = perimeter_issues(rows.drop_last(), network_ids, line_ids);
        if perimeter_resolves(rows.last()@, network_ids, line_ids) {
            before
        } else {
            before.push(
                Issue {
                    category: ReportCategory::ObjectNotFound,
                    message: perimeter_message(rows.last()@),
                },
            )
        }
    }
}

/// The message for a perimeter that names an object which is not in the
/// store.
pub fn perimeter_text(perimeter: &TicketUsePerimeter) -> (message: String)
    ensures
        message@ == perimeter_message(perimeter@),
{
    let mut message = if perimeter.object_type == ObjectType::Network {
        String::from_str("network_id ")
    } else {
        String::from_str("line_id ")
    };
    message.append(perimeter.object_id.as_str());
    message.append(" not found");
    message
}

/// The ticket use perimeters of a bundle that name an object of the
/// store, in the order of the table; each of the others is reported. A
/// table that is missing is an error.
pub fn fill_ticket_use_perimeters(
    collections: &Collections,
    table: Option<Vec<TicketUsePerimeter>>,
    file_name: &str,
    report: &mut Report,
) -> (filled: Result<Vec<TicketUsePerimeter>, FareError>)
    requires
        collections.wf(),
    ensures
        filled is Err <==> table is None,
        filled matches Err(error) ==> error@ == FareFailure::NotFound(file_name@)
            && final(report)@ == old(report)@,
        filled matches Ok(kept) ==> {
            &&& kept@ == table->Some_0@.filter(
                perimeter_kept(collections.networks.ids(), collections.lines.ids()),
            )
            &&& final(report)@ == old(report)@ + perimeter_issues(
                table->Some_0@,
                collections.networks.ids(),
                collections.lines.ids(),
            )
        },
{
    let mut rows = match table {
        None => {
            return Err(FareError::NotFound(file_name.to_owned()));
        },
        Some(rows) => rows,
    };
    let ghost all = rows@;
    let ghost network_ids = collections.networks.ids();
    let ghost line_ids = collections.lines.ids();
    let ghost keep = perimeter_kept(network_ids, line_ids);
    let ghost issues = report@;
    let mut kept: Vec<TicketUsePerimeter> = Vec::new();
    let mut seen: Ghost<int> = Ghost(0);
    proof {
        reveal(Seq::filter);
        assert(all.take(0).len() == 0);
        assert(kept@ =~= all.take(0).filter(keep));
        assert(report@ =~= issues + perimeter_issues(all.take(0), network_ids, line_ids));
    }
    while rows.len() > 0
        invariant
            0 <= seen@ <= all.len(),
            collections.wf(),
            network_ids == collections.networks.ids(),
            line_ids == collections.lines.ids(),
            keep == perimeter_kept(network_ids, line_ids),
            rows@ == all.skip(seen@),
            kept@ == all.take(seen@).filter(keep),
            report@ == issues + perimeter_issues(all.take(seen@), network_ids, line_ids),
        decreases rows@.len(),
    {
        let row = rows.remove(0);
        proof {
            assert(row == all[seen@]);
            assert(all.skip(seen@).remove(0) == all.skip(seen@ + 1));
            assert(all.take(seen@ + 1) == all.take(seen@).push(row));
            assert(all.take(seen@ + 1).drop_last() == all.take(seen@));
            all.take(seen@).lemma_filter_push(row, keep);
        }
        let found = if row.object_type == ObjectType::Network {
            collections.networks.contains_id(row.object_id.as_str())
        } else {
            collections.lines.contains_id(row.object_id.as_str())
        };
        if found {
            kept.push(row);
        } else {
            report.add_error(perimeter_text(&row), ReportCategory::ObjectNotFound);
        }
        proof {
            seen@ = seen@ + 1;
            assert(report@ =~= issues + perimeter_issues(all.take(seen@), network_ids, line_ids));
        }
    }
    proof {
        assert(all.take(seen@) == all);
    }
    Ok(kept)
}

/// The issue for a restriction, if it is not valid: a restriction to a
/// trip whose origin is not a stop area of the store; or, where the
/// origin is one, whose destination is not.
pub open spec fn restriction_issue(restriction: RestrictionView, stop_area_ids: Seq<Seq<char>>)
    -> Option<Issue> {
    if restriction.restriction_type == RestrictionType::OriginDestination {
        if !stop_area_ids.contains(restriction.use_origin) {
            Some(
                Issue {
                    category: ReportCategory::ObjectNotFound,
                    message: "origin "@ + restriction.use_origin + " not found"@,
                },
            )
        } else if !stop_area_ids.contains(restriction.use_destination) {
            Some(
                Issue {
                    category: ReportCategory::ObjectNotFound,
                    message: "destination "@ + restriction.use_destination + " not found"@,
                },
            )
        } else {
            None
        }
    } else {
        None
    }
}

/// The predicate "it is valid" on restrictions.
pub open spec fn restriction_kept(stop_area_ids: Seq<Seq<char>>) -> spec_fn(
    TicketUseRestriction,
) -> bool {
    |row: TicketUseRestriction| restriction_issue(row@, stop_area_ids) is None
}

/// The issues for the restrictions that are not valid, in the order of
/// the rows.
pub open spec fn restriction_issues(rows: Seq<TicketUseRestriction>, stop_area_ids: Seq<Seq<char>>)
    -> Seq<Issue>
    decreases rows.len(),
{
    if rows.len() == 0 {
        Seq::empty()
    } else {
        let before = restriction_issues(rows.drop_last(), stop_area_ids);
        match restriction_issue(rows.last()@, stop_area_ids) {
            None => before,
            Some(issue) => before.push(issue),
        }
    }
}

/// The rows of a table of restrictions: none for a table that is missing.
pub open spec fn restriction_rows(table: Option<Vec<TicketUseRestriction>>) -> Seq<
    TicketUseRestriction,
> {
    match table {
        None => Seq::empty(),
        Some(rows) => rows@,
    }
}

/// The ticket use restrictions of a bundle that are valid, in the order
/// of the table; each of the others is reported, once. A table that is
/// missing counts as one without rows.
pub fn fill_ticket_use_restrictions(
    collections: &Collections,
    table: Option<Vec<TicketUseRestriction>>,
    report: &mut Report,
) -> (filled: Result<Vec<TicketUseRestriction>, FareError>)
    requires
        collections.wf(),
    ensures
        filled matches Ok(kept) && kept@ == restriction_rows(table).filter(
            restriction_kept(collections.stop_areas.ids()),
        ),
        final(report)@ == old(report)@ + restriction_issues(
            restriction_rows(table),
            collections.stop_areas.ids(),
        ),
{
    let ghost all = restriction_rows(table);
    let ghost stop_area_ids = collections.stop_areas.ids();
    let ghost keep = restriction_kept(stop_area_ids);
    let ghost issues = report@;
    let mut kept: Vec<TicketUseRestriction> = Vec::new();
    proof {
        reveal(Seq::filter);
        assert(all.take(0).len() == 0);
        assert(kept@ =~= all.take(0).filter(keep));
        assert(report@ =~= issues + restriction_issues(all.take(0), stop_area_ids));
    }
    let mut rows = match table {
        None => {
            proof {
                assert(all.take(0) == all);
            }
            return Ok(kept);
        },
        Some(rows) => rows,
    };
    let mut seen: Ghost<int> = Ghost(0);
    while rows.len() > 0
        invariant
            0 <= seen@ <= all.len(),
            collections.wf(),
            stop_area_ids == collections.stop_areas.ids(),
            keep == restriction_kept(stop_area_ids),
            rows@ == all.skip(seen@),
            kept@ == all.take(seen@).filter(keep),
            report@ == issues + restriction_issues(all.take(seen@), stop_area_ids),
        decreases rows@.len(),
    {
        let row = rows.remove(0);
        proof {
            assert(row == all[seen@]);
            assert(all.skip(seen@).remove(0) == all.skip(seen@ + 1));
            assert(all.take(seen@ + 1) == all.take(seen@).push(row));
            assert(all.take(seen@ + 1).drop_last() == all.take(seen@));
            all.take(seen@).lemma_filter_push(row, keep);
        }
        if row.restriction_type == RestrictionType::OriginDestination {
            if !collections.stop_areas.contains_id(row.use_origin.as_str()) {
                let mut message = String::from_str("origin ");
                message.append(row.use_origin.as_str());
                message.append(" not found");
                report.add_error(message, ReportCategory::ObjectNotFound);
            } else if !collections.stop_areas.contains_id(row.use_destination.as_str()) {
                let mut message = String::from_str("destination ");
                message.append(row.use_destination.as_str());
                message.append(" not found");
                report.add_error(message, ReportCategory::ObjectNotFound);
            } else {
                kept.push(row);
            }
        } else {
            kept.push(row);
        }
        proof {
            seen@ = seen@ + 1;
            assert(report@ =~= issues + restriction_issues(all.take(seen@), stop_area_ids));
        }
    }
    proof {
        assert(all.take(seen@) == all);
    }
    Ok(kept)
}

/// The identifiers of the ticket uses to which the perimeters refer.
pub open spec fn perimeter_uses(perimeters: Seq<TicketUsePerimeter>) -> Seq<Seq<char>> {
    perimeters.map_values(|row: TicketUsePerimeter| row.ticket_use_id@)
}

/// The identifiers of the ticket uses to which the restrictions refer.
pub open spec fn restriction_uses(restrictions: Seq<TicketUseRestriction>) -> Seq<Seq<char>> {
    restrictions.map_values(|row: TicketUseRestriction| row.ticket_use_id@)
}

/// The identifiers of the ticket uses to which a perimeter or a
/// restriction refers: those of the perimeters, then those of the
/// restrictions.
pub open spec fn referenced_uses(
    perimeters: Seq<TicketUsePerimeter>,
    restrictions: Seq<TicketUseRestriction>,
) -> Seq<Seq<char>> {
    perimeter_uses(perimeters) + restriction_uses(restrictions)
}

/// Whether a ticket has a use to which a perimeter or a restriction
/// refers.
pub open spec fn supported(
    ticket_id: Seq<char>,
    ticket_uses: Seq<TicketUse>,
    referenced: Seq<Seq<char>>,
) -> bool {
    exists|u: int|
        0 <= u < ticket_uses.len() && (#[trigger] ticket_uses[u]).ticket_id@ == ticket_id
            && referenced.contains(ticket_uses[u].id@)
}

/// The predicate "its ticket has a use to which a perimeter or a
/// restriction refers" on prices.
pub open spec fn price_kept(ticket_uses: Seq<TicketUse>, referenced: Seq<Seq<char>>) -> spec_fn(
    TicketPrice,
) -> bool {
    |row: TicketPrice| supported(row.ticket_id@, ticket_uses, referenced)
}

/// The identifiers of the ticket uses to which a perimeter or a
/// restriction refers.
fn collect_referenced_uses(
    perimeters: &Vec<TicketUsePerimeter>,
    restrictions: &Vec<TicketUseRestriction>,
) -> (referenced: Vec<String>)
    ensures
        texts(referenced@) == referenced_uses(perimeters@, restrictions@),
{
    let mut referenced: Vec<String> = Vec::new();
    let mut q: usize = 0;
    while q < perimeters.len()
        invariant
            q <= perimeters@.len(),
            texts(referenced@) == perimeter_uses(perimeters@.take(q as int)),
        decreases perimeters@.len() - q,
    {
        let ghost before = texts(referenced@);
        referenced.push(perimeters[q].ticket_use_id.clone());
        assert(texts(referenced@) =~= before.push(perimeters@[q as int].ticket_use_id@));
        assert(perimeters@.take(q + 1) == perimeters@.take(q as int).push(perimeters@[q as int]));
        q += 1;
        assert(texts(referenced@) =~= perimeter_uses(perimeters@.take(q as int)));
    }
    assert(perimeters@.take(q as int) == perimeters@);
    let ghost first = texts(referenced@);
    let mut r: usize = 0;
    while r < restrictions.len()
        invariant
            r <= restrictions@.len(),
            texts(referenced@) == first + restriction_uses(restrictions@.take(r as int)),
        decreases restrictions@.len() - r,
    {
        let ghost before = texts(referenced@);
        referenced.push(restrictions[r].ticket_use_id.clone());
        assert(texts(referenced@) =~= before.push(restrictions@[r as int].ticket_use_id@));
        assert(restrictions@.take(r + 1) == restrictions@.take(r as int).push(
            restrictions@[r as int],
        ));
        r += 1;
        assert(texts(referenced@) =~= first + restriction_uses(restrictions@.take(r as int)));
    }
    assert(restrictions@.take(r as int) == restrictions@);
    referenced
}

/// The identifiers of the tickets that have a use whose identifier is
/// one of `referenced`.
fn collect_supported_tickets(ticket_uses: &Vec<TicketUse>, referenced: &Vec<String>) -> (tickets:
    Vec<String>)
    ensures
        forall|id: Seq<char>|
            texts(tickets@).contains(id) <==> supported(id, ticket_uses@, texts(referenced@)),
{
    let mut tickets: Vec<String> = Vec::new();
    let mut u: usize = 0;
    while u < ticket_uses.len()
        invariant
            u <= ticket_uses@.len(),
            forall|id: Seq<char>|
                texts(tickets@).contains(id) <==> supported(
                    id,
                    ticket_uses@.take(u as int),
                    texts(referenced@),
                ),
        decreases ticket_uses@.len() - u,
    {
        let ghost before = texts(tickets@);
        let ghost shorter = ticket_uses@.take(u as int);
        let ghost longer = ticket_uses@.take(u + 1);
        let listed = is_listed(referenced, &ticket_uses[u].id);
        if listed {
            tickets.push(ticket_uses[u].ticket_id.clone());
        }
        proof {
            let row = ticket_uses@[u as int];
            assert(texts(tickets@) =~= if listed {
                before.push(row.ticket_id@)
            } else {
                before
            });
            assert forall|id: Seq<char>| texts(tickets@).contains(id) <==> supported(
                id,
                longer,
                texts(referenced@),
            ) by {
                if texts(tickets@).contains(id) {
                    if before.contains(id) {
                        let w = choose|w: int|
                            0 <= w < shorter.len() && (#[trigger] shorter[w]).ticket_id@ == id
                                && texts(referenced@).contains(shorter[w].id@);
                        assert(longer[w] == shorter[w]);
                    } else {
                        let j = choose|j: int|
                            0 <= j < texts(tickets@).len() && texts(tickets@)[j] == id;
                        if j < before.len() {
                            assert(before[j] == id);
                        }
                        assert(longer[u as int] == row);
                    }
                }
                if supported(id, longer, texts(referenced@)) {
                    let w = choose|w: int|
                        0 <= w < longer.len() && (#[trigger] longer[w]).ticket_id@ == id && texts(
                            referenced@,
                        ).contains(longer[w].id@);
                    if w < u {
                        assert(shorter[w] == longer[w]);
                        assert(before.contains(id));
                        let j = choose|j: int| 0 <= j < before.len() && before[j] == id;
                        assert(texts(tickets@)[j] == id);
                    } else {
                        assert(texts(tickets@)[before.len() as int] == id);
                    }
                }
            }
        }
        u += 1;
    }
    assert(ticket_uses@.take(u as int) == ticket_uses@);
    tickets
}

/// Keeps the prices whose ticket is one of `tickets`; the others leave,
/// and those that stay keep their order.
fn retain_prices_of(prices: &mut Vec<TicketPrice>, tickets: &Vec<String>)
    ensures
        final(prices)@ == old(prices)@.filter(
            |row: TicketPrice| texts(tickets@).contains(row.ticket_id@),
        ),
{
    let ghost before = prices@;
    let ghost keep = |row: TicketPrice| texts(tickets@).contains(row.ticket_id@);
    let mut kept: usize = 0;
    let mut seen: Ghost<int> = Ghost(0);
    proof {
        reveal(Seq::filter);
        assert(before.take(0).len() == 0);
        assert(prices@.take(0) =~= before.take(0).filter(keep));
    }
    while kept < prices.len()
        invariant
            0 <= seen@ <= before.len(),
            kept <= prices@.len(),
            prices@.take(kept as int) == before.take(seen@).filter(keep),
            prices@.skip(kept as int) == before.skip(seen@),
            keep == |row: TicketPrice| texts(tickets@).contains(row.ticket_id@),
        decreases prices@.len() - kept,
    {
        proof {
            assert(prices@.skip(kept as int).len() == before.skip(seen@).len());
            assert(prices@[kept as int] == prices@.skip(kept as int)[0]);
            assert(before.skip(seen@)[0] == before[seen@]);
            assert(before.take(seen@ + 1) == before.take(seen@).push(before[seen@]));
            before.take(seen@).lemma_filter_push(before[seen@], keep);
        }
        let ghost current = prices@;
        if is_listed(tickets, &prices[kept].ticket_id) {
            proof {
                assert(current.take(kept + 1) == current.take(kept as int).push(
                    current[kept as int],
                ));
                assert(current.skip(kept + 1) == current.skip(kept as int).skip(1));
                assert(before.skip(seen@).skip(1) == before.skip(seen@ + 1));
            }
            kept += 1;
        } else {
            prices.remove(kept);
            proof {
                assert(prices@.take(kept as int) == current.take(kept as int));
                assert(prices@.skip(kept as int) == current.skip(kept as int).skip(1));
                assert(before.skip(seen@).skip(1) == before.skip(seen@ + 1));
            }
        }
        proof {
            seen@ = seen@ + 1;
        }
    }
    proof {
        assert(prices@.take(kept as int) == prices@);
        assert(prices@.skip(kept as int).len() == before.skip(seen@).len());
        assert(before.take(seen@) == before);
    }
}

/// Two predicates that agree give the same filter.
proof fn lemma_filter_agrees<A>(s: Seq<A>, one: spec_fn(A) -> bool, other: spec_fn(A) -> bool)
    requires
        forall|a: A| #[trigger] one(a) == other(a),
    ensures
        s.filter(one) == s.filter(other),
    decreases s.len(),
{
    reveal(Seq::filter);
    if s.len() > 0 {
        lemma_filter_agrees(s.drop_last(), one, other);
    }
}

/// Prunes the prices: a price stays if its ticket has a use to which a
/// perimeter or a restriction of the store refers. Nothing else changes.
pub fn sanitize_tickets(collections: Collections) -> (sanitized: Result<Collections, FareError>)
    ensures
        sanitized matches Ok(pruned) && pruned.ticket_prices@ == collections.ticket_prices@.filter(
            price_kept(
                collections.ticket_uses@,
                referenced_uses(
                    collections.ticket_use_perimeters@,
                    collections.ticket_use_restrictions@,
                ),
            ),
        ) && pruned.networks == collections.networks && pruned.commercial_modes
            == collections.commercial_modes && pruned.physical_modes == collections.physical_modes
            && pruned.lines == collections.lines && pruned.vehicle_journeys
            == collections.vehicle_journeys && pruned.stop_areas == collections.stop_areas
            && pruned.tickets == collections.tickets && pruned.ticket_uses
            == collections.ticket_uses && pruned.ticket_use_perimeters
            == collections.ticket_use_perimeters && pruned.ticket_use_restrictions
            == collections.ticket_use_restrictions,
{
    let mut collections = collections;
    let ghost prices = collections.ticket_prices@;
    let referenced = collect_referenced_uses(
        &collections.ticket_use_perimeters,
        &collections.ticket_use_restrictions,
    );
    let tickets = collect_supported_tickets(collections.ticket_uses.rows(), &referenced);
    retain_prices_of(&mut collections.ticket_prices, &tickets);
    proof {
        lemma_filter_agrees(
            prices,
            |row: TicketPrice| texts(tickets@).contains(row.ticket_id@),
            price_kept(collections.ticket_uses@, texts(referenced@)),
        );
    }
    Ok(collections)
}

/// Why a bundle cannot be imported: the first of its tables, in the order
/// tickets, ticket uses, ticket prices, ticket use perimeters, that
/// cannot be taken. The table of the restrictions may be missing.
pub open spec fn bundle_failure(bundle: FareBundle) -> Option<FareFailure> {
    if keyed_table_failure(bundle.tickets, "tickets.txt"@) is Some {
        keyed_table_failure(bundle.tickets, "tickets.txt"@)
    } else if keyed_table_failure(bundle.ticket_uses, "ticket_uses.txt"@) is Some {
        keyed_table_failure(bundle.ticket_uses, "ticket_uses.txt"@)
    } else if bundle.ticket_prices is None {
        Some(FareFailure::NotFound("ticket_prices.txt"@))
    } else if bundle.ticket_use_perimeters is None {
        Some(FareFailure::NotFound("ticket_use_perimeters.txt"@))
    } else {
        None
    }
}

/// Whether `merged` is `collections` with the bundle imported, and
/// `after` the report `before` with the issues of the import: the tickets
/// and the ticket uses are those of the bundle; the perimeters and the
/// restrictions are those of the bundle that are valid, and the others
/// are reported, the perimeters first; the prices are those of the
/// bundle whose ticket has a use to which a perimeter or a restriction
/// that was kept refers; the rest of the store is as it was.
pub open spec fn imported(
    collections: Collections,
    bundle: FareBundle,
    before: Seq<Issue>,
    merged: Collections,
    after: Seq<Issue>,
) -> bool {
    &&& merged.networks == collections.networks
    &&& merged.commercial_modes == collections.commercial_modes
    &&& merged.physical_modes == collections.physical_modes
    &&& merged.lines == collections.lines
    &&& merged.vehicle_journeys == collections.vehicle_journeys
    &&& merged.stop_areas == collections.stop_areas
    &&& merged.tickets@ == bundle.tickets->Some_0@
    &&& merged.ticket_uses@ == bundle.ticket_uses->Some_0@
    &&& merged.ticket_use_perimeters@ == bundle.ticket_use_perimeters->Some_0@.filter(
        perimeter_kept(collections.networks.ids(), collections.lines.ids()),
    )
    &&& merged.ticket_use_restrictions@ == restriction_rows(bundle.ticket_use_restrictions).filter(
        restriction_kept(collections.stop_areas.ids()),
    )
    &&& merged.ticket_prices@ == bundle.ticket_prices->Some_0@.filter(
        price_kept(
            merged.ticket_uses@,
            referenced_uses(merged.ticket_use_perimeters@, merged.ticket_use_restrictions@),
        ),
    )
    &&& after == before + perimeter_issues(
        bundle.ticket_use_perimeters->Some_0@,
        collections.networks.ids(),
        collections.lines.ids(),
    ) + restriction_issues(
        restriction_rows(bundle.ticket_use_restrictions),
        collections.stop_areas.ids(),
    )
}

/// Imports the tables of a fare bundle into `collections`, in the place
/// of the fare collections that it held. A table that is missing, but for
/// that of the restrictions, or an identifier that occurs twice in the
/// tickets or in the ticket uses, stops the import before anything is
/// reported.
pub fn read_farev2(collections: Collections, bundle: FareBundle, report: &mut Report) -> (read:
    Result<Collections, FareError>)
    requires
        collections.wf(),
    ensures
        read matches Err(error) ==> bundle_failure(bundle) == Some(error@) && final(report)@
            == old(report)@,
        read matches Ok(merged) ==> bundle_failure(bundle) is None && merged.wf() && imported(
            collections,
            bundle,
            old(report)@,
            merged,
            final(report)@,
        ),
{
    let mut merged = collections;
    let FareBundle {
        tickets,
        ticket_uses,
        ticket_prices,
        ticket_use_perimeters,
        ticket_use_restrictions,
    } = bundle;
    merged.tickets = match fill_collection_with_id(tickets, "tickets.txt") {
        Ok(filled) => filled,
        Err(error) => {
            return Err(error);
        },
    };
    merged.ticket_uses = match fill_collection_with_id(ticket_uses, "ticket_uses.txt") {
        Ok(filled) => filled,
        Err(error) => {
            return Err(error);
        },
    };
    merged.ticket_prices = match fill_collection(ticket_prices, "ticket_prices.txt") {
        Ok(filled) => filled,
        Err(error) => {
            return Err(error);
        },
    };
    merged.ticket_use_perimeters = match fill_ticket_use_perimeters(
        &merged,
        ticket_use_perimeters,
        "ticket_use_perimeters.txt",
        report,
    ) {
        Ok(filled) => filled,
        Err(error) => {
            return Err(error);
        },
    };
    merged.ticket_use_restrictions = match fill_ticket_use_restrictions(
        &merged,
        ticket_use_restrictions,
        report,
    ) {
        Ok(filled) => filled,
        Err(error) => {
            return Err(error);
        },
    };
    sanitize_tickets(merged)
}

/// Merges a fare bundle into a store. The tickets and the ticket uses of
/// the bundle are taken as they are. Its perimeters and restrictions are
/// checked against the store, and those that name what the store does
/// not hold are left out and reported. Then the prices that no perimeter
/// and no restriction supports any more are pruned. The report comes
/// back with the store.
pub fn merge_fare(collections: Collections, bundle: FareBundle) -> (merged: Result<
    (Collections, Report),
    FareError,
>)
    requires
        collections.wf(),
    ensures
        merged matches Err(error) ==> bundle_failure(bundle) == Some(error@),
        merged matches Ok(done) ==> bundle_failure(bundle) is None && done.0.wf() && imported(
            collections,
            bundle,
            Seq::empty(),
            done.0,
            done.1@,
        ),
{
    let mut report = Report::new();
    match read_farev2(collections, bundle, &mut report) {
        Ok(merged) => Ok((merged, report)),
        Err(error) => Err(error),
    }
}

/// A price of the bundle is in the store after the import just where
/// its ticket has a use to which a perimeter or a restriction of the
/// store refers; and the store has no other prices.
pub proof fn lemma_price_survives(
    collections: Collections,
    bundle: FareBundle,
    before: Seq<Issue>,
    merged: Collections,
    after: Seq<Issue>,
    price: TicketPrice,
)
    requires
        imported(collections, bundle, before, merged, after),
    ensures
        merged.ticket_prices@.contains(price) <==> bundle.ticket_prices->Some_0@.contains(price)
            && supported(
            price.ticket_id@,
            merged.ticket_uses@,
            referenced_uses(merged.ticket_use_perimeters@, merged.ticket_use_restrictions@),
        ),
{
    let rows = bundle.ticket_prices->Some_0@;
    let keep = price_kept(
        merged.ticket_uses@,
        referenced_uses(merged.ticket_use_perimeters@, merged.ticket_use_restrictions@),
    );
    if merged.ticket_prices@.contains(price) {
        rows.lemma_filter_contains_rev(keep, price);
        let i = choose|i: int| 0 <= i < rows.filter(keep).len() && rows.filter(keep)[i] == price;
        rows.lemma_filter_pred(keep, i);
    }
    if rows.contains(price) && keep(price) {
        let i = choose|i: int| 0 <= i < rows.len() && rows[i] == price;
        rows.lemma_filter_contains(keep, i);
    }
}

/// After an import, each perimeter of the store names a network or a
/// line of the store, and each restriction to a trip names two stop
/// areas of the store.
pub proof fn lemma_imported_references_resolve(
    collections: Collections,
    bundle: FareBundle,
    before: Seq<Issue>,
    merged: Collections,
    after: Seq<Issue>,
)
    requires
        imported(collections, bundle, before, merged, after),
    ensures
        forall|q: int|
            0 <= q < merged.ticket_use_perimeters@.len() ==> perimeter_resolves(
                (#[trigger] merged.ticket_use_perimeters@[q])@,
                merged.networks.ids(),
                merged.lines.ids(),
            ),
        forall|r: int|
            0 <= r < merged.ticket_use_restrictions@.len() && (
            #[trigger] merged.ticket_use_restrictions@[r]).restriction_type
                == RestrictionType::OriginDestination ==> merged.stop_areas.ids().contains(
                merged.ticket_use_restrictions@[r].use_origin@,
            ) && merged.stop_areas.ids().contains(
                merged.ticket_use_restrictions@[r].use_destination@,
            ),
{
    let perimeters = bundle.ticket_use_perimeters->Some_0@;
    let kept = perimeter_kept(collections.networks.ids(), collections.lines.ids());
    assert forall|q: int| 0 <= q < merged.ticket_use_perimeters@.len() implies perimeter_resolves(
        (#[trigger] merged.ticket_use_perimeters@[q])@,
        merged.networks.ids(),
        merged.lines.ids(),
    ) by {
        perimeters.lemma_filter_pred(kept, q);
    }
    let restrictions = restriction_rows(bundle.ticket_use_restrictions);
    let valid = restriction_kept(collections.stop_areas.ids());
    assert forall|r: int|
        0 <= r < merged.ticket_use_restrictions@.len() && (
        #[trigger] merged.ticket_use_restrictions@[r]).restriction_type
            == RestrictionType::OriginDestination implies merged.stop_areas.ids().contains(
        merged.ticket_use_restrictions@[r].use_origin@,
    ) && merged.stop_areas.ids().contains(merged.ticket_use_restrictions@[r].use_destination@) by {
        restrictions.lemma_filter_pred(valid, r);
    }
}

} // verus!
