use transit_model::collection::Arena;
use transit_model::enrich_ntfs_with_farev2::{
    fill_collection, fill_collection_with_id, fill_ticket_use_perimeters,
    fill_ticket_use_restrictions, merge_fare, perimeter_text, read_farev2, sanitize_tickets,
    FareBundle, FareError,
};
use transit_model::model::Collections;
use transit_model::objects::{
    Line, Network, ObjectType, RestrictionType, StopArea, Ticket, TicketPrice, TicketUse,
    TicketUsePerimeter, TicketUseRestriction,
};
use transit_model::report::{Report, ReportCategory};

fn store() -> Collections {
    let mut collections = Collections::new();
    collections.networks = Arena::from_rows(vec![
        Network { id: "N1".to_string(), name: "First".to_string() },
        Network { id: "N2".to_string(), name: "Second".to_string() },
    ])
    .unwrap();
    collections.lines = Arena::from_rows(vec![Line {
        id: "L1".to_string(),
        network_id: "N1".to_string(),
        commercial_mode_id: "Bus".to_string(),
    }])
    .unwrap();
    collections.stop_areas = Arena::from_rows(vec![
        StopArea { id: "SA1".to_string(), name: "One".to_string() },
        StopArea { id: "SA2".to_string(), name: "Two".to_string() },
    ])
    .unwrap();
    collections
}

fn ticket(id: &str) -> Ticket {
    Ticket { id: id.to_string() }
}

fn ticket_use(id: &str, ticket_id: &str) -> TicketUse {
    TicketUse { id: id.to_string(), ticket_id: ticket_id.to_string() }
}

fn price(ticket_id: &str) -> TicketPrice {
    TicketPrice { ticket_id: ticket_id.to_string() }
}

fn perimeter(ticket_use_id: &str, object_type: ObjectType, object_id: &str) -> TicketUsePerimeter {
    TicketUsePerimeter {
        ticket_use_id: ticket_use_id.to_string(),
        object_type,
        object_id: object_id.to_string(),
    }
}

fn trip(ticket_use_id: &str, origin: &str, destination: &str) -> TicketUseRestriction {
    TicketUseRestriction {
        ticket_use_id: ticket_use_id.to_string(),
        restriction_type: RestrictionType::OriginDestination,
        use_origin: origin.to_string(),
        use_destination: destination.to_string(),
    }
}

fn zone(ticket_use_id: &str, origin: &str, destination: &str) -> TicketUseRestriction {
    TicketUseRestriction {
        ticket_use_id: ticket_use_id.to_string(),
        restriction_type: RestrictionType::Zone,
        use_origin: origin.to_string(),
        use_destination: destination.to_string(),
    }
}

fn bundle() -> FareBundle {
    FareBundle {
        tickets: Some(vec![ticket("T1"), ticket("T2"), ticket("T3")]),
        ticket_uses: Some(vec![
            ticket_use("TU1", "T1"),
            ticket_use("TU2", "T2"),
            ticket_use("TU3", "T3"),
        ]),
        ticket_prices: Some(vec![price("T1"), price("T2"), price("T3"), price("T1")]),
        ticket_use_perimeters: Some(vec![
            perimeter("TU1", ObjectType::Network, "N1"),
            perimeter("TU2", ObjectType::Network, "N5"),
        ]),
        ticket_use_restrictions: Some(vec![trip("TU3", "SA1", "SA2")]),
    }
}

fn messages(report: &Report) -> Vec<(ReportCategory, String)> {
    (0..report.len())
        .map(|i| (report.get(i).category, report.get(i).message.clone()))
        .collect()
}

fn price_tickets(collections: &Collections) -> Vec<String> {
    collections.ticket_prices.iter().map(|row| row.ticket_id.clone()).collect()
}

#[test]
fn perimeter_on_an_unknown_network_is_dropped_and_its_price_pruned() {
    let (merged, report) = merge_fare(store(), bundle()).unwrap();
    assert_eq!(merged.ticket_use_perimeters.len(), 1);
    assert_eq!(merged.ticket_use_perimeters[0].ticket_use_id, "TU1");
    assert_eq!(merged.ticket_use_perimeters[0].object_id, "N1");
    assert_eq!(
        messages(&report),
        vec![(ReportCategory::ObjectNotFound, "network_id N5 not found".to_string())]
    );
    assert_eq!(price_tickets(&merged), vec!["T1", "T3", "T1"]);
    assert_eq!(merged.tickets.len(), 3);
    assert_eq!(merged.ticket_uses.len(), 3);
    assert_eq!(merged.ticket_use_restrictions.len(), 1);
    assert_eq!(merged.networks.len(), 2);
    assert_eq!(merged.lines.get(0).network_id, "N1");
}

#[test]
fn missing_restrictions_table_is_tolerated() {
    let mut tables = bundle();
    tables.ticket_use_restrictions = None;
    let (merged, report) = merge_fare(store(), tables).unwrap();
    assert!(merged.ticket_use_restrictions.is_empty());
    assert_eq!(price_tickets(&merged), vec!["T1", "T1"]);
    assert_eq!(report.len(), 1);
}

#[test]
fn missing_tickets_table_is_fatal() {
    let mut tables = bundle();
    tables.tickets = None;
    let error = merge_fare(store(), tables).err().unwrap();
    assert!(matches!(&error, FareError::NotFound(file) if file == "tickets.txt"));
    assert_eq!(error.message(), "tickets.txt not found");
}

#[test]
fn missing_ticket_uses_table_is_fatal() {
    let mut tables = bundle();
    tables.ticket_uses = None;
    let error = merge_fare(store(), tables).err().unwrap();
    assert!(matches!(&error, FareError::NotFound(file) if file == "ticket_uses.txt"));
}

#[test]
fn missing_ticket_prices_table_is_fatal() {
    let mut tables = bundle();
    tables.ticket_prices = None;
    let error = merge_fare(store(), tables).err().unwrap();
    assert!(matches!(&error, FareError::NotFound(file) if file == "ticket_prices.txt"));
}

#[test]
fn missing_perimeters_table_is_fatal() {
    let mut tables = bundle();
    tables.ticket_use_perimeters = None;
    let mut report = Report::new();
    let error = read_farev2(store(), tables, &mut report).err().unwrap();
    assert!(matches!(&error, FareError::NotFound(file) if file == "ticket_use_perimeters.txt"));
    assert!(report.is_empty());
}

#[test]
fn first_missing_table_is_named() {
    let tables = FareBundle {
        tickets: None,
        ticket_uses: None,
        ticket_prices: None,
        ticket_use_perimeters: None,
        ticket_use_restrictions: None,
    };
    let error = merge_fare(store(), tables).err().unwrap();
    assert!(matches!(&error, FareError::NotFound(file) if file == "tickets.txt"));
}

#[test]
fn repeated_ticket_identifier_is_fatal() {
    let mut tables = bundle();
    tables.tickets = Some(vec![ticket("T1"), ticket("T2"), ticket("T2"), ticket("T1")]);
    let error = merge_fare(store(), tables).err().unwrap();
    assert!(matches!(
        &error,
        FareError::IdentifierAlreadyExists(file, id) if file == "tickets.txt" && id == "T2"
    ));
    assert_eq!(error.message(), "identifier T2 already exists in tickets.txt");
}

#[test]
fn perimeters_are_checked_against_networks_and_lines() {
    let collections = store();
    let mut report = Report::new();
    let kept = fill_ticket_use_perimeters(
        &collections,
        Some(vec![
            perimeter("TU1", ObjectType::Line, "L1"),
            perimeter("TU2", ObjectType::Line, "N1"),
            perimeter("TU3", ObjectType::Network, "L1"),
            perimeter("TU4", ObjectType::Network, "N2"),
        ]),
        "ticket_use_perimeters.txt",
        &mut report,
    )
    .unwrap();
    let uses: Vec<&str> = kept.iter().map(|row| row.ticket_use_id.as_str()).collect();
    assert_eq!(uses, vec!["TU1", "TU4"]);
    assert_eq!(
        messages(&report),
        vec![
            (ReportCategory::ObjectNotFound, "line_id N1 not found".to_string()),
            (ReportCategory::ObjectNotFound, "network_id L1 not found".to_string()),
        ]
    );
}

#[test]
fn perimeter_text_names_the_kind_of_object() {
    assert_eq!(
        perimeter_text(&perimeter("TU1", ObjectType::Network, "N5")),
        "network_id N5 not found"
    );
    assert_eq!(perimeter_text(&perimeter("TU1", ObjectType::Line, "L5")), "line_id L5 not found");
}

#[test]
fn restrictions_report_the_first_missing_side_only() {
    let collections = store();
    let mut report = Report::new();
    let kept = fill_ticket_use_restrictions(
        &collections,
        Some(vec![
            trip("TU1", "SA1", "SA2"),
            trip("TU2", "SA8", "SA9"),
            trip("TU3", "SA1", "SA9"),
            zone("TU4", "Z8", "Z9"),
            trip("TU5", "SA8", "SA2"),
        ]),
        &mut report,
    )
    .unwrap();
    let uses: Vec<&str> = kept.iter().map(|row| row.ticket_use_id.as_str()).collect();
    assert_eq!(uses, vec!["TU1", "TU4"]);
    assert_eq!(
        messages(&report),
        vec![
            (ReportCategory::ObjectNotFound, "origin SA8 not found".to_string()),
            (ReportCategory::ObjectNotFound, "destination SA9 not found".to_string()),
            (ReportCategory::ObjectNotFound, "origin SA8 not found".to_string()),
        ]
    );
}

#[test]
fn restrictions_without_a_table_are_empty() {
    let collections = store();
    let mut report = Report::new();
    let kept = fill_ticket_use_restrictions(&collections, None, &mut report).unwrap();
    assert!(kept.is_empty());
    assert!(report.is_empty());
}

#[test]
fn issues_come_after_those_of_the_report() {
    let collections = store();
    let mut report = Report::new();
    report.add_error("earlier".to_string(), ReportCategory::RuleNotApplied);
    let merged = read_farev2(collections, bundle(), &mut report).unwrap();
    assert_eq!(merged.ticket_use_perimeters.len(), 1);
    assert_eq!(
        messages(&report),
        vec![
            (ReportCategory::RuleNotApplied, "earlier".to_string()),
            (ReportCategory::ObjectNotFound, "network_id N5 not found".to_string()),
        ]
    );
}

#[test]
fn sanitize_keeps_prices_of_supported_tickets() {
    let mut collections = store();
    collections.tickets = Arena::from_rows(vec![ticket("T1"), ticket("T2"), ticket("T3")]).unwrap();
    collections.ticket_uses = Arena::from_rows(vec![
        ticket_use("TU1", "T1"),
        ticket_use("TU2", "T2"),
        ticket_use("TU3", "T3"),
        ticket_use("TU4", "T2"),
    ])
    .unwrap();
    collections.ticket_use_perimeters = vec![perimeter("TU4", ObjectType::Network, "N1")];
    collections.ticket_use_restrictions = vec![zone("TU3", "", "")];
    collections.ticket_prices =
        vec![price("T1"), price("T2"), price("T3"), price("TU4"), price("T2")];
    let pruned = sanitize_tickets(collections).unwrap();
    assert_eq!(price_tickets(&pruned), vec!["T2", "T3", "T2"]);
    assert_eq!(pruned.ticket_uses.len(), 4);
    assert_eq!(pruned.ticket_use_perimeters.len(), 1);
    assert_eq!(pruned.ticket_use_restrictions.len(), 1);
}

#[test]
fn sanitize_without_perimeters_or_restrictions_prunes_every_price() {
    let mut collections = store();
    collections.ticket_uses = Arena::from_rows(vec![ticket_use("TU1", "T1")]).unwrap();
    collections.ticket_prices = vec![price("T1")];
    let pruned = sanitize_tickets(collections).unwrap();
    assert!(pruned.ticket_prices.is_empty());
}

#[test]
fn price_survives_just_where_a_use_of_its_ticket_is_referenced() {
    let (merged, _) = merge_fare(store(), bundle()).unwrap();
    let referenced: Vec<String> = merged
        .ticket_use_perimeters
        .iter()
        .map(|row| row.ticket_use_id.clone())
        .chain(merged.ticket_use_restrictions.iter().map(|row| row.ticket_use_id.clone()))
        .collect();
    for row in bundle().ticket_prices.unwrap() {
        let supported = merged
            .ticket_uses
            .rows()
            .iter()
            .any(|used| used.ticket_id == row.ticket_id && referenced.contains(&used.id));
        let survives = merged.ticket_prices.iter().any(|kept| kept.ticket_id == row.ticket_id);
        assert_eq!(survives, supported);
    }
}

#[test]
fn tables_are_taken_or_reported_missing() {
    let filled = fill_collection(Some(vec![price("T1"), price("T1")]), "ticket_prices.txt").unwrap();
    assert_eq!(filled.len(), 2);
    let missing = fill_collection::<TicketPrice>(None, "ticket_prices.txt").err().unwrap();
    assert_eq!(missing.message(), "ticket_prices.txt not found");
    let arena = fill_collection_with_id(Some(vec![ticket("T1"), ticket("T2")]), "tickets.txt")
        .ok()
        .unwrap();
    assert_eq!(arena.len(), 2);
    assert!(arena.contains_id("T2"));
    assert!(fill_collection_with_id::<Ticket>(None, "tickets.txt").is_err());
}
