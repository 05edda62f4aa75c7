use serde_json::Value;
use transit_model::apply_rules::object_rule::{
    ObjectProperties, ObjectRule, ObjectRuleConfiguration, RuleError,
};
use transit_model::collection::Arena;
use transit_model::model::Collections;
use transit_model::objects::{
    CommercialMode, Line, Network, ObjectType, PhysicalMode, TicketUsePerimeter, VehicleJourney,
};
use transit_model::report::{Report, ReportCategory};

fn json(text: &str) -> Value {
    serde_json::from_str(text).unwrap()
}

fn rule(properties: &str, grouped_from: &[&str]) -> ObjectProperties {
    ObjectProperties::new(
        json(properties),
        grouped_from.iter().map(|id| id.to_string()).collect(),
    )
}

fn network(id: &str, name: &str) -> Network {
    Network { id: id.to_string(), name: name.to_string() }
}

fn line(id: &str, network_id: &str, commercial_mode_id: &str) -> Line {
    Line {
        id: id.to_string(),
        network_id: network_id.to_string(),
        commercial_mode_id: commercial_mode_id.to_string(),
    }
}

fn perimeter(ticket_use_id: &str, object_type: ObjectType, object_id: &str) -> TicketUsePerimeter {
    TicketUsePerimeter {
        ticket_use_id: ticket_use_id.to_string(),
        object_type,
        object_id: object_id.to_string(),
    }
}

fn store() -> Collections {
    let mut collections = Collections::new();
    collections.networks =
        Arena::from_rows(vec![network("N2", "Second"), network("N3", "Third")]).unwrap();
    collections.commercial_modes = Arena::from_rows(vec![
        CommercialMode { id: "Bus".to_string(), name: "Bus".to_string() },
        CommercialMode { id: "Coach".to_string(), name: "Coach".to_string() },
    ])
    .unwrap();
    collections.physical_modes = Arena::from_rows(vec![
        PhysicalMode { id: "Bus".to_string(), name: "Bus".to_string() },
        PhysicalMode { id: "Trolley".to_string(), name: "Trolley".to_string() },
    ])
    .unwrap();
    collections.lines =
        Arena::from_rows(vec![line("L1", "N2", "Bus"), line("L2", "N3", "Coach")]).unwrap();
    collections.vehicle_journeys = Arena::from_rows(vec![
        VehicleJourney { id: "VJ1".to_string(), physical_mode_id: "Bus".to_string() },
        VehicleJourney { id: "VJ2".to_string(), physical_mode_id: "Trolley".to_string() },
    ])
    .unwrap();
    collections
}

fn network_rules(rules: Vec<ObjectProperties>) -> ObjectRuleConfiguration {
    ObjectRuleConfiguration {
        networks_rules: Some(rules),
        commercial_modes_rules: None,
        physical_modes_rules: None,
    }
}

fn ids<T: transit_model::objects::Identified>(arena: &Arena<T>) -> Vec<String> {
    arena.rows().iter().map(|row| row.id().clone()).collect()
}

fn messages(report: &Report) -> Vec<(ReportCategory, String)> {
    (0..report.len())
        .map(|i| (report.get(i).category, report.get(i).message.clone()))
        .collect()
}

const MERGED: &str = r#"{"network_id": "N1", "name": "Merged"}"#;

#[test]
fn regroup_two_networks_into_a_new_one() {
    let mut collections = store();
    let rules = ObjectRule::new(network_rules(vec![rule(MERGED, &["N2", "N3"])]), &collections);
    let mut report = Report::new();
    rules.apply_rules(&mut collections, &mut report).unwrap();
    assert_eq!(ids(&collections.networks), vec!["N1"]);
    assert_eq!(collections.networks.get(0).name, "Merged");
    assert_eq!(collections.lines.get(0).network_id, "N1");
    assert_eq!(collections.lines.get(1).network_id, "N1");
    assert_eq!(collections.lines.get(0).id, "L1");
    assert_eq!(collections.lines.get(0).commercial_mode_id, "Bus");
    assert_eq!(collections.lines.get(1).commercial_mode_id, "Coach");
    assert!(report.is_empty());
}

#[test]
fn regroup_of_an_unknown_network_is_reported() {
    let mut collections = store();
    let rules = ObjectRule::new(network_rules(vec![rule(MERGED, &["N9"])]), &collections);
    let mut report = Report::new();
    rules.apply_rules(&mut collections, &mut report).unwrap();
    assert_eq!(
        messages(&report),
        vec![
            (
                ReportCategory::ObjectNotFound,
                "The identifier \"N9\" doesn't exist, and therefore cannot be regrouped in \"N1\""
                    .to_string()
            ),
            (
                ReportCategory::RuleNotApplied,
                "The rule on identifier \"N1\" was not applied".to_string()
            ),
        ]
    );
    assert_eq!(ids(&collections.networks), vec!["N2", "N3", "N1"]);
    assert_eq!(collections.lines.get(0).network_id, "N2");
    assert_eq!(collections.lines.get(1).network_id, "N3");
}

#[test]
fn second_run_changes_nothing_and_reports_every_identifier() {
    let mut collections = store();
    let configuration = || network_rules(vec![rule(MERGED, &["N2", "N3"])]);
    let rules = ObjectRule::new(configuration(), &collections);
    let mut report = Report::new();
    rules.apply_rules(&mut collections, &mut report).unwrap();
    let again = ObjectRule::new(configuration(), &collections);
    let mut second = Report::new();
    again.apply_rules(&mut collections, &mut second).unwrap();
    assert_eq!(ids(&collections.networks), vec!["N1"]);
    assert_eq!(collections.networks.get(0).name, "Merged");
    assert_eq!(collections.lines.get(0).network_id, "N1");
    assert_eq!(collections.lines.get(1).network_id, "N1");
    assert_eq!(
        messages(&second),
        vec![
            (
                ReportCategory::ObjectNotFound,
                "The identifier \"N2\" doesn't exist, and therefore cannot be regrouped in \"N1\""
                    .to_string()
            ),
            (
                ReportCategory::ObjectNotFound,
                "The identifier \"N3\" doesn't exist, and therefore cannot be regrouped in \"N1\""
                    .to_string()
            ),
            (
                ReportCategory::RuleNotApplied,
                "The rule on identifier \"N1\" was not applied".to_string()
            ),
        ]
    );
}

#[test]
fn regroup_into_an_existing_network_keeps_it() {
    let mut collections = store();
    let rules = ObjectRule::new(
        network_rules(vec![rule(r#"{"network_id": "N2"}"#, &["N3"])]),
        &collections,
    );
    let mut report = Report::new();
    rules.apply_rules(&mut collections, &mut report).unwrap();
    assert_eq!(ids(&collections.networks), vec!["N2"]);
    assert_eq!(collections.networks.get(0).name, "Second");
    assert_eq!(collections.lines.get(0).network_id, "N2");
    assert_eq!(collections.lines.get(1).network_id, "N2");
    assert!(report.is_empty());
}

#[test]
fn network_without_lines_is_removed_and_rule_reported() {
    let mut collections = store();
    collections.networks = Arena::from_rows(vec![
        network("N2", "Second"),
        network("N3", "Third"),
        network("N4", "Fourth"),
    ])
    .unwrap();
    collections.ticket_use_perimeters = vec![perimeter("TU1", ObjectType::Network, "N4")];
    let rules = ObjectRule::new(network_rules(vec![rule(MERGED, &["N4"])]), &collections);
    let mut report = Report::new();
    rules.apply_rules(&mut collections, &mut report).unwrap();
    assert_eq!(ids(&collections.networks), vec!["N2", "N3", "N1"]);
    assert_eq!(collections.ticket_use_perimeters[0].object_id, "N4");
    assert_eq!(
        messages(&report),
        vec![(
            ReportCategory::RuleNotApplied,
            "The rule on identifier \"N1\" was not applied".to_string()
        )]
    );
}

#[test]
fn perimeters_on_an_absorbed_network_follow_it() {
    let mut collections = store();
    collections.ticket_use_perimeters = vec![
        perimeter("TU1", ObjectType::Network, "N2"),
        perimeter("TU2", ObjectType::Line, "N2"),
        perimeter("TU3", ObjectType::Network, "N3"),
    ];
    let rules = ObjectRule::new(network_rules(vec![rule(MERGED, &["N2"])]), &collections);
    let mut report = Report::new();
    rules.apply_rules(&mut collections, &mut report).unwrap();
    assert_eq!(collections.ticket_use_perimeters[0].object_id, "N1");
    assert_eq!(collections.ticket_use_perimeters[0].ticket_use_id, "TU1");
    assert_eq!(collections.ticket_use_perimeters[0].object_type, ObjectType::Network);
    assert_eq!(collections.ticket_use_perimeters[1].object_id, "N2");
    assert_eq!(collections.ticket_use_perimeters[2].object_id, "N3");
    assert_eq!(ids(&collections.networks), vec!["N3", "N1"]);
    assert_eq!(collections.lines.get(0).network_id, "N1");
    assert_eq!(collections.lines.get(1).network_id, "N3");
}

#[test]
fn identifier_absorbed_by_two_rules_is_reported_by_the_second() {
    let mut collections = store();
    let rules = ObjectRule::new(
        network_rules(vec![
            rule(MERGED, &["N2"]),
            rule(r#"{"network_id": "N3"}"#, &["N2"]),
        ]),
        &collections,
    );
    let mut report = Report::new();
    rules.apply_rules(&mut collections, &mut report).unwrap();
    assert_eq!(collections.lines.get(0).network_id, "N1");
    assert_eq!(ids(&collections.networks), vec!["N3", "N1"]);
    assert_eq!(
        messages(&report),
        vec![
            (
                ReportCategory::ObjectNotFound,
                "The identifier \"N2\" doesn't exist, and therefore cannot be regrouped in \"N3\""
                    .to_string()
            ),
            (
                ReportCategory::RuleNotApplied,
                "The rule on identifier \"N3\" was not applied".to_string()
            ),
        ]
    );
}

#[test]
fn two_rules_on_one_new_target_create_it_once() {
    let mut collections = store();
    let rules = ObjectRule::new(
        network_rules(vec![
            rule(MERGED, &["N2"]),
            rule(r#"{"network_id": "N1", "name": "Other"}"#, &["N3"]),
        ]),
        &collections,
    );
    let mut report = Report::new();
    rules.apply_rules(&mut collections, &mut report).unwrap();
    assert_eq!(ids(&collections.networks), vec!["N1"]);
    assert_eq!(collections.networks.get(0).name, "Merged");
    assert_eq!(collections.lines.get(0).network_id, "N1");
    assert_eq!(collections.lines.get(1).network_id, "N1");
    assert!(report.is_empty());
}

#[test]
fn rule_with_an_empty_list_is_reported() {
    let mut collections = store();
    let rules = ObjectRule::new(network_rules(vec![rule(MERGED, &[])]), &collections);
    let mut report = Report::new();
    rules.apply_rules(&mut collections, &mut report).unwrap();
    assert_eq!(
        messages(&report),
        vec![(
            ReportCategory::RuleNotApplied,
            "The rule on identifier \"N1\" was not applied".to_string()
        )]
    );
    assert_eq!(ids(&collections.networks), vec!["N2", "N3", "N1"]);
}

#[test]
fn rule_without_the_key_stops_the_run() {
    let mut collections = store();
    let rules = ObjectRule::new(
        network_rules(vec![rule(r#"{"name": "Merged"}"#, &["N2"])]),
        &collections,
    );
    let mut report = Report::new();
    let error = rules.apply_rules(&mut collections, &mut report).unwrap_err();
    assert!(matches!(&error, RuleError::KeyRequired(key) if key == "network_id"));
    assert_eq!(error.message(), "Key \"network_id\" is required");
    assert_eq!(ids(&collections.networks), vec!["N2", "N3"]);
    assert_eq!(collections.lines.get(0).network_id, "N2");
    assert!(report.is_empty());
}

#[test]
fn rule_whose_key_is_not_a_string_stops_the_run() {
    let mut collections = store();
    let rules = ObjectRule::new(
        network_rules(vec![rule(r#"{"network_id": 12, "name": "Merged"}"#, &["N2"])]),
        &collections,
    );
    let mut report = Report::new();
    let error = rules.apply_rules(&mut collections, &mut report).unwrap_err();
    assert!(matches!(&error, RuleError::MustBeFilled(key) if key == "network_id"));
    assert_eq!(error.message(), "Value for \"network_id\" must be filled in");
}

#[test]
fn properties_that_are_no_object_have_no_key() {
    let mut collections = store();
    let rules = ObjectRule::new(network_rules(vec![rule(r#"["network_id"]"#, &["N2"])]), &collections);
    let mut report = Report::new();
    let error = rules.apply_rules(&mut collections, &mut report).unwrap_err();
    assert!(matches!(&error, RuleError::KeyRequired(key) if key == "network_id"));
}

#[test]
fn new_target_without_a_name_stops_the_run() {
    let mut collections = store();
    let rules = ObjectRule::new(
        network_rules(vec![rule(r#"{"network_id": "N1"}"#, &["N2"])]),
        &collections,
    );
    let mut report = Report::new();
    let error = rules.apply_rules(&mut collections, &mut report).unwrap_err();
    assert!(matches!(&error, RuleError::InvalidProperties(id) if id == "N1"));
    assert_eq!(error.message(), "The properties of \"N1\" must give a name");
    assert_eq!(ids(&collections.networks), vec!["N2", "N3"]);
    assert_eq!(collections.lines.get(0).network_id, "N2");
}

#[test]
fn failing_rule_keeps_what_earlier_rules_did_and_drops_new_entities() {
    let mut collections = store();
    let rules = ObjectRule::new(
        network_rules(vec![rule(MERGED, &["N2"]), rule(r#"{"name": "x"}"#, &["N3"])]),
        &collections,
    );
    let mut report = Report::new();
    let error = rules.apply_rules(&mut collections, &mut report).unwrap_err();
    assert!(matches!(&error, RuleError::KeyRequired(_)));
    assert_eq!(ids(&collections.networks), vec!["N3"]);
    assert_eq!(collections.lines.get(0).network_id, "N1");
    assert_eq!(collections.lines.get(1).network_id, "N3");
}

#[test]
fn commercial_and_physical_modes_are_regrouped() {
    let mut collections = store();
    let configuration = ObjectRuleConfiguration {
        networks_rules: None,
        commercial_modes_rules: Some(vec![rule(
            r#"{"commercial_mode_id": "Road", "name": "Road"}"#,
            &["Bus", "Coach"],
        )]),
        physical_modes_rules: Some(vec![rule(
            r#"{"physical_mode_id": "Bus"}"#,
            &["Trolley", "Tram"],
        )]),
    };
    let rules = ObjectRule::new(configuration, &collections);
    let mut report = Report::new();
    rules.apply_rules(&mut collections, &mut report).unwrap();
    assert_eq!(ids(&collections.commercial_modes), vec!["Road"]);
    assert_eq!(collections.commercial_modes.get(0).name, "Road");
    assert_eq!(collections.lines.get(0).commercial_mode_id, "Road");
    assert_eq!(collections.lines.get(1).commercial_mode_id, "Road");
    assert_eq!(collections.lines.get(0).network_id, "N2");
    assert_eq!(collections.lines.get(1).network_id, "N3");
    assert_eq!(ids(&collections.physical_modes), vec!["Bus"]);
    assert_eq!(collections.vehicle_journeys.get(0).physical_mode_id, "Bus");
    assert_eq!(collections.vehicle_journeys.get(1).physical_mode_id, "Bus");
    assert_eq!(collections.vehicle_journeys.get(1).id, "VJ2");
    assert_eq!(ids(&collections.networks), vec!["N2", "N3"]);
    assert_eq!(
        messages(&report),
        vec![(
            ReportCategory::ObjectNotFound,
            "The identifier \"Tram\" doesn't exist, and therefore cannot be regrouped in \"Bus\""
                .to_string()
        )]
    );
}

#[test]
fn failure_on_networks_leaves_the_other_categories_alone() {
    let mut collections = store();
    let configuration = ObjectRuleConfiguration {
        networks_rules: Some(vec![rule(r#"{}"#, &["N2"])]),
        commercial_modes_rules: Some(vec![rule(
            r#"{"commercial_mode_id": "Road", "name": "Road"}"#,
            &["Bus"],
        )]),
        physical_modes_rules: None,
    };
    let rules = ObjectRule::new(configuration, &collections);
    let mut report = Report::new();
    assert!(rules.apply_rules(&mut collections, &mut report).is_err());
    assert_eq!(ids(&collections.commercial_modes), vec!["Bus", "Coach"]);
    assert_eq!(collections.lines.get(0).commercial_mode_id, "Bus");
}

#[test]
fn configuration_without_rules_changes_nothing() {
    let mut collections = store();
    let configuration = ObjectRuleConfiguration {
        networks_rules: None,
        commercial_modes_rules: None,
        physical_modes_rules: None,
    };
    let rules = ObjectRule::new(configuration, &collections);
    let mut report = Report::new();
    rules.apply_rules(&mut collections, &mut report).unwrap();
    assert_eq!(ids(&collections.networks), vec!["N2", "N3"]);
    assert_eq!(ids(&collections.commercial_modes), vec!["Bus", "Coach"]);
    assert!(report.is_empty());
}

#[test]
fn references_resolve_after_a_pass() {
    let mut collections = store();
    collections.ticket_use_perimeters = vec![
        perimeter("TU1", ObjectType::Network, "N2"),
        perimeter("TU2", ObjectType::Line, "L2"),
    ];
    let rules = ObjectRule::new(network_rules(vec![rule(MERGED, &["N2", "N3"])]), &collections);
    let mut report = Report::new();
    rules.apply_rules(&mut collections, &mut report).unwrap();
    for row in collections.lines.rows() {
        assert!(collections.networks.contains_id(&row.network_id));
        assert!(collections.commercial_modes.contains_id(&row.commercial_mode_id));
    }
    for row in &collections.ticket_use_perimeters {
        match row.object_type {
            ObjectType::Network => assert!(collections.networks.contains_id(&row.object_id)),
            ObjectType::Line => assert!(collections.lines.contains_id(&row.object_id)),
        }
    }
    assert!(!collections.networks.contains_id("N2"));
    assert!(!collections.networks.contains_id("N3"));
}

#[test]
fn check_reads_the_identifier() {
    let properties = rule(MERGED, &["N2"]);
    assert_eq!(properties.check("network_id").unwrap(), "N1");
    assert_eq!(properties.check("name").unwrap(), "Merged");
    assert!(matches!(
        properties.check("physical_mode_id"),
        Err(RuleError::KeyRequired(key)) if key == "physical_mode_id"
    ));
    assert_eq!(properties.grouped_from(), &vec!["N2".to_string()]);
}

#[test]
fn target_that_an_earlier_rule_absorbed_is_created_again() {
    let mut collections = store();
    let rules = ObjectRule::new(
        network_rules(vec![
            rule(r#"{"network_id": "N3"}"#, &["N2"]),
            rule(r#"{"network_id": "N2", "name": "Again"}"#, &["N7"]),
        ]),
        &collections,
    );
    let mut report = Report::new();
    rules.apply_rules(&mut collections, &mut report).unwrap();
    assert_eq!(ids(&collections.networks), vec!["N3", "N2"]);
    assert_eq!(collections.networks.get(1).name, "Again");
    assert_eq!(collections.lines.get(0).network_id, "N3");
    assert_eq!(report.len(), 2);
}

#[test]
fn target_that_a_later_rule_absorbs_leaves_lines_behind() {
    let mut collections = store();
    collections.networks = Arena::from_rows(vec![
        network("N2", "Second"),
        network("N3", "Third"),
        network("N5", "Fifth"),
    ])
    .unwrap();
    let rules = ObjectRule::new(
        network_rules(vec![
            rule(r#"{"network_id": "N3"}"#, &["N2"]),
            rule(r#"{"network_id": "N5"}"#, &["N3"]),
        ]),
        &collections,
    );
    let mut report = Report::new();
    rules.apply_rules(&mut collections, &mut report).unwrap();
    assert_eq!(ids(&collections.networks), vec!["N5"]);
    assert_eq!(collections.lines.get(0).network_id, "N3");
    assert_eq!(collections.lines.get(1).network_id, "N5");
    assert!(report.is_empty());
}

#[test]
fn rule_that_absorbs_its_own_target_removes_it() {
    let mut collections = store();
    let rules =
        ObjectRule::new(network_rules(vec![rule(r#"{"network_id": "N2"}"#, &["N2"])]), &collections);
    let mut report = Report::new();
    rules.apply_rules(&mut collections, &mut report).unwrap();
    assert_eq!(ids(&collections.networks), vec!["N3"]);
    assert_eq!(collections.lines.get(0).network_id, "N2");
    assert!(report.is_empty());
}

#[test]
fn identifier_listed_twice_is_absorbed_once() {
    let mut collections = store();
    let rules =
        ObjectRule::new(network_rules(vec![rule(MERGED, &["N2", "N2"])]), &collections);
    let mut report = Report::new();
    rules.apply_rules(&mut collections, &mut report).unwrap();
    assert_eq!(ids(&collections.networks), vec!["N3", "N1"]);
    assert_eq!(collections.lines.get(0).network_id, "N1");
    assert!(report.is_empty());
}
