use serde_json::Value;
use transit_model::apply_rules::json::{text_member, Lookup};
use transit_model::apply_rules::object_rule::{
    holds_id, identifier_from, missing_text, repoint, repoint_perimeters, unapplied_text,
    ObjectProperties, RuleError,
};
use transit_model::apply_rules::reference_index::ReferenceIndex;
use transit_model::collection::Arena;
use transit_model::objects::{
    CommercialMode, Consolidated, Line, Linked, Network, ObjectType, PhysicalMode,
    TicketUsePerimeter, VehicleJourney,
};
use transit_model::report::{Report, ReportCategory};

fn json(text: &str) -> Value {
    serde_json::from_str(text).unwrap()
}

#[test]
fn text_member_reads_strings_only() {
    let value = json(r#"{"a": "text", "b": 3, "c": null, "d": {"a": "inner"}, "e": ""}"#);
    assert!(matches!(text_member(&value, "a"), Lookup::Text(text) if text == "text"));
    assert!(matches!(text_member(&value, "e"), Lookup::Text(text) if text.is_empty()));
    assert!(matches!(text_member(&value, "b"), Lookup::NotText));
    assert!(matches!(text_member(&value, "c"), Lookup::NotText));
    assert!(matches!(text_member(&value, "d"), Lookup::NotText));
    assert!(matches!(text_member(&value, "x"), Lookup::Absent));
    assert!(matches!(text_member(&value, "A"), Lookup::Absent));
}

#[test]
fn text_member_of_a_value_that_is_no_object_is_absent() {
    assert!(matches!(text_member(&json(r#""a""#), "a"), Lookup::Absent));
    assert!(matches!(text_member(&json(r#"["a"]"#), "a"), Lookup::Absent));
    assert!(matches!(text_member(&json("null"), "a"), Lookup::Absent));
}

#[test]
fn identifier_from_a_lookup() {
    assert_eq!(identifier_from(Lookup::Text("N1".to_string()), "network_id").unwrap(), "N1");
    assert!(matches!(
        identifier_from(Lookup::Absent, "network_id"),
        Err(RuleError::KeyRequired(key)) if key == "network_id"
    ));
    assert!(matches!(
        identifier_from(Lookup::NotText, "line_id"),
        Err(RuleError::MustBeFilled(key)) if key == "line_id"
    ));
}

#[test]
fn messages_of_the_issues() {
    assert_eq!(
        missing_text(&"N9".to_string(), &"N1".to_string()),
        "The identifier \"N9\" doesn't exist, and therefore cannot be regrouped in \"N1\""
    );
    assert_eq!(
        unapplied_text(&"N1".to_string()),
        "The rule on identifier \"N1\" was not applied"
    );
}

#[test]
fn keys_of_the_categories() {
    assert_eq!(Network::id_key(), "network_id");
    assert_eq!(CommercialMode::id_key(), "commercial_mode_id");
    assert_eq!(PhysicalMode::id_key(), "physical_mode_id");
    assert!(Network::named_in_perimeters());
    assert!(!CommercialMode::named_in_perimeters());
    assert!(!PhysicalMode::named_in_perimeters());
    let made = Network::create("N1".to_string(), "One".to_string());
    assert_eq!(made.id, "N1");
    assert_eq!(made.name(), "One");
}

#[test]
fn relinked_changes_one_reference() {
    let line = Line {
        id: "L1".to_string(),
        network_id: "N1".to_string(),
        commercial_mode_id: "Bus".to_string(),
    };
    let moved = Linked::<Network>::relinked(&line, "N2".to_string());
    assert_eq!((moved.id.as_str(), moved.network_id.as_str()), ("L1", "N2"));
    assert_eq!(moved.commercial_mode_id, "Bus");
    let moved = Linked::<CommercialMode>::relinked(&line, "Tram".to_string());
    assert_eq!((moved.network_id.as_str(), moved.commercial_mode_id.as_str()), ("N1", "Tram"));
    assert_eq!(Linked::<Network>::linked_id(&line), "N1");
    assert_eq!(Linked::<CommercialMode>::linked_id(&line), "Bus");
    let journey = VehicleJourney { id: "VJ".to_string(), physical_mode_id: "Bus".to_string() };
    let moved = Linked::<PhysicalMode>::relinked(&journey, "Tram".to_string());
    assert_eq!((moved.id.as_str(), moved.physical_mode_id.as_str()), ("VJ", "Tram"));
}

#[test]
fn holds_id_scans_the_rows() {
    let rows = vec![Network { id: "N1".to_string(), name: String::new() }];
    assert!(holds_id(&rows, &"N1".to_string()));
    assert!(!holds_id(&rows, &"N2".to_string()));
}

fn perimeter(object_type: ObjectType, object_id: &str) -> TicketUsePerimeter {
    TicketUsePerimeter {
        ticket_use_id: "TU".to_string(),
        object_type,
        object_id: object_id.to_string(),
    }
}

#[test]
fn repoint_perimeters_moves_network_perimeters_only() {
    let mut perimeters = vec![
        perimeter(ObjectType::Network, "N2"),
        perimeter(ObjectType::Line, "N2"),
        perimeter(ObjectType::Network, "N3"),
    ];
    repoint_perimeters(&mut perimeters, &"N1".to_string(), &"N2".to_string());
    let objects: Vec<&str> = perimeters.iter().map(|row| row.object_id.as_str()).collect();
    assert_eq!(objects, vec!["N1", "N2", "N3"]);
}

#[test]
fn repoint_follows_the_index() {
    let networks = Arena::from_rows(vec![
        Network { id: "N2".to_string(), name: String::new() },
        Network { id: "N3".to_string(), name: String::new() },
    ])
    .unwrap();
    let line = |id: &str, network_id: &str| Line {
        id: id.to_string(),
        network_id: network_id.to_string(),
        commercial_mode_id: "Bus".to_string(),
    };
    let mut lines =
        Arena::from_rows(vec![line("L1", "N2"), line("L2", "N3"), line("L3", "N2")]).unwrap();
    let index = ReferenceIndex::build::<Network, Line>(&networks, &lines);
    let mut perimeters = vec![perimeter(ObjectType::Network, "N2")];
    let target = "N1".to_string();
    assert!(repoint::<Network, Line>(
        &index,
        &mut lines,
        &mut perimeters,
        &target,
        &"N2".to_string()
    ));
    let links: Vec<&str> = lines.rows().iter().map(|row| row.network_id.as_str()).collect();
    assert_eq!(links, vec!["N1", "N3", "N1"]);
    assert_eq!(perimeters[0].object_id, "N1");
    assert!(!repoint::<Network, Line>(
        &index,
        &mut lines,
        &mut perimeters,
        &target,
        &"N7".to_string()
    ));
    let links: Vec<&str> = lines.rows().iter().map(|row| row.network_id.as_str()).collect();
    assert_eq!(links, vec!["N1", "N3", "N1"]);
}

#[test]
fn apply_stages_a_new_target() {
    let mut networks =
        Arena::from_rows(vec![Network { id: "N2".to_string(), name: "Second".to_string() }])
            .unwrap();
    let mut lines = Arena::from_rows(vec![Line {
        id: "L1".to_string(),
        network_id: "N2".to_string(),
        commercial_mode_id: "Bus".to_string(),
    }])
    .unwrap();
    let index = ReferenceIndex::build::<Network, Line>(&networks, &lines);
    let rule = ObjectProperties::new(
        json(r#"{"network_id": "N1", "name": "Merged"}"#),
        vec!["N2".to_string(), "N8".to_string()],
    );
    let mut report = Report::new();
    let mut perimeters = Vec::new();
    let mut staged: Vec<Network> = Vec::new();
    rule.apply::<Network, Line>(
        &mut networks,
        &mut report,
        &index,
        &mut lines,
        &mut perimeters,
        &mut staged,
    )
    .unwrap();
    assert_eq!(networks.len(), 0);
    assert_eq!(staged.len(), 1);
    assert_eq!((staged[0].id.as_str(), staged[0].name.as_str()), ("N1", "Merged"));
    assert_eq!(lines.get(0).network_id, "N1");
    assert_eq!(report.len(), 1);
    assert_eq!(report.get(0).category, ReportCategory::ObjectNotFound);
    assert_eq!(
        report.get(0).message,
        "The identifier \"N8\" doesn't exist, and therefore cannot be regrouped in \"N1\""
    );
}

#[test]
fn regroup_says_whether_anything_was_repointed() {
    let networks = Arena::from_rows(vec![
        Network { id: "N2".to_string(), name: String::new() },
        Network { id: "N4".to_string(), name: String::new() },
    ])
    .unwrap();
    let mut lines = Arena::from_rows(vec![Line {
        id: "L1".to_string(),
        network_id: "N2".to_string(),
        commercial_mode_id: "Bus".to_string(),
    }])
    .unwrap();
    let index = ReferenceIndex::build::<Network, Line>(&networks, &lines);
    let mut report = Report::new();
    let mut perimeters = Vec::new();
    let idle = ObjectProperties::new(json("{}"), vec!["N4".to_string()]);
    let changed = idle
        .regroup::<Network, Line>(
            &"N1".to_string(),
            &networks,
            &mut report,
            &index,
            &mut lines,
            &mut perimeters,
        )
        .unwrap();
    assert!(!changed);
    assert_eq!(lines.get(0).network_id, "N2");
    assert!(report.is_empty());
    let busy = ObjectProperties::new(json("{}"), vec!["N4".to_string(), "N2".to_string()]);
    let changed = busy
        .regroup::<Network, Line>(
            &"N1".to_string(),
            &networks,
            &mut report,
            &index,
            &mut lines,
            &mut perimeters,
        )
        .unwrap();
    assert!(changed);
    assert_eq!(lines.get(0).network_id, "N1");
}
