use ll_core::requirements::{
    all_required_present, default_requirements, missing_requirements, plan_requirements,
    recommendation, Requirement, RequirementStatus,
};

#[test]
fn requirement_names_and_aliases_parse() {
    assert_eq!(Requirement::parse("symbol"), Some(Requirement::Symbol));
    assert_eq!(Requirement::parse(" Schematic "), Some(Requirement::Symbol));
    assert_eq!(Requirement::parse("PCB"), Some(Requirement::Footprint));
    assert_eq!(Requirement::parse("3d_models"), Some(Requirement::Model3d));
    assert_eq!(Requirement::parse("legacy_symbols"), Some(Requirement::Legacy));
    assert_eq!(Requirement::parse("archive"), Some(Requirement::Zip));
    assert_eq!(Requirement::parse("gerber"), None);
    assert_eq!(Requirement::parse(""), None);
}

#[test]
fn requirement_names_round_trip() {
    for r in [
        Requirement::Symbol,
        Requirement::Footprint,
        Requirement::Model3d,
        Requirement::Legacy,
        Requirement::Zip,
    ] {
        assert_eq!(Requirement::parse(r.as_str()), Some(r));
        assert_eq!(Requirement::parse(&format!("  {}  ", r.as_str().to_ascii_uppercase())), Some(r));
        assert_eq!(Requirement::parse(&format!("\t{}\n", r.as_str())), Some(r));
    }
    assert_eq!(Requirement::Model3d.as_str(), "3d");
}

#[test]
fn plan_keeps_first_requests_and_unknown_words() {
    let requested = vec![
        "symbol".to_string(),
        "bogus".to_string(),
        "Symbols".to_string(),
        "3d".to_string(),
    ];
    let plan = plan_requirements("  SS20PH102-M3/I \t", &requested).expect("plan");
    assert_eq!(plan.mpn, "SS20PH102-M3/I");
    assert_eq!(plan.requirements, vec![Requirement::Symbol, Requirement::Model3d]);
    assert_eq!(plan.unknown, vec!["bogus".to_string()]);
}

#[test]
fn plan_refuses_an_empty_part_number() {
    let err = plan_requirements("   ", &default_requirements()).err().expect("error");
    assert_eq!(err, "mpn must not be empty");
}

#[test]
fn plan_refuses_requests_that_name_no_requirement() {
    let err = plan_requirements("X", &vec!["gerber".to_string()]).err().expect("error");
    assert_eq!(err, "At least one valid requirement is required");
}

#[test]
fn default_requirements_are_symbol_footprint_and_model() {
    assert_eq!(default_requirements(), vec!["symbol", "footprint", "3d"]);
}

#[test]
fn missing_requirements_and_recommendation() {
    let statuses = vec![
        RequirementStatus { requirement: Requirement::Symbol, present: true },
        RequirementStatus { requirement: Requirement::Footprint, present: false },
        RequirementStatus { requirement: Requirement::Model3d, present: false },
    ];
    assert!(!all_required_present(&statuses));
    assert_eq!(missing_requirements(&statuses), vec![Requirement::Footprint, Requirement::Model3d]);
    assert_eq!(recommendation(&statuses), "missing_assets");

    let ready = vec![RequirementStatus { requirement: Requirement::Symbol, present: true }];
    assert!(all_required_present(&ready));
    assert!(missing_requirements(&ready).is_empty());
    assert_eq!(recommendation(&ready), "ready");
}
