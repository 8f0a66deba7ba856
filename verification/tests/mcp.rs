use ll_core::config::{Config, Format, Profile, Settings, ECAD};
use ll_core::error::ExpandFailure;
use ll_core::mcp::{
    check_part_id, config_path_from, tool_answer, ToolAnswer, found_config_path, kicad_format_count, protocol_version, quartzpulse_path_count, replies,
    resolve_config_path, sorted_format_names, tool_list, unknown_method_message,
    value_contains_quartzpulse, ArgKind, RpcMethod, RpcToolError, Tool, INVALID_PARAMS,
    METHOD_NOT_FOUND, PARSE_ERROR,
};

#[test]
fn methods_are_recognised() {
    assert_eq!(RpcMethod::from_name("initialize"), RpcMethod::Initialize);
    assert_eq!(RpcMethod::from_name("notifications/initialized"), RpcMethod::Initialized);
    assert_eq!(RpcMethod::from_name("ping"), RpcMethod::Ping);
    assert_eq!(RpcMethod::from_name("tools/list"), RpcMethod::ToolsList);
    assert_eq!(RpcMethod::from_name("tools/call"), RpcMethod::ToolsCall);
    assert_eq!(RpcMethod::from_name("tools/Call"), RpcMethod::Unknown);
    assert_eq!(unknown_method_message("resources/list"), "Unknown method: resources/list");
}

#[test]
fn notifications_get_no_answer() {
    assert!(replies(RpcMethod::Ping, true));
    assert!(!replies(RpcMethod::Ping, false));
    assert!(!replies(RpcMethod::Initialized, true));
    assert!(replies(RpcMethod::Unknown, true));
}

#[test]
fn tools_are_recognised() {
    assert_eq!(Tool::from_name("exists").ok(), Some(Tool::ExistsLocally));
    assert_eq!(Tool::from_name("exists_locally").ok(), Some(Tool::ExistsLocally));
    assert_eq!(Tool::from_name("vet_part").ok(), Some(Tool::VetPart));
    assert_eq!(Tool::from_name("rm_rf").err().as_deref(), Some("Unknown tool: rm_rf"));
}

#[test]
fn every_listed_tool_can_be_called() {
    let tools = tool_list();
    let names: Vec<&str> = tools.iter().map(|t| t.name).collect();
    assert_eq!(
        names,
        vec![
            "validate_config",
            "list_formats",
            "exists",
            "exists_locally",
            "exists_on_server",
            "format_exists_server",
            "has_required_formats",
            "vet_part",
            "download_epw",
            "download_part_id",
        ]
    );
    for t in &tools {
        assert_eq!(Tool::from_name(t.name).ok(), Some(t.tool));
    }
    assert_eq!(
        tools[0].description,
        "Validate LibraryLoader.toml and summarize configured outputs without revealing credentials."
    );
    assert_eq!(
        tools[0].args[0].description,
        Some("Optional LibraryLoader.toml path. Defaults to the server --config path.")
    );
    assert_eq!(tools[1].args[0].description, None);
    let has_required = &tools[6];
    let required: Vec<&str> = has_required.args.iter().filter(|a| a.required).map(|a| a.name).collect();
    assert_eq!(required, vec!["mpn", "requirements"]);
    assert_eq!(has_required.args[1].kind, ArgKind::SomeRequirements);
}

#[test]
fn error_codes() {
    assert_eq!(PARSE_ERROR, -32700);
    let e = RpcToolError::invalid_params("bad".to_string());
    assert_eq!((e.code, e.message.as_str()), (INVALID_PARAMS, "bad"));
    assert_eq!(INVALID_PARAMS, -32602);
    let e = RpcToolError::method_not_found("nope".to_string());
    assert_eq!((e.code, e.message.as_str()), (METHOD_NOT_FOUND, "nope"));
    assert_eq!(METHOD_NOT_FOUND, -32601);
    assert_eq!(RpcToolError::missing_tool_name().message, "Missing tool name");
    assert_eq!(RpcToolError::invalid_arguments("missing field `mpn`").message, "Invalid tool arguments: missing field `mpn`");
}

#[test]
fn protocol_version_defaults() {
    assert_eq!(protocol_version(None), "2024-11-05");
    assert_eq!(protocol_version(Some("2025-03-26".to_string())), "2025-03-26");
}

fn format(ecad: ECAD, output_path: &str, model_output_path: Option<&str>) -> Format {
    Format {
        format: ecad,
        output_path: output_path.to_string(),
        model_output_path: model_output_path.map(str::to_string),
        model_uri: None,
        model_formats: Vec::new(),
        create_folder: None,
    }
}

fn config() -> Config {
    Config {
        self_path: None,
        settings: Settings { watch_path: "/tmp".to_string(), recursive: true },
        formats: vec![
            ("zeta".to_string(), format(ECAD::KiCad, "~/Documents/QuartzPulse", None)),
            ("alpha".to_string(), format(ECAD::Eagle, "/tmp/eagle", Some("/x/QuartzPulse/3d"))),
            ("mid".to_string(), format(ECAD::KiCad, "/tmp/kicad", None)),
        ],
        profile: Profile { username: "u".to_string(), password: String::new() },
    }
}

#[test]
fn configuration_summary_counts() {
    let c = config();
    assert_eq!(kicad_format_count(&c), 2);
    assert_eq!(quartzpulse_path_count(&c), 2);
    assert!(value_contains_quartzpulse(Some("/home/me/QuartzPulse")));
    assert!(!value_contains_quartzpulse(Some("/home/me/quartzpulse")));
    assert!(!value_contains_quartzpulse(None));
    assert_eq!(sorted_format_names(&c), vec!["alpha", "mid", "zeta"]);
}

#[test]
fn config_paths_of_requests() {
    assert_eq!(resolve_config_path(Some("/a/LibraryLoader.toml"), &None).expect("ok"), Some("/a/LibraryLoader.toml".to_string()));
    assert_eq!(resolve_config_path(None, &Some("/srv/ll.toml".to_string())).expect("ok"), Some("/srv/ll.toml".to_string()));
    assert_eq!(resolve_config_path(None, &None).expect("ok"), None);
    assert!(resolve_config_path(Some("$LL_CORE_TEST_VARIABLE_THAT_IS_NEVER_SET/x"), &None).is_err());
    assert_eq!(found_config_path(None).err().as_deref(), Some("No LibraryLoader.toml found"));
    assert_eq!(found_config_path(Some("/x".to_string())).ok().as_deref(), Some("/x"));
}

#[test]
fn config_path_from_expansions() {
    assert_eq!(config_path_from(Some(Ok("/x/ll.toml".to_string())), &None).expect("ok"), Some("/x/ll.toml".to_string()));
    let failure = ExpandFailure { var_name: "V".to_string(), cause: "c".to_string(), message: "error looking key 'V' up: c".to_string() };
    assert_eq!(config_path_from(Some(Err(failure)), &Some("/d".to_string())).err().as_deref(), Some("error looking key 'V' up: c"));
    assert_eq!(config_path_from(None, &Some("/d".to_string())).expect("ok"), Some("/d".to_string()));
}

#[test]
fn part_ids_must_be_positive() {
    assert_eq!(check_part_id(0).err().as_deref(), Some("part_id must be greater than zero"));
    assert_eq!(check_part_id(12).ok(), Some(12));
}

#[test]
fn failing_tools_are_answered_as_error_results() {
    assert_eq!(tool_answer(true, false), ToolAnswer::Success);
    assert_eq!(tool_answer(true, true), ToolAnswer::ToolError);
    assert_eq!(tool_answer(false, true), ToolAnswer::RpcError);
    assert_eq!(tool_answer(false, false), ToolAnswer::RpcError);
}

#[test]
fn a_probe_is_made_under_the_configured_account() {
    let c = config();
    let probe = ll_core::probe_part_id(&c, 77);
    assert_eq!(probe.part_id, 77);
    assert_eq!(probe.username, "u");
    assert_eq!(probe.password, "");
}
