use ll_core::config::{
    resolve_formats, Config, Format, FormatExpansion, LocalConfig, Profile, Settings, ECAD, LL_CONFIG,
};
use ll_core::error::ExpandFailure;
use ll_core::error::LoaderError;
use ll_core::{download_once, download_part_id, EpwSource};

pub fn format(output_path: &str) -> Format {
    Format {
        format: ECAD::KiCad,
        output_path: output_path.to_string(),
        model_output_path: Some("models".to_string()),
        model_uri: Some("  ${KICAD_USER_3DMODELDIR}  ".to_string()),
        model_formats: vec![" .STP ".to_string(), "wrl".to_string(), "  ".to_string()],
        create_folder: Some(true),
    }
}

pub fn config_with(formats: Vec<(String, Format)>) -> Config {
    Config {
        self_path: None,
        settings: Settings { watch_path: "/tmp/watch".to_string(), recursive: false },
        formats,
        profile: Profile { username: String::new(), password: String::new() },
    }
}

#[test]
fn formats_are_resolved_with_their_overrides() {
    let config = config_with(vec![("QuartzPulseLib".to_string(), format("/tmp/out"))]);
    let resolved = config.formats().expect("resolved");
    assert_eq!(resolved.len(), 1);
    let f = &resolved[0];
    assert_eq!(f.name, "QuartzPulseLib");
    assert_eq!(f.ecad, ECAD::KiCad);
    assert_eq!(f.output_path, "/tmp/out");
    assert_eq!(f.model_output_path.as_deref(), Some("models"));
    assert_eq!(f.model_uri.as_deref(), Some("${KICAD_USER_3DMODELDIR}"));
    assert_eq!(f.model_extensions, Some(vec!["stp".to_string(), "wrl".to_string()]));
    assert_eq!(f.create_folder, Some(true));
}

#[test]
fn blank_overrides_are_left_unset() {
    let mut f = format("/tmp/out");
    f.model_uri = Some("   ".to_string());
    f.model_formats = Vec::new();
    f.model_output_path = None;
    f.create_folder = None;
    let config = config_with(vec![("Lib".to_string(), f)]);
    let resolved = config.formats().expect("resolved");
    assert_eq!(resolved[0].model_uri, None);
    assert_eq!(resolved[0].model_extensions, None);
    assert_eq!(resolved[0].model_output_path, None);
    assert_eq!(resolved[0].create_folder, None);
}

#[test]
fn an_unknown_variable_stops_resolution() {
    let config = config_with(vec![(
        "Lib".to_string(),
        format("$LL_CORE_TEST_VARIABLE_THAT_IS_NEVER_SET/out"),
    )]);
    assert!(matches!(config.formats(), Err(LoaderError::Shellexpand(_))));
    assert!(matches!(download_part_id(&config, 7), Err(LoaderError::Shellexpand(_))));
}

#[test]
fn downloads_carry_the_resolved_formats_and_their_source() {
    let config = config_with(vec![("Lib".to_string(), format("/tmp/out"))]);
    let by_id = download_part_id(&config, 42).expect("request");
    assert_eq!(by_id.formats.len(), 1);
    assert!(matches!(by_id.source, EpwSource::PartId(42)));
    let by_file = download_once(&config, "/tmp/part.epw".to_string()).expect("request");
    assert!(matches!(by_file.source, EpwSource::File(ref p) if p == "/tmp/part.epw"));
}

#[test]
fn a_given_config_path_wins() {
    assert_eq!(Config::path(Some("/etc/ll.toml".to_string())).expect("path"), "/etc/ll.toml");
    let mut config = config_with(Vec::new());
    config.self_path = Some("/home/me/LibraryLoader.toml".to_string());
    assert_eq!(config.save_path(None).expect("path"), "/home/me/LibraryLoader.toml");
    assert_eq!(config.save_path(Some("/x.toml".to_string())).expect("path"), "/x.toml");
}

#[test]
fn the_default_path_names_the_config_file() {
    if let Some(p) = Config::default_path() {
        assert!(p.ends_with(LL_CONFIG));
    }
}

#[test]
fn the_local_config_comes_before_the_global_one() {
    let local = Config::get_path(
        LocalConfig::Present(Ok("/work/LibraryLoader.toml".to_string())),
        Some("/home/.config/LibraryLoader.toml".to_string()),
        true,
    );
    assert_eq!(local.expect("found").as_deref(), Some("/work/LibraryLoader.toml"));
    let global = Config::get_path(LocalConfig::Absent, Some("/home/.config/LibraryLoader.toml".to_string()), true);
    assert_eq!(global.expect("found").as_deref(), Some("/home/.config/LibraryLoader.toml"));
    let none = Config::get_path(LocalConfig::Absent, Some("/home/.config/LibraryLoader.toml".to_string()), false);
    assert_eq!(none.expect("searched"), None);
    let failed = Config::get_path(LocalConfig::Present(Err(LoaderError::NoConfig)), None, false);
    assert!(matches!(failed, Err(LoaderError::NoConfig)));
}

#[test]
fn a_new_config_watches_one_directory() {
    let c = Config::with_watch_path("/tmp/dl".to_string());
    assert_eq!(c.settings.watch_path, "/tmp/dl");
    assert!(!c.settings.recursive);
    assert!(c.formats.is_empty());
    assert!(c.profile.username.is_empty() && c.profile.password.is_empty());
    if let Some(d) = Config::default_config() {
        assert!(d.formats.is_empty());
    }
}

#[test]
fn ecad_names() {
    assert_eq!(ECAD::KiCad.name(), "kicad");
    assert_eq!(ECAD::Zip.name(), "zip");
}

fn failure(var: &str) -> ExpandFailure {
    ExpandFailure {
        var_name: var.to_string(),
        cause: "environment variable not found".to_string(),
        message: format!("error looking key '{}' up: environment variable not found", var),
    }
}

#[test]
fn the_first_failed_expansion_ends_resolution() {
    let formats = vec![
        ("A".to_string(), format("/a")),
        ("B".to_string(), format("$B/b")),
        ("C".to_string(), format("$C/c")),
    ];
    let outcomes = vec![
        FormatExpansion { output: Ok("/a".to_string()), model: Some(Ok("models".to_string())) },
        FormatExpansion { output: Err(failure("B")), model: None },
    ];
    match resolve_formats(&formats, outcomes) {
        Err(LoaderError::Shellexpand(f)) => assert_eq!(f.var_name, "B"),
        other => panic!("unexpected {:?}", other),
    }
    let model_fails = vec![FormatExpansion { output: Ok("/a".to_string()), model: Some(Err(failure("M"))) }];
    match resolve_formats(&vec![("A".to_string(), format("/a"))], model_fails) {
        Err(LoaderError::Shellexpand(f)) => assert_eq!(f.var_name, "M"),
        other => panic!("unexpected {:?}", other),
    }
}

#[test]
fn resolution_uses_the_expanded_directories() {
    let formats = vec![("A".to_string(), format("~/a"))];
    let outcomes = vec![FormatExpansion {
        output: Ok("/home/me/a".to_string()),
        model: Some(Ok("/home/me/models".to_string())),
    }];
    let resolved = resolve_formats(&formats, outcomes).expect("resolved");
    assert_eq!(resolved[0].output_path, "/home/me/a");
    assert_eq!(resolved[0].model_output_path.as_deref(), Some("/home/me/models"));
    assert_eq!(resolved[0].name, "A");
}
