use ll_core::assets::{
    dedupe_paths, file_counts, file_matches_requirement, model_extensions,
    model_root, path_matches_part, roots_for_requirement, should_skip_dir,
    text_matches_part, text_size_ok, FileCheck, MAX_MATCHES, MAX_SCAN_ENTRIES,
};
use ll_core::config::{Format, ECAD};
use ll_core::requirements::Requirement;
use ll_core::error::ExpandFailure;
use ll_core::scan::{format_scan, format_scan_from, Entry, EntryStep, ScanState};

fn kicad(model_output_path: Option<&str>, model_formats: &[&str]) -> Format {
    Format {
        format: ECAD::KiCad,
        output_path: "/out".to_string(),
        model_output_path: model_output_path.map(str::to_string),
        model_uri: None,
        model_formats: model_formats.iter().map(|s| s.to_string()).collect(),
        create_folder: None,
    }
}

fn strings(v: &[&str]) -> Vec<String> {
    v.iter().map(|s| s.to_string()).collect()
}

#[test]
fn model_extensions_default_sorted_and_deduplicated() {
    assert_eq!(model_extensions(&kicad(None, &[])), strings(&["step", "stl", "stp", "wrl"]));
    assert_eq!(model_extensions(&kicad(None, &["STP", ".step", "stp", " "])), strings(&["step", "stp"]));
}

#[test]
fn repeated_paths_are_dropped() {
    assert_eq!(dedupe_paths(strings(&["a", "b", "a", "c", "b"])), strings(&["a", "b", "c"]));
    assert!(dedupe_paths(Vec::new()).is_empty());
}

#[test]
fn kicad_roots_per_requirement() {
    let f = kicad(Some("models"), &[]);
    assert_eq!(
        roots_for_requirement("Lib", "/out", &f, Requirement::Symbol),
        strings(&["/out/Lib.kicad_sym", "/out/Lib.legacy"])
    );
    assert_eq!(roots_for_requirement("Lib", "/out", &f, Requirement::Footprint), strings(&["/out/Lib.pretty"]));
    assert_eq!(
        roots_for_requirement("Lib", "/out", &f, Requirement::Model3d),
        strings(&["/out/models", "/out/Lib.pretty"])
    );
    assert_eq!(roots_for_requirement("Lib", "/out", &f, Requirement::Legacy), strings(&["/out/Lib.legacy"]));
    assert!(roots_for_requirement("Lib", "/out", &f, Requirement::Zip).is_empty());
    let no_models = kicad(None, &[]);
    assert_eq!(
        roots_for_requirement("Lib", "/out", &no_models, Requirement::Model3d),
        strings(&["/out/Lib.pretty"])
    );
    let absolute = kicad(Some("/srv/3d"), &[]);
    assert_eq!(model_root("Lib", "/out", &absolute), "/srv/3d");
}

#[test]
fn other_formats_search_their_output_directory() {
    let mut f = kicad(None, &[]);
    f.format = ECAD::Eagle;
    assert_eq!(roots_for_requirement("Lib", "/out", &f, Requirement::Symbol), strings(&["/out"]));
    assert!(roots_for_requirement("Lib", "/out", &f, Requirement::Zip).is_empty());
    f.format = ECAD::Zip;
    assert_eq!(roots_for_requirement("Lib", "/out", &f, Requirement::Zip), strings(&["/out"]));
}

#[test]
fn hidden_and_build_directories_are_skipped() {
    assert!(should_skip_dir("/lib/.git"));
    assert!(should_skip_dir("/lib/node_modules/"));
    assert!(should_skip_dir("target"));
    assert!(!should_skip_dir("/lib/QuartzPulseLib.pretty"));
}

#[test]
fn files_are_checked_by_extension_and_name() {
    let exts = strings(&["step", "stp"]);
    let mpn = "SS20PH102-M3/I";
    assert_eq!(
        file_matches_requirement("/l/Lib.pretty/SS20PH102-M3_I.kicad_mod", Requirement::Footprint, mpn, &exts),
        FileCheck::Match
    );
    assert_eq!(
        file_matches_requirement("/l/Lib.pretty/other.KICAD_MOD", Requirement::Footprint, mpn, &exts),
        FileCheck::ReadContents
    );
    assert_eq!(file_matches_requirement("/l/Lib.kicad_sym", Requirement::Symbol, mpn, &exts), FileCheck::ReadContents);
    assert_eq!(file_matches_requirement("/l/x.dcm", Requirement::Legacy, mpn, &exts), FileCheck::ReadContents);
    assert_eq!(file_matches_requirement("/l/x.kicad_sym", Requirement::Legacy, mpn, &exts), FileCheck::NoMatch);
    assert_eq!(file_matches_requirement("/l/models/SS20PH102-M3_I.step", Requirement::Model3d, mpn, &exts), FileCheck::Match);
    assert_eq!(file_matches_requirement("/l/models/SS20PH102-M3_I.wrl", Requirement::Model3d, mpn, &exts), FileCheck::NoMatch);
    assert_eq!(file_matches_requirement("/l/models/other.step", Requirement::Model3d, mpn, &exts), FileCheck::NoMatch);
    assert_eq!(file_matches_requirement("/l/SS20PH102-M3_I.zip", Requirement::Zip, mpn, &exts), FileCheck::Match);
    assert!(path_matches_part("/l/ss20ph102m3i.lib", mpn));
    assert!(!path_matches_part("/", mpn));
}

#[test]
fn file_text_decides_when_the_name_does_not() {
    let mpn = "SS20PH102-M3/I";
    assert!(text_matches_part(b"(symbol \"SS20PH102-M3/I\")", mpn));
    assert!(text_matches_part(b"\xff(symbol \"ss20ph102_m3_i\")\xfe", mpn));
    assert!(!text_matches_part(b"(symbol \"OTHER\")", mpn));
    assert!(file_counts(FileCheck::Match, None, mpn));
    assert!(!file_counts(FileCheck::NoMatch, Some(&b"SS20PH102-M3/I"[..]), mpn));
    assert!(file_counts(FileCheck::ReadContents, Some(&b"SS20PH102-M3/I"[..]), mpn));
    assert!(!file_counts(FileCheck::ReadContents, None, mpn));
    assert!(text_size_ok(16 * 1024 * 1024));
    assert!(!text_size_ok(16 * 1024 * 1024 + 1));
}

#[test]
fn scan_limits() {
    let mut s = ScanState::new();
    assert!(!s.limit_reached());
    for i in 0..MAX_MATCHES {
        s.entry(Entry::File(format!("/m{:03}", i), true));
    }
    assert_eq!(s.matches.len(), MAX_MATCHES);
    assert!(s.limit_reached());
    assert!(!s.arrive("/m999".to_string(), true, true, 0));
    assert_eq!(s.entries_seen, MAX_MATCHES);
}

#[test]
fn offline_asset_scan_finds_symbol_footprint_and_model() {
    let mut f = kicad(Some("models"), &["step", "stp", "wrl"]);
    f.output_path = "/root/lib".to_string();
    let mpn = "SS20PH102-M3/I";

    // Symbol: the library file is itself a root and a file.
    let plan = format_scan("QuartzPulseLib", &f, Requirement::Symbol).expect("plan");
    assert_eq!(plan.roots, strings(&["/root/lib/QuartzPulseLib.kicad_sym", "/root/lib/QuartzPulseLib.legacy"]));
    let mut symbol = ScanState::new();
    symbol.note_root(plan.roots[0].clone());
    let check = file_matches_requirement(&plan.roots[0], Requirement::Symbol, mpn, &plan.model_extensions);
    let counts = file_counts(check, Some(&b"(symbol \"SS20PH102-M3/I\")"[..]), mpn);
    assert!(!symbol.arrive(plan.roots[0].clone(), true, counts, 0));
    symbol.finish();
    assert!(symbol.status(Requirement::Symbol).present);
    assert_eq!(symbol.entries_seen, 1);

    // Footprint: a directory whose listing holds the footprint.
    let plan = format_scan("QuartzPulseLib", &f, Requirement::Footprint).expect("plan");
    let mut footprint = ScanState::new();
    footprint.note_root(plan.roots[0].clone());
    assert!(footprint.arrive(plan.roots[0].clone(), false, false, 0));
    let path = "/root/lib/QuartzPulseLib.pretty/SS20PH102-M3_I.kicad_mod";
    let check = file_matches_requirement(path, Requirement::Footprint, mpn, &plan.model_extensions);
    assert!(matches!(
        footprint.entry(Entry::File(path.to_string(), file_counts(check, None, mpn))),
        EntryStep::Next
    ));
    assert!(matches!(footprint.entry(Entry::Dir("/root/lib/QuartzPulseLib.pretty/.git".to_string())), EntryStep::Next));
    assert!(matches!(
        footprint.entry(Entry::Unreadable("permission denied".to_string())),
        EntryStep::Next
    ));
    assert_eq!(footprint.matches, strings(&[path]));
    assert_eq!(footprint.errors, strings(&["permission denied"]));
    assert_eq!(footprint.entries_seen, 2);

    // Model: the model directory is walked into.
    let plan = format_scan("QuartzPulseLib", &f, Requirement::Model3d).expect("plan");
    assert_eq!(plan.roots, strings(&["/root/lib/models", "/root/lib/QuartzPulseLib.pretty"]));
    let mut model = ScanState::new();
    model.note_root(plan.roots[0].clone());
    assert!(model.arrive(plan.roots[0].clone(), false, false, 0));
    match model.entry(Entry::Dir("/root/lib/models/sub".to_string())) {
        EntryStep::Descend(d) => assert!(model.arrive(d, false, false, 1)),
        other => panic!("unexpected step {:?}", other),
    }
    let path = "/root/lib/models/sub/SS20PH102-M3_I.step";
    let check = file_matches_requirement(path, Requirement::Model3d, mpn, &plan.model_extensions);
    model.entry(Entry::File(path.to_string(), file_counts(check, None, mpn)));
    model.finish();
    assert!(model.status(Requirement::Model3d).present);
    assert_eq!(model.roots_checked, strings(&["/root/lib/models"]));
    assert!(model.errors.is_empty());
}

#[test]
fn the_walk_stops_at_its_limits() {
    let mut s = ScanState::new();
    assert!(!s.arrive("/deep".to_string(), false, false, 8));
    assert!(s.arrive("/shallow".to_string(), false, false, 7));
    for i in 0..MAX_SCAN_ENTRIES {
        let step = s.entry(Entry::File(format!("/f{}", i), false));
        assert!(matches!(step, EntryStep::Next));
    }
    assert!(s.limit_reached());
    assert!(matches!(s.entry(Entry::File("/late".to_string(), true)), EntryStep::Stop));
    assert!(s.matches.is_empty());
    s.finish();
    assert_eq!(s.errors, strings(&["scan stopped after 30000 filesystem entries"]));
}

#[test]
fn matches_are_kept_sorted_and_once() {
    let mut s = ScanState::new();
    s.entry(Entry::File("/b".to_string(), true));
    s.entry(Entry::File("/a".to_string(), true));
    s.entry(Entry::File("/b".to_string(), true));
    assert_eq!(s.matches, strings(&["/a", "/b"]));
}

#[test]
fn an_unknown_variable_in_the_output_directory_is_reported() {
    let mut f = kicad(None, &[]);
    f.output_path = "${LL_CORE_TEST_VARIABLE_THAT_IS_NEVER_SET}/lib".to_string();
    let err = format_scan("Lib", &f, Requirement::Symbol).err().expect("error");
    assert!(err.starts_with("Lib.output_path: error looking key 'LL_CORE_TEST_VARIABLE_THAT_IS_NEVER_SET' up"));
}

fn failure(message: &str) -> ExpandFailure {
    ExpandFailure { var_name: "X".to_string(), cause: "gone".to_string(), message: message.to_string() }
}

#[test]
fn a_format_is_searched_where_its_directories_expanded_to() {
    let f = kicad(Some("$MODELS/3d"), &[]);
    let plan = format_scan_from("Lib", &f, Requirement::Model3d, Ok("/home/me/out".to_string()), Some(Ok("/srv/3d".to_string())))
        .expect("plan");
    assert_eq!(plan.roots, strings(&["/srv/3d", "/home/me/out/Lib.pretty"]));
    let kept = format_scan_from("Lib", &f, Requirement::Model3d, Ok("/o".to_string()), Some(Err(failure("no MODELS"))))
        .expect("plan");
    assert_eq!(kept.roots, strings(&["$MODELS/3d", "/o/Lib.pretty"]));
    let err = format_scan_from("Lib", &f, Requirement::Model3d, Err(failure("no OUT")), None).err().expect("error");
    assert_eq!(err, "Lib.output_path: no OUT");
}

#[test]
fn a_walk_keeps_what_it_found() {
    let mut s = ScanState::new();
    s.note_root("/r".to_string());
    s.entry(Entry::File("/r/a".to_string(), true));
    s.entry(Entry::Unreadable("denied".to_string()));
    let before_matches = s.matches.clone();
    let before_errors = s.errors.clone();
    let before_seen = s.entries_seen;
    assert!(s.arrive("/r/sub".to_string(), false, false, 1));
    s.entry(Entry::File("/r/sub/b".to_string(), true));
    s.entry(Entry::Dir("/r/sub/target".to_string()));
    s.note_error("late".to_string());
    s.finish();
    assert!(s.entries_seen >= before_seen);
    assert!(before_matches.iter().all(|m| s.matches.contains(m)));
    assert_eq!(&s.errors[..before_errors.len()], &before_errors[..]);
    assert_eq!(s.roots_checked, strings(&["/r"]));
}
