use ll_core::config::ECAD;
use ll_core::extractors::generic_extractor;
use ll_core::format::{Format, ModelUris};
use ll_core::kicad::{collect_model_uris, extract, model_output_key, rewrite_model_line, rewrite_model_paths};
use ll_core::symbols::{merge_symbol_libraries, symbol_already_present, symbol_files_are_ok, EMPTY_SYMBOL_LIBRARY};
use std::io::Write;

fn zip_of(entries: &[(&str, &[u8])]) -> Vec<u8> {
    let mut writer = zip::ZipWriter::new(std::io::Cursor::new(Vec::new()));
    let options = zip::write::SimpleFileOptions::default();
    for (name, data) in entries {
        if name.ends_with('/') {
            writer.add_directory(*name, options).expect("directory");
        } else {
            writer.start_file(*name, options).expect("start file");
            writer.write_all(data).expect("write file");
        }
    }
    writer.finish().expect("finish").into_inner()
}

fn kicad_format() -> Format {
    Format {
        name: "QuartzPulseLib".to_string(),
        ecad: ECAD::KiCad,
        output_path: "/tmp/kicad-output".to_string(),
        model_output_path: Some("/tmp/kicad-models".to_string()),
        model_uri: Some("${QP_3DMODELS}".to_string()),
        model_extensions: vec!["stp".to_string(), "step".to_string(), "wrl".to_string()],
        create_folder: false,
        match_path: "KiCad".to_string(),
        ignore: Vec::new(),
    }
}

const FOOTPRINT: &str = "(footprint \"QFP80P900X900X120-32N\"\n  (model \"${KIPRJMOD}/ATMEGA328P-AU.stp\"\n    (at (xyz 0 0 0))\n  )\n)\n";

fn fixture() -> Vec<u8> {
    zip_of(&[
        ("LIB_ATMEGA328P-AU/", b""),
        ("LIB_ATMEGA328P-AU/KiCad/QFP80P900X900X120-32N.kicad_mod", FOOTPRINT.as_bytes()),
        ("LIB_ATMEGA328P-AU/3D/ATMEGA328P-AU.stp", b"ISO-10303-21;"),
        ("LIB_ATMEGA328P-AU/3D/ATMEGA328P-AU.wrl", b"#VRML V2.0 utf8"),
        ("LIB_ATMEGA328P-AU/KiCad/ATMEGA328P-AU.lib", b"EESchema-LIBRARY Version 2.3"),
        ("LIB_ATMEGA328P-AU/KiCad/ATMEGA328P-AU.kicad_sym", b"(kicad_symbol_lib)\n"),
        ("LIB_ATMEGA328P-AU/readme.txt", b"hello"),
    ])
}

#[test]
fn extracts_models_to_configured_output_and_rewrites_footprint() {
    let data = fixture();
    let mut archive = zip::ZipArchive::new(std::io::Cursor::new(data.as_slice())).expect("valid fixture");
    let format = kicad_format();

    let extracted = extract(&format, &mut archive).expect("extract fixture");
    let footprint = extracted
        .files
        .get("QuartzPulseLib.pretty/QFP80P900X900X120-32N.kicad_mod")
        .expect("footprint extracted");
    let footprint = String::from_utf8(footprint.clone()).expect("utf8 footprint");
    assert!(footprint.contains("\"${QP_3DMODELS}/ATMEGA328P-AU.stp\""));
    assert!(!footprint.contains("KIPRJMOD"));
    assert_eq!(
        extracted.files.get("/tmp/kicad-models/ATMEGA328P-AU.stp").map(|d| d.as_slice()),
        Some(&b"ISO-10303-21;"[..])
    );
    assert!(extracted.files.get("/tmp/kicad-models/ATMEGA328P-AU.wrl").is_some());
    assert!(extracted.files.get("QuartzPulseLib.legacy/ATMEGA328P-AU.lib").is_some());
    assert!(extracted.files.get("readme.txt").is_none());
    assert_eq!(extracted.symbols, vec!["LIB_ATMEGA328P-AU/KiCad/ATMEGA328P-AU.kicad_sym".to_string()]);
}

#[test]
fn models_go_beside_footprints_without_a_model_directory() {
    let mut format = kicad_format();
    format.model_output_path = None;
    assert_eq!(
        model_output_key(&format, "QuartzPulseLib.pretty", "part.stp"),
        "QuartzPulseLib.pretty/part.stp"
    );
    format.model_output_path = Some("models".to_string());
    assert_eq!(model_output_key(&format, "QuartzPulseLib.pretty", "part.stp"), "models/part.stp");
}

fn uris() -> ModelUris {
    let mut uris = ModelUris::new();
    uris.insert("part.stp".to_string(), "${QP}/part.stp".to_string());
    uris
}

#[test]
fn model_lines_are_rewritten_quoted_or_not() {
    let uris = uris();
    assert_eq!(
        rewrite_model_line("  (model \"/old/place/part.stp\" (at 0))", &uris).as_deref(),
        Some("  (model \"${QP}/part.stp\" (at 0))")
    );
    assert_eq!(
        rewrite_model_line("(model   ../3d/part.stp)", &uris).as_deref(),
        Some("(model   \"${QP}/part.stp\")")
    );
    assert_eq!(rewrite_model_line("(model \"other.stp\")", &uris), None);
    assert_eq!(rewrite_model_line("(model \"unterminated", &uris), None);
    assert_eq!(rewrite_model_line("(pad 1 smd rect)", &uris), None);
}

#[test]
fn rewriting_a_rewritten_line_changes_nothing() {
    let uris = uris();
    let once = rewrite_model_line("(model \"/x/part.stp\")", &uris).expect("rewritten");
    let twice = rewrite_model_line(&once, &uris).expect("rewritten again");
    assert_eq!(once, twice);
}

#[test]
fn footprint_files_are_rewritten_line_by_line() {
    let uris = uris();
    let out = rewrite_model_paths(b"(footprint x\r\n(model a/part.stp)\n)".to_vec(), &uris);
    assert_eq!(out, b"(footprint x\n(model \"${QP}/part.stp\")\n)\n".to_vec());
    let raw = vec![0xffu8, 0xfe, b'\n'];
    assert_eq!(rewrite_model_paths(raw.clone(), &uris), raw);
    assert_eq!(rewrite_model_paths(b"(model a/part.stp)".to_vec(), &ModelUris::new()), b"(model a/part.stp)".to_vec());
}

const SYMBOL_FILE: &str = "(kicad_symbol_lib (version 20211014)\n  (symbol \"ATMEGA328P-AU\"\n    (property \"Footprint\" \"QFP80\" (at 0 0 0))\n  )\n)\n";

#[test]
fn symbols_are_merged_once() {
    let files = vec![SYMBOL_FILE.as_bytes().to_vec()];
    assert!(symbol_files_are_ok(&files));
    let merged = merge_symbol_libraries("QuartzPulseLib", EMPTY_SYMBOL_LIBRARY, &files).expect("added");
    assert_eq!(
        merged,
        "(kicad_symbol_lib (version 20211014) (generator library-loader)\n  (symbol \"ATMEGA328P-AU\"\n    (property \"Footprint\" \"QuartzPulseLib:QFP80\" (at 0 0 0))\n  )\n)\n"
    );
    assert!(merge_symbol_libraries("QuartzPulseLib", &merged, &files).is_none());
}

#[test]
fn symbols_already_present_are_recognised() {
    assert!(symbol_already_present("(symbol \"A\" x)", "  (symbol \"A\"\n)"));
    assert!(!symbol_already_present("(symbol \"B\" x)", "  (symbol \"A\"\n)"));
    assert!(!symbol_already_present("(symbol \"A\" x)", "no symbol here"));
}

#[test]
fn a_footprint_property_without_a_value_is_not_accepted() {
    let bad = b"(lib\n(property \"Footprint\"\n)\n".to_vec();
    assert!(!symbol_files_are_ok(&vec![bad]));
}

#[test]
fn generic_extraction_takes_matching_files_by_name() {
    let data = zip_of(&[
        ("LIB/EAGLE/part.lbr", b"eagle"),
        ("LIB/EAGLE/README.txt", b"readme"),
        ("LIB/KiCad/part.kicad_mod", b"kicad"),
        ("LIB/EAGLE/", b""),
    ]);
    let mut archive = zip::ZipArchive::new(std::io::Cursor::new(data.as_slice())).expect("zip");
    let mut format = kicad_format();
    format.ecad = ECAD::Eagle;
    format.match_path = "eagle".to_string();
    format.ignore = vec!["readme".to_string()];
    let files = generic_extractor(&format, &mut archive).expect("extract");
    assert_eq!(files.get("part.lbr").map(|d| d.as_slice()), Some(&b"eagle"[..]));
    assert!(files.get("README.txt").is_none());
    assert!(files.get("part.kicad_mod").is_none());
}

#[test]
fn rewriting_a_rewritten_footprint_changes_nothing() {
    let uris = uris();
    let once = rewrite_model_paths(FOOTPRINT.replace("ATMEGA328P-AU", "part").into_bytes(), &uris);
    assert!(String::from_utf8(once.clone()).expect("utf8").contains("\"${QP}/part.stp\""));
    let twice = rewrite_model_paths(once.clone(), &uris);
    assert_eq!(once, twice);
}

#[test]
fn a_line_ending_in_two_carriage_returns_loses_one_each_time() {
    let uris = uris();
    let once = rewrite_model_paths(b"(model a/part.stp)\r\r\n".to_vec(), &uris);
    assert_eq!(once, b"(model \"${QP}/part.stp\")\r\n".to_vec());
    let twice = rewrite_model_paths(once.clone(), &uris);
    assert_eq!(twice, b"(model \"${QP}/part.stp\")\n".to_vec());
}

#[test]
fn an_extracted_footprint_is_not_rewritten_again() {
    let data = fixture();
    let mut archive = zip::ZipArchive::new(std::io::Cursor::new(data.as_slice())).expect("valid fixture");
    let format = kicad_format();
    let uris = collect_model_uris(&format, &mut archive).expect("uris");
    assert_eq!(uris.get("ATMEGA328P-AU.stp").map(|u| u.as_str()), Some("${QP_3DMODELS}/ATMEGA328P-AU.stp"));
    assert_eq!(uris.get("ATMEGA328P-AU.wrl").map(|u| u.as_str()), Some("${QP_3DMODELS}/ATMEGA328P-AU.wrl"));
    assert!(uris.get("ATMEGA328P-AU.lib").is_none());
    let extracted = extract(&format, &mut archive).expect("extract");
    let footprint = extracted
        .files
        .get("QuartzPulseLib.pretty/QFP80P900X900X120-32N.kicad_mod")
        .expect("footprint")
        .clone();
    assert_eq!(rewrite_model_paths(footprint.clone(), &uris), footprint);
}

#[test]
fn the_first_oversized_entry_is_named() {
    let big = vec![0u8; 64 * 1024 * 1024 + 1];
    let data = zip_of(&[
        ("LIB/readme.txt", &big[..]),
        ("LIB/first.kicad_mod", &big[..]),
        ("LIB/second.lib", &big[..]),
    ]);
    let mut archive = zip::ZipArchive::new(std::io::Cursor::new(data.as_slice())).expect("zip");
    match extract(&kicad_format(), &mut archive) {
        Err(ll_core::error::LoaderError::ZipEntryTooLarge(name, n)) => {
            assert_eq!(name, "first.kicad_mod");
            assert_eq!(n, 64 * 1024 * 1024 + 1);
        }
        other => panic!("unexpected {:?}", other.map(|_| ())),
    }
}
