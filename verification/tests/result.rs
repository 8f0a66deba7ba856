use ll_core::cse::{Result as Library, WriteAction};
use ll_core::error::LoaderError;

#[test]
fn save_rejects_relative_parent_paths() {
    let result = Library {
        output_path: "/tmp/library-loader-reject".to_string(),
        files: vec![("../escape.stp".to_string(), b"model".to_vec())],
    };
    let targets = result.target_paths().expect("there are files");
    assert!(matches!(targets[0], Err(LoaderError::Other(_))));
    assert!(matches!(result.output_file_path("../escape.stp"), Err(LoaderError::Other(_))));
}

#[test]
fn relative_names_go_under_the_output_directory() {
    let result = Library { output_path: "/tmp/out".to_string(), files: Vec::new() };
    assert_eq!(result.output_file_path("nested/model.stp").expect("path"), "/tmp/out/nested/model.stp");
    assert_eq!(result.output_file_path("/abs/model.stp").expect("path"), "/abs/model.stp");
    assert!(result.output_file_path("a/../../b").is_err());
    assert_eq!(result.output_file_path("a/..b/c").expect("path"), "/tmp/out/a/..b/c");
}

#[test]
fn a_library_without_files_is_refused() {
    let result = Library { output_path: "/tmp/out".to_string(), files: Vec::new() };
    assert!(matches!(result.target_paths(), Err(LoaderError::NoFilesInLibrary)));
}

#[test]
fn identical_files_are_kept_and_different_ones_refused() {
    let data = b"model".to_vec();
    assert_eq!(Library::write_decision(None, &data).expect("create"), WriteAction::Create);
    assert_eq!(Library::write_decision(Some(&b"model"[..]), &data).expect("keep"), WriteAction::Keep);
    assert!(matches!(Library::write_decision(Some(&b"other"[..]), &data), Err(LoaderError::WouldOverwrite)));
}

#[test]
fn save_creates_parent_dirs_and_skips_identical_files() {
    let result = Library {
        output_path: "/tmp/library-loader-save".to_string(),
        files: vec![("nested/model.stp".to_string(), b"model".to_vec())],
    };
    let targets = result.target_paths().expect("there are files");
    let target = targets[0].as_ref().expect("inside the output directory");
    assert_eq!(target, "/tmp/library-loader-save/nested/model.stp");
    // The first save finds nothing and creates the file; the second finds
    // the same bytes and keeps them.
    assert_eq!(Library::write_decision(None, &result.files[0].1).expect("first save"), WriteAction::Create);
    assert_eq!(
        Library::write_decision(Some(&b"model"[..]), &result.files[0].1).expect("second identical save"),
        WriteAction::Keep
    );
}
