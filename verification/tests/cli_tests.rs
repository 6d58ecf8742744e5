use cbor_cli::config::default_delimiter;
use cbor_cli::error::Format;
use cbor_cli::files::{get_format_by_file_extension, get_missing_files, get_path_str};

#[test]
fn test_get_path_str() {
    let path = "foo".to_string();
    assert_eq!(get_path_str(&path), "foo");
}

#[test]
fn test_get_missing_files() {
    let input_paths = vec!["foo".to_string(), "bar".to_string(), "baz".to_string()];
    // None of the three names an existing file.
    let present = vec![false, false, false];
    let missing_files = vec!["foo".to_string(), "bar".to_string(), "baz".to_string()];

    assert_eq!(get_missing_files(&input_paths, &present), missing_files);
}

#[test]
fn test_get_missing_files_keeps_present_files() {
    let input_paths = vec!["foo".to_string(), "bar".to_string(), "baz".to_string()];
    let present = vec![false, true, false];
    let missing_files = vec!["foo".to_string(), "baz".to_string()];

    assert_eq!(get_missing_files(&input_paths, &present), missing_files);
}

#[test]
fn test_get_format_by_file_extension() {
    assert_eq!(
        get_format_by_file_extension("foo.json"),
        Some("json".to_string())
    );

    assert_eq!(
        get_format_by_file_extension("foo.yaml"),
        Some("yaml".to_string())
    );

    assert_eq!(
        get_format_by_file_extension("foo.toml"),
        Some("toml".to_string())
    );

    assert_eq!(get_format_by_file_extension("foo.bar"), None);
}

#[test]
fn test_get_format_by_file_extension_edge_cases() {
    // No extension at all.
    assert_eq!(get_format_by_file_extension("foo"), None);
    assert_eq!(get_format_by_file_extension(""), None);
    // A leading dot starts a hidden file name, not an extension.
    assert_eq!(get_format_by_file_extension(".json"), None);
    assert_eq!(get_format_by_file_extension("dir/.json"), None);
    // The extension of the last path component counts.
    assert_eq!(
        get_format_by_file_extension("dir.yaml/foo.json"),
        Some("json".to_string())
    );
    assert_eq!(get_format_by_file_extension("dir.json/foo"), None);
    // A trailing dot gives an empty extension.
    assert_eq!(get_format_by_file_extension("foo."), None);
    // Trailing separators are not part of the file name.
    assert_eq!(
        get_format_by_file_extension("foo.json/"),
        Some("json".to_string())
    );
    assert_eq!(
        get_format_by_file_extension("dir/foo.toml//"),
        Some("toml".to_string())
    );
    assert_eq!(get_format_by_file_extension("///"), None);
}

#[test]
fn test_default_delimiter() {
    assert_eq!(default_delimiter(Format::Yaml), "\n---\n".to_string());
    assert_eq!(default_delimiter(Format::Json), "\n".to_string());
    assert_eq!(default_delimiter(Format::Cbor), "\n".to_string());
}
