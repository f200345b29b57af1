use painful_json::is_json_path;
use painful_json::parse_args;

#[test]
fn correct_file_path() -> () {
    let args = vec!["".to_string(), "file.json".to_string()];

    assert_eq!(parse_args(&args), "file.json");
}

#[test]
fn json_extension_is_accepted() {
    assert!(is_json_path("file.json"));
    assert!(is_json_path("dir.v2/file.other.json"));
    assert!(is_json_path("json"));
}

#[test]
fn other_extensions_are_refused() {
    assert!(!is_json_path("file.txt"));
    assert!(!is_json_path("this."));
    assert!(!is_json_path("file.json.bak"));
    assert!(!is_json_path(""));
}
