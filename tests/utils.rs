use bakbuster::utils::pathbuf_to_string;
use std::path::{Path, PathBuf};

#[test]
fn pathbuf_to_string_using_pathbuf() {
    let p = PathBuf::from(r"/foo/bar");
    let pstr = pathbuf_to_string(p);
    assert_eq!(pstr, Ok("/foo/bar".to_string()));
}

#[test]
fn pathbuf_to_string_using_path() {
    let p = Path::new("/foo/bar");
    let pstr = pathbuf_to_string(p);
    assert_eq!(pstr, Ok("/foo/bar".to_string()));
}

use bakbuster::stack_history_from_path;

#[test]
fn stack_history_from_path_given_str() {
    let result = stack_history_from_path("./foo_preference.yaml");
    let expect =
        PathBuf::from("./bak/foo_preference.yaml/foo_preference.yaml_swinstall_stack".to_string());
    assert_eq!(result, Ok(expect));
}

#[test]
fn stack_history_from_path_given_pathbuf() {
    let pb = PathBuf::from("./foo_preference.yaml".to_string());
    let result = stack_history_from_path(pb);
    let expect =
        PathBuf::from("./bak/foo_preference.yaml/foo_preference.yaml_swinstall_stack".to_string());
    assert_eq!(result, Ok(expect));
}

#[test]
fn stack_history_from_path_given_path() {
    let p = Path::new("./foo_preference.yaml");
    let result = stack_history_from_path(p);
    let expect =
        PathBuf::from("./bak/foo_preference.yaml/foo_preference.yaml_swinstall_stack".to_string());
    assert_eq!(result, Ok(expect));
}

#[test]
fn stack_history_from_path_without_file_name() {
    assert!(matches!(stack_history_from_path("/"), Err(bakbuster::BBError::ConversionError(_))));
    assert!(matches!(stack_history_from_path("a/.."), Err(bakbuster::BBError::ConversionError(_))));
}

#[test]
fn stack_history_from_path_without_parent() {
    let result = stack_history_from_path("packages.xml");
    assert_eq!(result, Ok(PathBuf::from("bak/packages.xml/packages.xml_swinstall_stack")));
}
