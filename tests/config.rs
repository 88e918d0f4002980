use ds_utils::config::Config;
use ds_utils::error::Error;

fn dirs() -> Option<Vec<String>> {
    Some(vec!["/home".to_string(), "/tmp".to_string()])
}

#[test]
fn missing_directories_is_an_error() {
    let r = Config::new(None, Some(5), Some(true), Some(2), Some(2));
    assert!(matches!(
        r,
        Err(Error::ConfigFileError { message }) if message == "Your configuration does not have a \"directories\" key."
    ));
}

#[test]
fn negative_threshold_is_an_error() {
    let r = Config::new(dirs(), Some(-1), None, None, None);
    assert!(matches!(
        r,
        Err(Error::ConfigFileError { message }) if message == "The value of \"max_file_size\" is negative."
    ));
}

#[test]
fn defaults_apply() {
    let c = Config::new(dirs(), None, None, Some(4), Some(4)).unwrap();
    assert_eq!(c.directories, vec!["/home".to_string(), "/tmp".to_string()]);
    assert_eq!(c.max_file_size, 75000000);
    assert!(!c.file_tree);
    assert_eq!(c.tree_length, 0);
    assert_eq!(c.tree_depth, 0);
}

#[test]
fn tree_settings_read_when_tree_is_on() {
    let c = Config::new(dirs(), Some(1000), Some(true), Some(4), None).unwrap();
    assert_eq!(c.max_file_size, 1000);
    assert!(c.file_tree);
    assert_eq!(c.tree_length, 4);
    assert_eq!(c.tree_depth, 0);
}

#[test]
fn oversized_tree_settings_fall_back_to_three() {
    let c = Config::new(dirs(), Some(1), Some(true), Some(256), Some(-4)).unwrap();
    assert_eq!(c.tree_length, 3);
    assert_eq!(c.tree_depth, 3);
    let c = Config::new(dirs(), Some(1), Some(true), Some(255), Some(0)).unwrap();
    assert_eq!(c.tree_length, 255);
    assert_eq!(c.tree_depth, 0);
}
