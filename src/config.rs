use vstd::prelude::*;

use crate::error::Error;

verus! {

/// Size threshold used when the configuration gives none: 75 MB.
pub const DEFAULT_MAX_FILE_SIZE: u64 = 75000000;

/// Tree width or depth used when the configured value does not fit in 8 bits.
pub const FALLBACK_TREE_SETTING: u8 = 3;

/// The resolved configuration.
pub struct Config {
    /// Root directories to scan, in configured order; duplicates allowed.
    pub directories: Vec<String>,
    /// Threshold in bytes: a root is reported when its size reaches it.
    pub max_file_size: u64,
    /// Whether a tree view is produced for each reported root.
    pub file_tree: bool,
    /// Largest number of children shown per level of the tree view.
    pub tree_length: u8,
    /// Number of levels of the tree view; 0 for no limit.
    pub tree_depth: u8,
}

/// A tree setting as given: absent is 0; a value outside `0..=255` falls back to 3.
pub open spec fn tree_setting(v: Option<i64>) -> u8 {
    match v {
        None => 0,
        Some(x) => if 0 <= x <= 255 { x as u8 } else { FALLBACK_TREE_SETTING },
    }
}

fn resolve_tree_setting(v: Option<i64>) -> (r: u8)
    ensures
        r == tree_setting(v),
{
    match v {
        None => 0,
        Some(x) => {
            if 0 <= x && x <= 255 {
                x as u8
            } else {
                FALLBACK_TREE_SETTING
            }
        },
    }
}

impl Config {
    /// Builds the configuration from the values read out of a configuration
    /// file, each `None` where its key is absent. The directory list is
    /// required; a negative threshold is rejected. The threshold defaults to
    /// 75 MB and the tree switch to off. Tree width and depth are read only
    /// when the tree is on (else both are 0); absent they are 0, and a value
    /// that does not fit in 8 bits becomes 3.
    pub fn new(
        directories: Option<Vec<String>>,
        max_file_size: Option<i64>,
        file_tree: Option<bool>,
        tree_length: Option<i64>,
        tree_depth: Option<i64>,
    ) -> (r: Result<Config, Error>)
        ensures
            r is Err <==> (directories is None || (max_file_size matches Some(m) && m < 0)),
            r matches Err(e) ==> e is ConfigFileError,
            directories is None ==> (r matches Err(Error::ConfigFileError { message })
                && message@ == "Your configuration does not have a \"directories\" key."@),
            (directories is Some && max_file_size is Some && max_file_size->Some_0 < 0) ==> (r matches Err(Error::ConfigFileError { message })
                && message@ == "The value of \"max_file_size\" is negative."@),
            r matches Ok(c) ==> {
                &&& c.directories@ == directories->Some_0@
                &&& c.max_file_size == match max_file_size {
                    None => DEFAULT_MAX_FILE_SIZE,
                    Some(m) => m as u64,
                }
                &&& c.file_tree == (file_tree == Some(true))
                &&& c.tree_length == if c.file_tree { tree_setting(tree_length) } else { 0 }
                &&& c.tree_depth == if c.file_tree { tree_setting(tree_depth) } else { 0 }
            },
    {
        let directories = match directories {
            Some(d) => d,
            None => {
                return Err(Error::ConfigFileError {
                    message: String::from_str("Your configuration does not have a \"directories\" key."),
                });
            },
        };
        let max_file_size: u64 = match max_file_size {
            None => DEFAULT_MAX_FILE_SIZE,
            Some(m) => {
                if m < 0 {
                    return Err(Error::ConfigFileError {
                        message: String::from_str("The value of \"max_file_size\" is negative."),
                    });
                }
                m as u64
            },
        };
        let file_tree: bool = match file_tree {
            Some(b) => b,
            None => false,
        };
        let mut length: u8 = 0;
        let mut depth: u8 = 0;
        if file_tree {
            length = resolve_tree_setting(tree_length);
            depth = resolve_tree_setting(tree_depth);
        }
        Ok(Config { directories, max_file_size, file_tree, tree_length: length, tree_depth: depth })
    }
}

} // verus!
