use ds_utils::error::{Error, IoKind};
use ds_utils::search::{get_fs_entry_size, get_largest_sub_entries, search_target_directories};
use ds_utils::snapshot::{Entry, Node, Snapshot};
use ds_utils::tree::{walk_tree, TreeNode};
use ds_utils::config::Config;

fn dir(path: &str, len: u64, children: Vec<usize>) -> Node {
    Node { path: path.to_string(), entry: Entry::Directory { len, children } }
}

fn file(path: &str, len: u64, inode: u64, links: u64) -> Node {
    Node { path: path.to_string(), entry: Entry::File { len, inode, links } }
}

fn link(path: &str, len: u64) -> Node {
    Node { path: path.to_string(), entry: Entry::Symlink { len } }
}

fn failed(path: &str, kind: IoKind) -> Node {
    Node { path: path.to_string(), entry: Entry::Failed { kind } }
}

fn size_of(fs: &Snapshot, i: usize) -> Result<u64, Error> {
    assert!(fs.is_well_formed());
    let mut inodes: Vec<u64> = Vec::new();
    get_fs_entry_size(fs, i, &mut inodes)
}

/// `/a` holds `f` (100 bytes) and `/a/b`, which holds `g` (50 bytes).
fn scenario_a() -> Snapshot {
    Snapshot {
        nodes: vec![
            dir("/a", 0, vec![1, 2]),
            file("/a/f", 100, 11, 1),
            dir("/a/b", 0, vec![3]),
            file("/a/b/g", 50, 12, 1),
        ],
    }
}

fn config_with(directories: Vec<String>, threshold: i64) -> Config {
    Config::new(Some(directories), Some(threshold), None, None, None).unwrap()
}

#[test]
fn nested_directory_sums_files() {
    assert_eq!(size_of(&scenario_a(), 0), Ok(150));
    assert_eq!(size_of(&scenario_a(), 2), Ok(50));
}

#[test]
fn scan_threshold_reached() {
    let trees = vec![scenario_a()];
    let report = search_target_directories(&config_with(vec!["/a".to_string()], 100), &trees);
    assert_eq!(report.found, vec![(0, 150)]);
    assert!(report.failed.is_empty());
}

#[test]
fn scan_threshold_not_reached() {
    let trees = vec![scenario_a()];
    let report = search_target_directories(&config_with(vec!["/a".to_string()], 200), &trees);
    assert!(report.found.is_empty());
    assert!(report.failed.is_empty());
}

#[test]
fn directory_overhead_counts_at_every_level() {
    let fs = Snapshot {
        nodes: vec![
            dir("/d", 4096, vec![1, 2, 3]),
            file("/d/x", 7, 1, 1),
            dir("/d/e", 4096, vec![4]),
            file("/d/y", 3, 2, 1),
            file("/d/e/z", 10, 3, 1),
        ],
    };
    assert_eq!(size_of(&fs, 0), Ok(4096 + 7 + 3 + 4096 + 10));
}

#[test]
fn empty_directory_is_its_own_size() {
    let fs = Snapshot { nodes: vec![dir("/e", 4096, vec![])] };
    assert_eq!(size_of(&fs, 0), Ok(4096));
}

#[test]
fn hard_linked_files_count_once() {
    let fs = Snapshot {
        nodes: vec![
            dir("/h", 0, vec![1, 2, 3]),
            file("/h/one", 500, 77, 2),
            file("/h/two", 500, 77, 2),
            file("/h/other", 9, 78, 1),
        ],
    };
    let mut inodes: Vec<u64> = Vec::new();
    assert_eq!(get_fs_entry_size(&fs, 0, &mut inodes), Ok(509));
    assert_eq!(inodes, vec![77]);
}

#[test]
fn hard_links_in_different_subtrees_count_once_per_call() {
    let fs = Snapshot {
        nodes: vec![
            dir("/h", 0, vec![1, 3]),
            dir("/h/p", 0, vec![2]),
            file("/h/p/one", 500, 77, 2),
            dir("/h/q", 0, vec![4]),
            file("/h/q/two", 500, 77, 2),
        ],
    };
    assert_eq!(size_of(&fs, 0), Ok(500));
    // The selector gives each child a dedup set of its own.
    assert_eq!(get_largest_sub_entries(&fs, 0, 5), Ok(vec![(1, 500), (3, 500)]));
}

#[test]
fn known_inode_is_skipped_inside_directory() {
    let fs = Snapshot { nodes: vec![dir("/k", 10, vec![1]), file("/k/f", 500, 5, 3)] };
    let mut inodes: Vec<u64> = vec![5];
    assert_eq!(get_fs_entry_size(&fs, 0, &mut inodes), Ok(10));
    assert_eq!(inodes, vec![5]);
}

#[test]
fn file_given_directly_counts_in_full() {
    let fs = Snapshot { nodes: vec![file("/f", 500, 5, 3)] };
    let mut inodes: Vec<u64> = vec![5];
    assert_eq!(get_fs_entry_size(&fs, 0, &mut inodes), Ok(500));
}

#[test]
fn self_symlink_counts_only_its_own_size() {
    let fs = Snapshot {
        nodes: vec![dir("/a", 0, vec![1, 2]), file("/a/f", 100, 1, 1), link("/a/link", 2)],
    };
    assert_eq!(size_of(&fs, 0), Ok(102));
    assert_eq!(size_of(&fs, 2), Ok(2));
}

#[test]
fn largest_children_in_descending_order() {
    let fs = Snapshot {
        nodes: vec![
            dir("/t", 0, vec![1, 2, 3]),
            file("/t/a", 10, 1, 1),
            file("/t/b", 30, 2, 1),
            file("/t/c", 20, 3, 1),
        ],
    };
    assert_eq!(get_largest_sub_entries(&fs, 0, 2), Ok(vec![(2, 30), (3, 20)]));
}

#[test]
fn largest_children_width_zero_and_wide() {
    let fs = Snapshot {
        nodes: vec![dir("/t", 0, vec![1, 2]), file("/t/a", 10, 1, 1), file("/t/b", 30, 2, 1)],
    };
    assert_eq!(get_largest_sub_entries(&fs, 0, 0), Ok(vec![]));
    assert_eq!(get_largest_sub_entries(&fs, 0, 255), Ok(vec![(2, 30), (1, 10)]));
}

#[test]
fn largest_children_keep_listing_order_on_ties() {
    let fs = Snapshot {
        nodes: vec![
            dir("/t", 0, vec![1, 2, 3, 4]),
            file("/t/a", 5, 1, 1),
            file("/t/b", 9, 2, 1),
            file("/t/c", 5, 3, 1),
            file("/t/d", 5, 4, 1),
        ],
    };
    assert_eq!(get_largest_sub_entries(&fs, 0, 3), Ok(vec![(2, 9), (1, 5), (3, 5)]));
}

#[test]
fn largest_children_of_a_file_fails() {
    let fs = Snapshot { nodes: vec![file("/f", 5, 1, 1)] };
    assert_eq!(get_largest_sub_entries(&fs, 0, 3), Err(Error::IoError { kind: IoKind::Other }));
}

#[test]
fn one_failing_child_fails_the_selector() {
    let fs = Snapshot {
        nodes: vec![
            dir("/t", 0, vec![1, 2]),
            file("/t/a", 5, 1, 1),
            failed("/t/gone", IoKind::NotFound),
        ],
    };
    assert_eq!(get_largest_sub_entries(&fs, 0, 3), Err(Error::IoError { kind: IoKind::NotFound }));
}

#[test]
fn unreadable_subdirectory_aborts_aggregation() {
    let fs = Snapshot {
        nodes: vec![
            dir("/r", 0, vec![1, 2]),
            failed("/r/secret", IoKind::PermissionDenied),
            file("/r/f", 3, 1, 1),
        ],
    };
    assert_eq!(size_of(&fs, 0), Err(Error::IoError { kind: IoKind::PermissionDenied }));
}

#[test]
fn overflowing_sum_is_reported() {
    let fs = Snapshot {
        nodes: vec![dir("/o", 1, vec![1]), file("/o/huge", u64::MAX, 1, 1)],
    };
    assert_eq!(size_of(&fs, 0), Err(Error::SizeOverflow));
    let fs = Snapshot { nodes: vec![dir("/o", 0, vec![1]), file("/o/huge", u64::MAX, 1, 1)] };
    assert_eq!(size_of(&fs, 0), Ok(u64::MAX));
}

#[test]
fn failing_root_does_not_stop_the_scan() {
    let trees = vec![
        Snapshot { nodes: vec![failed("/locked", IoKind::PermissionDenied)] },
        scenario_a(),
        Snapshot { nodes: vec![dir("/small", 10, vec![])] },
    ];
    let dirs = vec!["/locked".to_string(), "/a".to_string(), "/small".to_string()];
    let report = search_target_directories(&config_with(dirs, 100), &trees);
    assert_eq!(report.found, vec![(1, 150)]);
    assert_eq!(report.failed, vec![(0, Error::IoError { kind: IoKind::PermissionDenied })]);
}

#[test]
fn duplicate_roots_are_scanned_independently() {
    let trees = vec![scenario_a(), scenario_a()];
    let dirs = vec!["/a".to_string(), "/a".to_string()];
    let report = search_target_directories(&config_with(dirs, 0), &trees);
    assert_eq!(report.found, vec![(0, 150), (1, 150)]);
}

/// `/r/a/b/c` nested, each level with one file of decreasing size.
fn deep() -> Snapshot {
    Snapshot {
        nodes: vec![
            dir("/r", 0, vec![1, 2]),
            dir("/r/a", 0, vec![3, 4]),
            file("/r/f", 1, 1, 1),
            dir("/r/a/b", 0, vec![5]),
            file("/r/a/g", 2, 2, 1),
            file("/r/a/b/h", 40, 3, 1),
        ],
    }
}

fn node(entry: usize, size: u64, depth: usize) -> TreeNode {
    TreeNode { entry, size, depth }
}

#[test]
fn tree_unbounded_depth() {
    assert_eq!(
        walk_tree(&deep(), 0, 5, 0),
        Ok(vec![node(1, 42, 0), node(3, 40, 1), node(5, 40, 2), node(4, 2, 1), node(2, 1, 0)])
    );
}

#[test]
fn tree_depth_bound() {
    let nodes = walk_tree(&deep(), 0, 5, 2).unwrap();
    assert_eq!(nodes, vec![node(1, 42, 0), node(3, 40, 1), node(4, 2, 1), node(2, 1, 0)]);
    assert!(nodes.iter().all(|n| n.depth < 2));
    assert_eq!(walk_tree(&deep(), 0, 5, 1), Ok(vec![node(1, 42, 0), node(2, 1, 0)]));
}

#[test]
fn tree_width_bound() {
    assert_eq!(walk_tree(&deep(), 0, 1, 0), Ok(vec![node(1, 42, 0), node(3, 40, 1), node(5, 40, 2)]));
    assert_eq!(walk_tree(&deep(), 0, 0, 0), Ok(vec![]));
}

#[test]
fn tree_of_a_file_is_empty() {
    assert_eq!(walk_tree(&deep(), 2, 5, 0), Ok(vec![]));
}

#[test]
fn tree_fails_on_unreadable_child() {
    let fs = Snapshot {
        nodes: vec![dir("/r", 0, vec![1]), dir("/r/a", 0, vec![2]), failed("/r/a/x", IoKind::Other)],
    };
    assert_eq!(walk_tree(&fs, 0, 5, 0), Err(Error::IoError { kind: IoKind::Other }));
}

#[test]
fn well_formed_snapshots() {
    assert!(scenario_a().is_well_formed());
    let backwards = Snapshot { nodes: vec![file("/f", 1, 1, 1), dir("/d", 0, vec![0])] };
    assert!(!backwards.is_well_formed());
    let outside = Snapshot { nodes: vec![dir("/d", 0, vec![3])] };
    assert!(!outside.is_well_formed());
    let twice = Snapshot { nodes: vec![dir("/d", 0, vec![1, 1]), file("/d/f", 1, 1, 1)] };
    assert!(!twice.is_well_formed());
}

#[test]
fn tree_of_an_unreadable_path_is_empty() {
    let fs = Snapshot { nodes: vec![failed("/missing", IoKind::NotFound)] };
    assert_eq!(walk_tree(&fs, 0, 5, 0), Ok(vec![]));
}

#[test]
fn tree_of_an_unlistable_directory_fails() {
    let fs = Snapshot {
        nodes: vec![Node {
            path: "/locked".to_string(),
            entry: Entry::Unlisted { len: 4096, kind: IoKind::PermissionDenied },
        }],
    };
    assert_eq!(walk_tree(&fs, 0, 5, 0), Err(Error::IoError { kind: IoKind::PermissionDenied }));
    assert_eq!(size_of(&fs, 0), Err(Error::IoError { kind: IoKind::PermissionDenied }));
    assert_eq!(
        get_largest_sub_entries(&fs, 0, 5),
        Err(Error::IoError { kind: IoKind::PermissionDenied })
    );
}

#[test]
fn tree_follows_a_chain_to_its_bottom() {
    let fs = Snapshot {
        nodes: vec![
            dir("/r", 0, vec![1]),
            dir("/r/c1", 0, vec![2]),
            dir("/r/c1/c2", 0, vec![3]),
            dir("/r/c1/c2/c3", 0, vec![4]),
            dir("/r/c1/c2/c3/c4", 0, vec![5]),
            file("/r/c1/c2/c3/c4/f", 7, 1, 1),
        ],
    };
    assert_eq!(
        walk_tree(&fs, 0, 1, 0),
        Ok(vec![node(1, 7, 0), node(2, 7, 1), node(3, 7, 2), node(4, 7, 3), node(5, 7, 4)])
    );
}
