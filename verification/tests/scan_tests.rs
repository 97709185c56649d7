use disk_usage::file_directory::FileDirectory;
use disk_usage::thread_pool::{EntryMeta, Job, ThreadPool};

fn file_entry(name: &str, blocks: u64, ino: u64, nlink: u64, dev: u64) -> EntryMeta {
    EntryMeta {
        name: String::from(name),
        path: format!("/scan/{}", name),
        dev: Some(dev),
        inode: Some(ino),
        nlink,
        blocks: Some(blocks),
        is_file: true,
        is_symlink: false,
        is_dir: false,
    }
}

fn dir_entry(name: &str, blocks: u64, ino: u64, dev: u64) -> EntryMeta {
    EntryMeta {
        name: String::from(name),
        path: format!("/scan/{}", name),
        dev: Some(dev),
        inode: Some(ino),
        nlink: 1,
        blocks: Some(blocks),
        is_file: false,
        is_symlink: false,
        is_dir: true,
    }
}

#[test]
fn scenario_hardlink_dedup() {
    // root holds file a (8 blocks -> 4096 bytes), subdirectory sub holding
    // file b (1 block -> 512 bytes), and a2, a second name for a's inode.
    let mut pool = ThreadPool::new(4);
    let mut root = pool.scan_dir(String::from("root"), String::from("/scan"), Some(8), 1, );
    let root_dev = Some(7u64);

    let job = pool.next_job().expect("root job");
    assert_eq!(job.target.len(), 0);
    let listing = vec![
        file_entry("a", 8, 100, 2, 7),
        dir_entry("sub", 8, 200, 7),
        file_entry("a2", 8, 100, 2, 7),
    ];
    pool.scan_step(&mut root, &job, root_dev, Some(listing));

    // a and sub were accepted; a2 was deduplicated but still visited.
    assert_eq!(root.entries.len(), 2);
    assert_eq!(root.entries[0].name, "a");
    assert_eq!(root.entries[1].name, "sub");
    assert!(root.entries[0].is_hardlink);
    assert_eq!(root.entries[0].hardlink_count, 2);

    let sub_job = pool.next_job().expect("sub job");
    assert_eq!(sub_job.target, vec![1usize]);
    let sub_listing = vec![file_entry("b", 1, 300, 1, 7)];
    pool.scan_step(&mut root, &sub_job, root_dev, Some(sub_listing));

    assert!(pool.next_job().is_none());
    assert_eq!(pool.active_count(), 0);

    // All three file names were visited, but a2's bytes count once.
    assert_eq!(pool.total_files, 3);
    assert_eq!(root.actual_size_bytes(), 4096 + 512);
    assert_eq!(root.entries[1].actual_size_bytes(), 512);
}

#[test]
fn scenario_permission_denied_subtree() {
    // A subdirectory whose listing cannot be read yields a node with zero
    // children and zero aggregate size; its sibling scans normally.
    let mut pool = ThreadPool::new(2);
    let mut root = pool.scan_dir(String::from("root"), String::from("/scan"), Some(8), 1);
    let root_dev = Some(7u64);

    let job = pool.next_job().unwrap();
    let listing = vec![dir_entry("locked", 8, 10, 7), dir_entry("open", 8, 11, 7)];
    pool.scan_step(&mut root, &job, root_dev, Some(listing));

    let locked_job = pool.next_job().unwrap();
    assert_eq!(locked_job.target, vec![0usize]);
    pool.scan_step(&mut root, &locked_job, root_dev, None);

    let open_job = pool.next_job().unwrap();
    assert_eq!(open_job.target, vec![1usize]);
    pool.scan_step(
        &mut root,
        &open_job,
        root_dev,
        Some(vec![file_entry("f", 4, 12, 1, 7)]),
    );

    assert!(pool.next_job().is_none());
    assert_eq!(pool.active_count(), 0);

    assert_eq!(root.entries[0].entries.len(), 0);
    assert!(root.entries[0].scanned);
    assert_eq!(root.entries[0].actual_size_bytes(), 0);
    assert_eq!(root.entries[1].actual_size_bytes(), 4 * 512);
    assert_eq!(root.actual_size_bytes(), 4 * 512);
}

#[test]
fn device_filter_skips_other_filesystems() {
    let mut pool = ThreadPool::new(1);
    let mut root = pool.scan_dir(String::from("root"), String::from("/scan"), Some(8), 1);
    let root_dev = Some(7u64);

    let job = pool.next_job().unwrap();
    let listing = vec![
        file_entry("here", 2, 1, 1, 7),
        file_entry("other", 2, 2, 1, 99),
        dir_entry("mnt", 8, 3, 99),
    ];
    pool.scan_step(&mut root, &job, root_dev, Some(listing));

    // Entries on another device never appear in the tree, are not counted,
    // and no scan unit is enqueued for the foreign directory.
    assert_eq!(root.entries.len(), 1);
    assert_eq!(root.entries[0].name, "here");
    assert_eq!(pool.total_files, 1);
    assert!(pool.next_job().is_none());
    assert_eq!(root.actual_size_bytes(), 1024);
}

#[test]
fn dedup_works_across_directories() {
    let mut pool = ThreadPool::new(1);
    let mut root = pool.scan_dir(String::from("root"), String::from("/scan"), Some(8), 1);
    let root_dev = Some(7u64);

    let job = pool.next_job().unwrap();
    let listing = vec![file_entry("a", 8, 100, 2, 7), dir_entry("sub", 8, 200, 7)];
    pool.scan_step(&mut root, &job, root_dev, Some(listing));

    let sub_job = pool.next_job().unwrap();
    // The same inode shows up under another name in the subdirectory.
    let sub_listing = vec![file_entry("a_again", 8, 100, 2, 7)];
    pool.scan_step(&mut root, &sub_job, root_dev, Some(sub_listing));

    assert_eq!(root.entries[1].entries.len(), 0);
    assert_eq!(pool.total_files, 2);
    assert_eq!(root.actual_size_bytes(), 4096);
}

#[test]
fn idempotent_aggregate_read() {
    let mut pool = ThreadPool::new(1);
    let mut root = pool.scan_dir(String::from("root"), String::from("/scan"), Some(8), 1);
    let root_dev = Some(7u64);
    let job = pool.next_job().unwrap();
    pool.scan_step(
        &mut root,
        &job,
        root_dev,
        Some(vec![file_entry("a", 3, 1, 1, 7), file_entry("b", 5, 2, 1, 7)]),
    );

    let first = root.actual_size_bytes();
    let second = root.actual_size_bytes();
    assert_eq!(first, second);
    assert_eq!(first, 8 * 512);
    assert!(!root.dirty);
}

#[test]
fn entries_without_inode_are_never_deduplicated() {
    let mut pool = ThreadPool::new(1);
    let mut root = pool.scan_dir(String::from("root"), String::from("/scan"), None, 1);
    let job = pool.next_job().unwrap();
    let mut e1 = file_entry("x", 2, 0, 1, 0);
    e1.dev = None;
    e1.inode = None;
    e1.blocks = None;
    let mut e2 = file_entry("y", 2, 0, 1, 0);
    e2.dev = None;
    e2.inode = None;
    let listing = vec![e1, e2];
    pool.scan_step(&mut root, &job, None, Some(listing));

    // With no device id the scan root's None matches; with no inode the
    // dedup step is skipped; with no block count physical size is zero.
    assert_eq!(root.entries.len(), 2);
    assert_eq!(pool.total_files, 2);
    assert_eq!(root.actual_size_bytes(), 1024);
    assert_eq!(root.entries[0].blocks(), 0);
}

#[test]
fn add_entry_and_dirty_propagation() {
    let mut pool = ThreadPool::new(1);
    let mut root = pool.scan_dir(String::from("root"), String::from("/"), Some(0), 1);
    let job = pool.next_job().unwrap();
    pool.scan_step(&mut root, &job, Some(1), Some(vec![dir_entry("d", 0, 5, 1)]));
    assert_eq!(root.actual_size_bytes(), 0);
    assert!(!root.dirty);

    // Appending deep in the tree flags the whole ancestor chain stale.
    let leaf = FileDirectory {
        name: String::from("leaf"),
        path: String::from("/d/leaf"),
        is_dir: false,
        is_symlink: false,
        is_hardlink: false,
        hardlink_count: 1,
        blocks: Some(4),
        cached_aggregate_size: 0,
        dirty: false,
        scanned: true,
        entries: Vec::new(),
    };
    root.entries[0].add_entry(leaf);
    root.prograte_dirty_up(&vec![0usize], 0);
    assert!(root.dirty);
    assert!(root.entries[0].dirty);
    assert_eq!(root.actual_size_bytes(), 4 * 512);
    assert!(!root.dirty);
    assert!(!root.entries[0].dirty);
}

#[test]
fn sort_orders_children_by_size_descending() {
    let mut pool = ThreadPool::new(1);
    let mut root = pool.scan_dir(String::from("root"), String::from("/"), Some(0), 1);
    let job = pool.next_job().unwrap();
    let listing = vec![
        file_entry("small", 1, 1, 1, 7),
        file_entry("big", 9, 2, 1, 7),
        file_entry("mid", 4, 3, 1, 7),
    ];
    pool.scan_step(&mut root, &job, Some(7), Some(listing));
    root.actual_size_bytes();
    root.sort_entries_by_size_desc();
    let names: Vec<&str> = root.entries.iter().map(|e| e.name.as_str()).collect();
    assert_eq!(names, vec!["big", "mid", "small"]);
    assert_eq!(root.entries.len(), 3);
    // A display-order change only: the aggregate is untouched.
    assert_eq!(root.actual_size_bytes(), 14 * 512);
}

#[test]
fn queue_is_first_in_first_out() {
    let mut pool = ThreadPool::new(3);
    assert_eq!(pool.active_count(), 0);
    pool.execute(Job { target: vec![0] });
    pool.execute(Job { target: vec![1] });
    assert_eq!(pool.active_count(), 2);
    assert_eq!(pool.next_job().unwrap().target, vec![0]);
    assert_eq!(pool.next_job().unwrap().target, vec![1]);
    assert!(pool.next_job().is_none());
    assert_eq!(pool.active_count(), 0);
}

#[test]
fn progress_path_follows_the_scan() {
    let mut pool = ThreadPool::new(1);
    let mut root = pool.scan_dir(String::from("root"), String::from("/top"), Some(8), 1);
    assert_eq!(pool.path_in_progress, "/top");
    let job = pool.next_job().unwrap();
    pool.scan_step(&mut root, &job, Some(7), Some(vec![dir_entry("inner", 8, 2, 7)]));
    assert_eq!(pool.path_in_progress, "/top");
    let inner = pool.next_job().unwrap();
    pool.scan_step(&mut root, &inner, Some(7), Some(vec![]));
    assert_eq!(pool.path_in_progress, "/scan/inner");
}
