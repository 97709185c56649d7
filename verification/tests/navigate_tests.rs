use disk_usage::navigate::Navigator;
use disk_usage::thread_pool::{EntryMeta, ThreadPool};

fn file_entry(name: &str, blocks: u64, ino: u64) -> EntryMeta {
    EntryMeta {
        name: String::from(name),
        path: format!("/scan/{}", name),
        dev: Some(7),
        inode: Some(ino),
        nlink: 1,
        blocks: Some(blocks),
        is_file: true,
        is_symlink: false,
        is_dir: false,
    }
}

fn dir_entry(name: &str, ino: u64) -> EntryMeta {
    EntryMeta {
        name: String::from(name),
        path: format!("/scan/{}", name),
        dev: Some(7),
        inode: Some(ino),
        nlink: 1,
        blocks: Some(8),
        is_file: false,
        is_symlink: false,
        is_dir: true,
    }
}

#[test]
fn enter_and_back_follow_the_tree() {
    let mut pool = ThreadPool::new(1);
    let mut root = pool.scan_dir(String::from("root"), String::from("/scan"), Some(8), 1);
    let job = pool.next_job().unwrap();
    pool.scan_step(
        &mut root,
        &job,
        Some(7),
        Some(vec![file_entry("a", 1, 1), dir_entry("d", 2)]),
    );
    let dj = pool.next_job().unwrap();
    pool.scan_step(&mut root, &dj, Some(7), Some(vec![file_entry("b", 2, 3)]));

    let mut nav = Navigator::new();
    assert_eq!(nav.path, Vec::<usize>::new());
    assert_eq!(nav.selected, Some(0));

    // Entering a file does nothing; entering the directory descends.
    nav.open_selected_dir(&root);
    assert_eq!(nav.path, Vec::<usize>::new());
    nav.next_row(&root);
    assert_eq!(nav.selected, Some(1));
    nav.next_row(&root);
    assert_eq!(nav.selected, Some(1));
    nav.open_selected_dir(&root);
    assert_eq!(nav.path, vec![1usize]);
    assert_eq!(nav.selected, Some(0));

    // Back returns to the parent, selecting the directory's own row; at
    // the root a further back signals exit.
    nav.previous_row();
    assert_eq!(nav.selected, Some(0));
    assert!(!nav.back());
    assert_eq!(nav.path, Vec::<usize>::new());
    assert_eq!(nav.selected, Some(1));
    assert!(nav.back());
}
