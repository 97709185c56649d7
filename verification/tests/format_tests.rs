use disk_usage::file_directory::FileDirectory;
use disk_usage::utils::{format_bytes, u64_to_dec};

#[test]
fn decimal_rendering() {
    assert_eq!(u64_to_dec(0), "0");
    assert_eq!(u64_to_dec(7), "7");
    assert_eq!(u64_to_dec(42), "42");
    assert_eq!(u64_to_dec(1234567890), "1234567890");
    assert_eq!(u64_to_dec(u64::MAX), "18446744073709551615");
}

#[test]
fn format_bytes_by_unit() {
    assert_eq!(format_bytes(0), "0.00 B");
    assert_eq!(format_bytes(123), "123.00 B");
    assert_eq!(format_bytes(1023), "1023.00 B");
    assert_eq!(format_bytes(1024), "1.00 KiB");
    assert_eq!(format_bytes(1536), "1.50 KiB");
    assert_eq!(format_bytes(4608), "4.50 KiB");
    assert_eq!(format_bytes(1048576), "1.00 MiB");
    assert_eq!(format_bytes(1073741824), "1.00 GiB");
    assert_eq!(format_bytes(1099511627776), "1.00 TiB");
    assert_eq!(format_bytes(1649267441664), "1.50 TiB");
}

#[test]
fn format_bytes_rounds_to_nearest_hundredth() {
    // 1100 / 1024 = 1.07421875, shown to the nearest hundredth.
    assert_eq!(format_bytes(1100), "1.07 KiB");
    // 1126 / 1024 = 1.099609375 rounds up.
    assert_eq!(format_bytes(1126), "1.10 KiB");
}

fn plain_node(name: &str, blocks: Option<u64>, is_dir: bool) -> FileDirectory {
    FileDirectory {
        name: String::from(name),
        path: format!("/{}", name),
        is_dir,
        is_symlink: false,
        is_hardlink: false,
        hardlink_count: 1,
        blocks,
        cached_aggregate_size: 0,
        dirty: false,
        scanned: !is_dir,
        entries: Vec::new(),
    }
}

#[test]
fn type_labels() {
    let mut n = plain_node("f", Some(1), false);
    assert_eq!(n.get_type(), "-");
    n.is_symlink = true;
    assert_eq!(n.get_type(), "symlink");
    n.is_hardlink = true;
    n.hardlink_count = 12;
    assert_eq!(n.get_type(), "hardlink(12)");
}

#[test]
fn display_row_cells() {
    let mut n = plain_node("notes", Some(9), false);
    n.cached_aggregate_size = 4608;
    let row = n.array();
    assert_eq!(row[0], "notes");
    assert_eq!(row[1], "4.50 KiB");
    assert_eq!(row[2], "-");
}

#[test]
fn physical_size_from_blocks() {
    let n = plain_node("f", Some(8), false);
    assert_eq!(n.blocks(), 8);
    assert_eq!(n.physical_size(), 4096);
    assert_eq!(n.own_size(), 4096);
    let d = plain_node("d", Some(8), true);
    // A directory's own entry size never contributes to an aggregate.
    assert_eq!(d.own_size(), 0);
    let missing = plain_node("m", None, false);
    assert_eq!(missing.blocks(), 0);
    assert_eq!(missing.physical_size(), 0);
}
