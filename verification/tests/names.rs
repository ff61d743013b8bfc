//! The names of files.

use lsm_storage_engine::names::{
    classify, discover_sstable_files, sstable_file_name, FileKind,
};

#[test]
fn names_have_at_least_six_digits() {
    assert_eq!(sstable_file_name(0), "000000.sst");
    assert_eq!(sstable_file_name(1), "000001.sst");
    assert_eq!(sstable_file_name(42), "000042.sst");
    assert_eq!(sstable_file_name(123456), "123456.sst");
    assert_eq!(sstable_file_name(1234567), "1234567.sst");
    assert_eq!(sstable_file_name(u64::MAX), "18446744073709551615.sst");
    for id in (0..2_000_000u64).step_by(997) {
        assert_eq!(sstable_file_name(id), format!("{id:06}.sst"));
        assert_eq!(classify(&sstable_file_name(id)), FileKind::Table(id));
    }
}

#[test]
fn a_name_tells_what_a_file_is() {
    for name in [
        "000001.sst",
        "1.sst",
        "+7.sst",
        "18446744073709551615.sst",
        "18446744073709551616.sst",
        ".sst",
        "+.sst",
        "-1.sst",
        "++1.sst",
        "1 .sst",
        "1a.sst",
        "0x1.sst",
        "١.sst",
        "000001.sst.tmp",
        ".sst.tmp",
        "x.sst.tmp",
        "000001.SST",
        "sst",
        "",
        "wal.log",
        "000001.sst.bak",
    ] {
        // The same by means of the standard library.
        let id = name.strip_suffix(".sst").and_then(|stem| stem.parse::<u64>().ok());
        let expected = match id {
            Some(id) => FileKind::Table(id),
            None if name.ends_with(".sst.tmp") => FileKind::Leftover,
            None => FileKind::Other,
        };
        assert_eq!(classify(name), expected, "{name}");
    }
}

#[test]
fn tables_are_found_by_ascending_id() {
    let names: Vec<String> = [
        "000010.sst",
        "wal.log",
        "2.sst",
        "000003.sst.tmp",
        "000001.sst",
        "000002.sst",
        "notes.txt",
        "9.sst.tmp",
    ]
    .iter()
    .map(|n| n.to_string())
    .collect();
    let (tables, leftovers) = discover_sstable_files(&names);
    let tables: Vec<(u64, &str)> = tables.iter().map(|(id, n)| (*id, n.as_str())).collect();
    assert_eq!(
        tables,
        vec![
            (1, "000001.sst"),
            (2, "2.sst"),
            (2, "000002.sst"),
            (10, "000010.sst"),
        ]
    );
    assert_eq!(leftovers, vec!["000003.sst.tmp", "9.sst.tmp"]);
}
