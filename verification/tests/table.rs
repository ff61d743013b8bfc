//! Tables and their merge.

use lsm_storage_engine::block::{scan_block, SsTableIterator, TableError};
use lsm_storage_engine::compaction::merge_tables_dropping_tombstones;
use lsm_storage_engine::merge::{Merge, READ_LEN};
use lsm_storage_engine::queue::{check_precedes, HeapItem};
use lsm_storage_engine::SsTable;
use std::collections::BTreeMap;

type Entries = Vec<(Vec<u8>, Option<Vec<u8>>)>;

fn entries(list: &[(&str, Option<&str>)]) -> Entries {
    list.iter()
        .map(|(k, v)| (k.as_bytes().to_vec(), v.map(|v| v.as_bytes().to_vec())))
        .collect()
}

/// A table with the contents of its file.
type Built = (SsTable, Vec<u8>);

fn table(id: u64, list: &[(&str, Option<&str>)]) -> Built {
    SsTable::build(format!("{id:06}.sst"), id, entries(list), 2, 10, true).unwrap()
}

/// Opens the table in a file, reading its footer and then its tail.
fn open(name: &str, id: u64, image: &[u8]) -> Result<SsTable, TableError> {
    let footer = &image[image.len().saturating_sub(36)..];
    let start = SsTable::tail_start(image.len() as u64, footer)?;
    SsTable::open(String::from(name), id, &image[start as usize..])
}

fn data<'a>(t: &SsTable, image: &'a [u8]) -> &'a [u8] {
    &image[0..t.data_len() as usize]
}

fn all_entries(data: &[u8]) -> Entries {
    let mut it = SsTableIterator::new(data);
    let mut all = Vec::new();
    while let Some(e) = it.next() {
        all.push(e.unwrap());
    }
    all
}

fn merge(tables: &[&Built]) -> Result<Vec<(Vec<u8>, Vec<u8>)>, TableError> {
    let handles: Vec<&SsTable> = tables.iter().map(|t| &t.0).collect();
    let files: Vec<&[u8]> = tables.iter().map(|t| t.1.as_slice()).collect();
    merge_tables_dropping_tombstones(&handles, &files)
}

fn error(image: Vec<u8>) -> TableError {
    match open("000001.sst", 1, &image) {
        Ok(_) => panic!("the image is not a table"),
        Err(e) => e,
    }
}

const IMAGE: [u8; 131] = [
    1, 0, 0, 0, 1, 0, 0, 0, 97, 49, 1, 0, 0, 0, 255, 255, 255, 255, 98, 1, 0, 0, 0, 0, 0, 0, 0, 99,
    1, 0, 0, 0, 97, 0, 0, 0, 0, 0, 0, 0, 0, 1, 0, 0, 0, 99, 19, 0, 0, 0, 0, 0, 0, 0, 1, 0, 0, 0, 99,
    3, 0, 0, 0, 0, 0, 0, 0, 64, 0, 0, 0, 0, 0, 0, 0, 7, 0, 0, 0, 1, 0, 0, 0, 0, 0, 0, 0, 17, 88,
    141, 192, 96, 160, 6, 3, 28, 0, 0, 0, 0, 0, 0, 0, 26, 0, 0, 0, 0, 0, 0, 0, 13, 0, 0, 0, 0, 0, 0,
    0, 28, 0, 0, 0, 0, 0, 0, 0, 49, 77, 83, 76,
];

#[test]
fn a_table_file_has_exact_bytes() {
    let (_, image) = table(1, &[("a", Some("1")), ("b", None), ("c", Some(""))]);
    assert_eq!(image, IMAGE.to_vec());
    let (_, empty) = SsTable::build(String::from("e"), 7, Vec::new(), 4, 10, false).unwrap();
    let mut expected = vec![0u8; 12 + 20 + 36];
    expected[48] = 12;
    expected[56] = 20;
    expected[64..68].copy_from_slice(&[49, 77, 83, 76]);
    assert_eq!(empty, expected);
}

#[test]
fn a_table_is_opened_as_it_was_built() {
    let list = [("a", Some("1")), ("b", None), ("c", Some("")), ("d", Some("4"))];
    let (built, image) = table(3, &list);
    let opened = open("000003.sst", 3, &image).unwrap();
    let block = data(&built, &image);
    for t in [&built, &opened] {
        assert_eq!(t.id, 3);
        assert_eq!(t.id(), 3);
        assert_eq!(t.entry_count, 4);
        assert_eq!(t.entry_count(), 4);
        assert_eq!(t.min_key(), &Some(b"a".to_vec()));
        assert_eq!(t.max_key(), &Some(b"d".to_vec()));
        assert_eq!(t.file_name(), "000003.sst");
        assert_eq!(t.data_len(), block.len() as u64);
        assert_eq!(all_entries(block), entries(&list));
        assert_eq!(t.get(b"a", block).unwrap(), Some(Some(b"1".to_vec())));
        assert_eq!(t.get(b"b", block).unwrap(), Some(None));
        assert_eq!(t.get(b"c", block).unwrap(), Some(Some(Vec::new())));
        assert_eq!(t.get(b"d", block).unwrap(), Some(Some(b"4".to_vec())));
        for absent in ["", "aa", "bb", "e", "0"] {
            assert_eq!(t.get(absent.as_bytes(), block).unwrap(), None);
        }
    }
}

#[test]
fn every_key_is_found_for_every_index_interval() {
    let list: Entries = (0..100u32)
        .map(|i| (format!("k{:04}", 2 * i).into_bytes(), Some(i.to_string().into_bytes())))
        .collect();
    for interval in [0usize, 1, 2, 3, 7, 32, 99, 100, 101, 1000] {
        for enabled in [true, false] {
            let (t, image) =
                SsTable::build(String::from("t"), 1, list.clone(), interval, 10, enabled).unwrap();
            let block = data(&t, &image);
            for i in 0..100u32 {
                let there = t.get(format!("k{:04}", 2 * i).as_bytes(), block).unwrap();
                assert_eq!(there, Some(Some(i.to_string().into_bytes())));
                let between = format!("k{:04}", 2 * i + 1);
                assert_eq!(t.get(between.as_bytes(), block).unwrap(), None);
            }
        }
    }
}

#[test]
fn an_empty_table_has_no_keys() {
    let (t, image) = table(1, &[]);
    assert_eq!(t.data_len(), 0);
    assert_eq!(t.entry_count, 0);
    assert_eq!(t.min_key, None);
    assert_eq!(t.max_key, None);
    assert_eq!(t.locate(b"a"), None);
    assert_eq!(t.get(b"a", &[]).unwrap(), None);
    let opened = open("t", 1, &image).unwrap();
    assert_eq!(opened.max_key(), &None);
}

#[test]
fn entries_out_of_order_are_refused() {
    for list in [
        entries(&[("b", None), ("a", None)]),
        entries(&[("a", Some("1")), ("a", Some("2"))]),
    ] {
        let r = SsTable::build(String::from("t"), 1, list, 4, 10, true);
        assert!(matches!(r, Err(TableError::Unsorted)));
    }
}

#[test]
fn a_filter_that_cannot_be_counted_is_refused() {
    let list = entries(&[("a", None), ("b", None)]);
    let r = SsTable::build(String::from("t"), 1, list.clone(), 4, usize::MAX, true);
    assert!(matches!(r, Err(TableError::FilterTooLarge)));
    assert!(SsTable::build(String::from("t"), 1, list, 4, usize::MAX, false).is_ok());
}

#[test]
fn damaged_files_are_refused() {
    let image = IMAGE.to_vec();
    let n = image.len();
    assert_eq!(error(image[0..35].to_vec()), TableError::TooShort);
    assert_eq!(error(Vec::new()), TableError::TooShort);

    let mut bad = image.clone();
    bad[n - 1] = 0;
    assert_eq!(error(bad), TableError::BadMagic);

    for at in [n - 36, n - 28, n - 20, n - 12] {
        let mut bad = image.clone();
        bad[at] += 1;
        assert_eq!(error(bad), TableError::BadLayout);
        let mut bad = image.clone();
        bad[at + 7] = 255;
        assert_eq!(error(bad), TableError::BadLayout);
    }

    // The second index key before the first one.
    let mut bad = image.clone();
    bad[45] = 0;
    assert_eq!(error(bad), TableError::BadIndex);
    // An index key that runs past the index.
    let mut bad = image.clone();
    bad[28] = 200;
    assert_eq!(error(bad), TableError::BadIndex);
    // An offset behind the data.
    let mut bad = image.clone();
    bad[46] = 29;
    assert_eq!(error(bad), TableError::BadIndex);

    let mut bad = image.clone();
    bad[54] = 2;
    assert_eq!(error(bad), TableError::BadMeta);

    // More words than there are, and more bits than words.
    let mut bad = image.clone();
    bad[79] = 2;
    assert_eq!(error(bad), TableError::BadFilter);
    let mut bad = image.clone();
    bad[67] = 65;
    assert_eq!(error(bad), TableError::BadFilter);
}

#[test]
fn a_damaged_entry_is_noticed_when_it_is_read() {
    let mut bad = IMAGE.to_vec();
    bad[23] = 9; // the value of the last entry runs past the data
    let t = open("000001.sst", 1, &bad).unwrap();
    let block = data(&t, &bad);
    assert_eq!(t.get(b"a", block).unwrap(), Some(Some(b"1".to_vec())));
    assert_eq!(t.get(b"c", block), Err(TableError::BadEntry));
    assert_eq!(
        merge_tables_dropping_tombstones(&[&t], &[&bad]),
        Err(TableError::BadEntry)
    );
}

#[test]
fn a_merge_takes_the_newest_value_and_drops_deleted_keys() {
    let oldest = table(1, &[("a", Some("1")), ("b", Some("1")), ("d", Some("1"))]);
    let middle = table(2, &[("a", None), ("b", Some("2")), ("c", Some("2"))]);
    let newest = table(3, &[("b", Some("3")), ("d", None), ("e", None)]);
    let merged = merge(&[&newest, &middle, &oldest]).unwrap();
    assert_eq!(
        merged,
        vec![
            (b"b".to_vec(), b"3".to_vec()),
            (b"c".to_vec(), b"2".to_vec()),
        ]
    );
    // The order of the tables decides.
    let merged = merge(&[&oldest, &middle, &newest]).unwrap();
    assert_eq!(
        merged,
        vec![
            (b"a".to_vec(), b"1".to_vec()),
            (b"b".to_vec(), b"1".to_vec()),
            (b"c".to_vec(), b"2".to_vec()),
            (b"d".to_vec(), b"1".to_vec()),
        ]
    );
    assert_eq!(merge(&[]), Ok(Vec::new()));
}

#[test]
fn a_merge_of_many_tables_is_what_a_map_holds() {
    // Numbers that jump about, the same in every run.
    let mut state: u64 = 12345;
    let mut next = |bound: u64| {
        state = state.wrapping_mul(6364136223846793005).wrapping_add(1442695040888963407);
        (state >> 33) % bound
    };
    for tables in 1..20u64 {
        let mut model: BTreeMap<Vec<u8>, Option<Vec<u8>>> = BTreeMap::new();
        let mut built = Vec::new();
        for id in 0..tables {
            let mut contents: BTreeMap<Vec<u8>, Option<Vec<u8>>> = BTreeMap::new();
            for _ in 0..next(30) {
                let key = format!("k{}", next(40)).into_bytes();
                let value = if next(3) == 0 {
                    None
                } else {
                    Some(format!("v{id}").into_bytes())
                };
                contents.insert(key, value);
            }
            model.extend(contents.clone());
            let list: Entries = contents.into_iter().collect();
            built.push(SsTable::build(format!("{id}.sst"), id, list, 3, 10, true).unwrap());
        }
        let newest_first: Vec<&Built> = built.iter().rev().collect();
        let merged = merge(&newest_first).unwrap();
        let expected: Vec<(Vec<u8>, Vec<u8>)> = model
            .into_iter()
            .filter_map(|(k, v)| v.map(|v| (k, v)))
            .collect();
        assert_eq!(merged, expected, "tables: {tables}");
    }
}

#[test]
fn the_merge_orders_by_key_and_then_by_rank() {
    let item = |key: &str, rank: usize, value: Option<&str>| HeapItem {
        key: key.as_bytes().to_vec(),
        value: value.map(|v| v.as_bytes().to_vec()),
        rank,
    };
    let a = item("a", 3, None);
    let b = item("b", 0, Some("x"));
    let c = item("b", 1, None);
    assert!(check_precedes(&a, &b) && !check_precedes(&b, &a));
    assert!(check_precedes(&b, &c) && !check_precedes(&c, &b));
    assert!(check_precedes(&a, &c));
    // The value plays no part.
    let d = item("b", 1, Some("y"));
    assert!(!check_precedes(&c, &d) && !check_precedes(&d, &c));
    assert!(check_precedes(&b, &d));
}

#[test]
fn opening_a_table_reads_its_footer_and_its_tail() {
    let image = IMAGE.to_vec();
    let footer = &image[image.len() - 36..];
    // The tail starts behind the data block.
    assert_eq!(SsTable::tail_start(131, footer), Ok(28));
    let t = SsTable::open(String::from("000001.sst"), 1, &image[28..]).unwrap();
    assert_eq!(t.entry_count(), 3);
    assert_eq!(t.data_len(), 28);
    // Another tail is no table.
    for start in [27, 29] {
        let r = SsTable::open(String::from("000001.sst"), 1, &image[start..]);
        assert!(matches!(r, Err(TableError::BadLayout)));
    }
    assert_eq!(SsTable::tail_start(130, footer), Err(TableError::BadLayout));
    assert_eq!(SsTable::tail_start(35, footer), Err(TableError::TooShort));
    assert_eq!(SsTable::tail_start(131, &footer[1..]), Err(TableError::TooShort));
    assert_eq!(SsTable::tail_start(131, &[0; 36]), Err(TableError::BadMagic));
    // The data may be longer than the memory is.
    let mut large = footer.to_vec();
    large[5] = 1;
    let len = 131 + (1u64 << 40);
    assert_eq!(SsTable::tail_start(len, &large), Ok(28 + (1u64 << 40)));
}

#[test]
fn a_lookup_reads_one_part_of_the_data() {
    let (t, image) = table(1, &[("a", Some("1")), ("b", None), ("c", Some("3"))]);
    // With one index entry for two entries there are two parts.
    assert_eq!(t.locate(b"a"), Some((0, 19)));
    assert_eq!(t.locate(b"b"), Some((0, 19)));
    assert_eq!(t.locate(b"c"), Some((19, 29)));
    assert_eq!(t.data_len(), 29);
    assert_eq!(scan_block(&image[0..19], b"b"), Ok(Some(None)));
    assert_eq!(scan_block(&image[19..29], b"c"), Ok(Some(Some(b"3".to_vec()))));
    assert_eq!(scan_block(&image[0..19], b"c"), Ok(None));
    // Before the first key there is nothing.
    assert_eq!(t.locate(b"0"), None);
}

#[test]
fn the_filter_spares_the_read() {
    let list: Entries = (0..1000u32)
        .map(|i| (format!("k{:04}", 2 * i).into_bytes(), Some(Vec::new())))
        .collect();
    let build = |enabled: bool| {
        SsTable::build(String::from("t"), 1, list.clone(), 32, 10, enabled).unwrap().0
    };
    let (with, without) = (build(true), build(false));
    let mut reads = 0;
    for i in 0..1000u32 {
        let absent = format!("k{:04}", 2 * i + 1);
        assert!(without.locate(absent.as_bytes()).is_some());
        if with.locate(absent.as_bytes()).is_some() {
            reads += 1;
        }
        let there = format!("k{:04}", 2 * i);
        assert!(with.locate(there.as_bytes()).is_some());
    }
    assert!(reads < 50, "{reads} of 1000 absent keys are looked for");
}

#[test]
fn a_merge_reads_one_part_after_the_other() {
    let value = vec![b'x'; 1000];
    let list = |from: u32| -> Entries {
        (0..300u32)
            .map(|i| (format!("k{:04}", from + 2 * i).into_bytes(), Some(value.clone())))
            .collect()
    };
    let newer = SsTable::build(String::from("n"), 2, list(0), 32, 10, true).unwrap();
    let older = SsTable::build(String::from("o"), 1, list(1), 32, 10, true).unwrap();
    let files = [&newer.1, &older.1];
    let lens = [newer.0.data_len(), older.0.data_len()];
    assert!(lens[0] > 4 * READ_LEN);
    let mut merge = Merge::new(&[&newer.0, &older.0]);
    let mut read = [0u64; 2];
    while let Some((table, start, end)) = merge.run().unwrap() {
        // Each part follows the one before, and none is longer than a few pages.
        assert_eq!(start, read[table]);
        assert!(start < end && end - start <= READ_LEN && end <= lens[table]);
        assert_eq!(merge.next_part(), (table, start, end));
        // Neither table is read far ahead of the other.
        let other = read[1 - table];
        assert!(start <= other + 2 * READ_LEN);
        read[table] = end;
        merge.feed(&files[table][start as usize..end as usize]);
    }
    assert_eq!(read, lens);
    let keys: Vec<Vec<u8>> = merge.into_output().into_iter().map(|(k, _)| k).collect();
    let expected: Vec<Vec<u8>> = (0..600u32).map(|i| format!("k{i:04}").into_bytes()).collect();
    assert_eq!(keys, expected);
}
