//! The steps of the store one by one.

use lsm_storage_engine::block::TableError;
use lsm_storage_engine::lsm::{Action, Lookup, LsmError, SstableEntryDebug};
use lsm_storage_engine::merge::READ_LEN;
use lsm_storage_engine::{LsmOptions, LsmTree, SsTable, WalRecord};

fn open(opts: LsmOptions) -> LsmTree {
    LsmTree::open(Vec::new(), &[], opts).unwrap()
}

fn table(id: u64, key: &str) -> (u64, String, Vec<u8>) {
    let name = format!("{id:06}.sst");
    let entries = vec![(key.as_bytes().to_vec(), Some(b"v".to_vec()))];
    let (_, image) = SsTable::build(name.clone(), id, entries, 4, 10, true).unwrap();
    (id, name, image)
}

/// The files of tables: id, name and contents of each.
type Files = Vec<(u64, String, Vec<u8>)>;

/// All of a table file that comes behind its data block.
fn tail(image: &[u8]) -> Vec<u8> {
    let footer = &image[image.len() - 36..];
    let start = SsTable::tail_start(image.len() as u64, footer).unwrap();
    image[start as usize..].to_vec()
}

fn tails(files: &Files) -> Files {
    files
        .iter()
        .map(|(id, name, image)| (*id, name.clone(), tail(image)))
        .collect()
}

fn contents<'a>(files: &'a Files, name: &str) -> &'a [u8] {
    &files.iter().find(|f| f.1 == name).expect("no such file").2
}

/// Looks a key up, reading what the store asks for.
fn get(tree: &LsmTree, files: &Files, key: &[u8]) -> Result<Option<Vec<u8>>, TableError> {
    let mut found = tree.get(key);
    loop {
        match found {
            Lookup::Known(value) => return Ok(value),
            Lookup::Read { table, file_name, start, end } => {
                let part = &contents(files, file_name)[start as usize..end as usize];
                found = tree.get_with(key, table, part)?;
            }
        }
    }
}

/// Reads what the store asks for until it asks for nothing more.
fn read_all(tree: &mut LsmTree, files: &Files) -> Result<(), LsmError> {
    loop {
        let part = match tree.pending() {
            Action::ReadTable { file_name, start, end } => {
                contents(files, file_name)[start as usize..end as usize].to_vec()
            }
            _ => return Ok(()),
        };
        tree.supply(&part)?;
    }
}

fn raw_entries(tree: &LsmTree, files: &Files) -> Result<Vec<SstableEntryDebug>, TableError> {
    let data: Vec<Vec<u8>> = (0..tree.sstable_count())
        .map(|i| {
            let t = tree.sstable(i);
            contents(files, t.file_name())[0..t.data_len() as usize].to_vec()
        })
        .collect();
    tree.debug_all_sstable_entries(&data)
}

fn appended(tree: &LsmTree) -> Vec<u8> {
    match tree.pending() {
        Action::AppendWal(bytes) => bytes,
        _ => panic!("nothing is appended"),
    }
}

fn written(tree: &LsmTree) -> (String, Vec<u8>) {
    match tree.pending() {
        Action::WriteTable { file_name, image } => (file_name.clone(), image.clone()),
        _ => panic!("no table is written"),
    }
}

fn removed(tree: &LsmTree) -> String {
    match tree.pending() {
        Action::RemoveTable { file_name } => file_name.clone(),
        _ => panic!("no table is removed"),
    }
}

fn truncated(tree: &LsmTree) -> usize {
    match tree.pending() {
        Action::TruncateWal(len) => len,
        _ => panic!("the log is not cut off"),
    }
}

fn idle(tree: &LsmTree) -> bool {
    matches!(tree.pending(), Action::Done)
}

#[test]
fn default_options() {
    let opts = LsmOptions::default();
    assert_eq!(opts.memtable_max_bytes, 4 * 1024 * 1024);
    assert_eq!(opts.sparse_index_interval, 32);
    assert_eq!(opts.bloom_bits_per_key, 10);
    assert!(opts.bloom_enabled);
    assert_eq!(opts.compaction_trigger, 4);
    assert!(opts.wal_sync);
    let copy = opts.clone();
    assert_eq!(format!("{copy:?}"), format!("{opts:?}"));
}

#[test]
fn a_write_is_logged_and_then_applied() {
    let mut tree = open(LsmOptions::default());
    assert!(idle(&tree));
    tree.put(b"k", b"v").unwrap();
    assert_eq!(
        appended(&tree),
        WalRecord::Put(b"k".to_vec(), b"v".to_vec()).encode()
    );
    assert_eq!(get(&tree, &Vec::new(), b"k").unwrap(), None);
    assert_eq!(tree.memtable_len(), 0);
    tree.completed().unwrap();
    assert!(idle(&tree));
    assert_eq!(get(&tree, &Vec::new(), b"k").unwrap(), Some(b"v".to_vec()));
    assert_eq!(tree.memtable_len(), 1);
    tree.delete(b"k").unwrap();
    assert_eq!(appended(&tree), WalRecord::Delete(b"k".to_vec()).encode());
    tree.completed().unwrap();
    assert_eq!(get(&tree, &Vec::new(), b"k").unwrap(), None);
    assert_eq!(tree.memtable_len(), 1);
    tree.completed().unwrap();
    assert!(idle(&tree));
}

#[test]
fn the_memtable_is_flushed_when_it_reaches_its_limit() {
    let mut tree = open(LsmOptions {
        memtable_max_bytes: 4,
        ..LsmOptions::default()
    });
    tree.put(b"k", b"vv").unwrap();
    tree.completed().unwrap();
    assert!(idle(&tree));
    tree.put(b"k", b"vvv").unwrap();
    tree.completed().unwrap();
    let (name, image) = written(&tree);
    assert_eq!(name, "000001.sst");
    let files = vec![(1, name.clone(), image.clone())];
    let t = SsTable::open(name, 1, &tail(&image)).unwrap();
    let data = &image[0..t.data_len() as usize];
    assert_eq!(t.get(b"k", data).unwrap(), Some(Some(b"vvv".to_vec())));
    assert_eq!(tree.sstable_count(), 0);
    tree.completed().unwrap();
    assert_eq!(truncated(&tree), 0);
    assert_eq!(tree.sstable_count(), 1);
    assert_eq!(tree.memtable_len(), 1);
    assert_eq!(get(&tree, &files, b"k").unwrap(), Some(b"vvv".to_vec()));
    tree.completed().unwrap();
    assert!(idle(&tree));
    assert_eq!(tree.memtable_len(), 0);
    assert_eq!(get(&tree, &files, b"k").unwrap(), Some(b"vvv".to_vec()));
}

#[test]
fn tables_are_merged_when_there_are_enough() {
    let mut files = vec![table(3, "a"), table(5, "b")];
    let mut tree = LsmTree::open(
        tails(&files),
        &[],
        LsmOptions {
            compaction_trigger: 3,
            memtable_max_bytes: 1,
            ..LsmOptions::default()
        },
    )
    .unwrap();
    tree.put(b"c", b"w").unwrap();
    tree.completed().unwrap();
    let (name, image) = written(&tree);
    assert_eq!(name, "000006.sst");
    files.push((6, name, image));
    tree.completed().unwrap();
    assert_eq!(truncated(&tree), 0);
    tree.completed().unwrap();
    // The tables are read from the newest on.
    for name in ["000006.sst", "000005.sst", "000003.sst"] {
        match tree.pending() {
            Action::ReadTable { file_name, start, end } => {
                assert_eq!((file_name.as_str(), start, end), (name, 0, 10));
            }
            _ => panic!("nothing is read"),
        }
        assert_eq!(tree.sstable_count(), 3);
        let part = contents(&files, name)[0..10].to_vec();
        tree.supply(&part).unwrap();
    }
    let (name, image) = written(&tree);
    assert_eq!(name, "000007.sst");
    let merged = SsTable::open(name.clone(), 7, &tail(&image)).unwrap();
    files.push((7, name, image));
    assert_eq!(merged.entry_count, 3);
    assert_eq!(tree.sstable_count(), 3);
    tree.completed().unwrap();
    assert_eq!(tree.sstable_count(), 1);
    // The replaced tables are removed from the oldest on.
    for name in ["000003.sst", "000005.sst", "000006.sst"] {
        assert_eq!(removed(&tree), name);
        for key in ["a", "b"] {
            assert_eq!(get(&tree, &files, key.as_bytes()).unwrap(), Some(b"v".to_vec()));
        }
        assert_eq!(get(&tree, &files, b"c").unwrap(), Some(b"w".to_vec()));
        tree.completed().unwrap();
    }
    assert!(idle(&tree));
    assert_eq!(tree.sstable_count(), 1);
}

#[test]
fn flushing_on_demand_does_not_merge() {
    let files = vec![table(1, "a"), table(2, "b")];
    let mut tree = LsmTree::open(
        tails(&files),
        &[],
        LsmOptions {
            compaction_trigger: 1,
            ..LsmOptions::default()
        },
    )
    .unwrap();
    tree.flush().unwrap();
    assert!(idle(&tree), "the memtable is empty");
    let mut tree = LsmTree::open(
        tails(&vec![table(1, "a")]),
        &WalRecord::Put(b"k".to_vec(), b"v".to_vec()).encode(),
        LsmOptions {
            compaction_trigger: 1,
            ..LsmOptions::default()
        },
    )
    .unwrap();
    tree.flush().unwrap();
    assert_eq!(written(&tree).0, "000002.sst");
    tree.completed().unwrap();
    tree.completed().unwrap();
    assert!(idle(&tree));
    assert_eq!(tree.sstable_count(), 2);
}

#[test]
fn compacting_without_tables_does_nothing() {
    let mut tree = open(LsmOptions::default());
    tree.compact().unwrap();
    assert!(idle(&tree));
    assert_eq!(tree.sstable_count(), 0);
}

#[test]
fn the_log_is_replayed_and_a_torn_record_is_cut_off() {
    let mut log = WalRecord::Put(b"a".to_vec(), b"1".to_vec()).encode();
    log.extend_from_slice(&WalRecord::Delete(b"b".to_vec()).encode());
    let complete = log.len();
    log.extend_from_slice(&[0, 1, 0]);
    let files = vec![table(1, "b")];
    let mut tree = LsmTree::open(tails(&files), &log, LsmOptions::default()).unwrap();
    assert_eq!(truncated(&tree), complete);
    assert_eq!(get(&tree, &files, b"a").unwrap(), Some(b"1".to_vec()));
    assert_eq!(get(&tree, &files, b"b").unwrap(), None);
    assert_eq!(tree.put(b"c", b"1"), Err(LsmError::Busy));
    tree.completed().unwrap();
    assert!(idle(&tree));
    let tree =
        LsmTree::open(tails(&files), &log[0..complete], LsmOptions::default()).unwrap();
    assert!(idle(&tree));
    assert_eq!(tree.memtable_len(), 2);
    assert_eq!(tree.options().compaction_trigger, 4);
}

#[test]
fn an_operation_waits_for_the_one_before() {
    let mut tree = open(LsmOptions::default());
    tree.put(b"k", b"v").unwrap();
    assert_eq!(tree.put(b"k", b"w"), Err(LsmError::Busy));
    assert_eq!(tree.delete(b"k"), Err(LsmError::Busy));
    assert_eq!(tree.flush(), Err(LsmError::Busy));
    assert_eq!(tree.compact(), Err(LsmError::Busy));
    tree.completed().unwrap();
    assert_eq!(get(&tree, &Vec::new(), b"k").unwrap(), Some(b"v".to_vec()));
}

#[test]
fn table_ids_can_run_out() {
    let files = vec![table(u64::MAX, "a")];
    let mut tree = LsmTree::open(tails(&files), &[], LsmOptions::default()).unwrap();
    tree.put(b"k", b"v").unwrap();
    tree.completed().unwrap();
    assert_eq!(tree.flush(), Err(LsmError::IdsExhausted));
    tree.compact().unwrap();
    assert_eq!(read_all(&mut tree, &files), Err(LsmError::IdsExhausted));
    assert!(idle(&tree));
    assert_eq!(get(&tree, &files, b"k").unwrap(), Some(b"v".to_vec()));
    // The last id but one is still good for one table.
    let mut files = vec![table(u64::MAX - 1, "a")];
    let mut tree = LsmTree::open(tails(&files), &[], LsmOptions::default()).unwrap();
    tree.compact().unwrap();
    read_all(&mut tree, &files).unwrap();
    let (name, image) = written(&tree);
    assert_eq!(name, "18446744073709551615.sst");
    files.push((u64::MAX, name, image));
    tree.completed().unwrap();
    tree.completed().unwrap();
    tree.compact().unwrap();
    assert_eq!(read_all(&mut tree, &files), Err(LsmError::IdsExhausted));
}

#[test]
fn a_flush_that_cannot_begin_leaves_the_write_done() {
    let mut tree = open(LsmOptions {
        memtable_max_bytes: 3,
        bloom_bits_per_key: usize::MAX,
        ..LsmOptions::default()
    });
    tree.put(b"a", b"1").unwrap();
    tree.completed().unwrap();
    tree.put(b"b", b"2").unwrap();
    assert_eq!(
        tree.completed(),
        Err(LsmError::Table(TableError::FilterTooLarge))
    );
    assert!(idle(&tree));
    assert_eq!(get(&tree, &Vec::new(), b"b").unwrap(), Some(b"2".to_vec()));
    assert_eq!(tree.memtable_len(), 2);
}

#[test]
fn damaged_tables_are_reported() {
    let (id, name, mut image) = table(1, "a");
    image[4] = 77; // the value runs past the data
    let files = vec![(id, name, image)];
    let mut tree = LsmTree::open(tails(&files), &[], LsmOptions::default()).unwrap();
    assert_eq!(get(&tree, &files, b"a"), Err(TableError::BadEntry));
    tree.compact().unwrap();
    assert_eq!(
        read_all(&mut tree, &files),
        Err(LsmError::Table(TableError::BadEntry))
    );
    assert!(idle(&tree));
    assert_eq!(tree.sstable_count(), 1);
    assert_eq!(raw_entries(&tree, &files), Err(TableError::BadEntry));
    // A newer record is found first.
    tree.put(b"a", b"2").unwrap();
    tree.completed().unwrap();
    assert_eq!(get(&tree, &files, b"a"), Ok(Some(b"2".to_vec())));

    let mut files = files;
    files.insert(0, (0, String::from("0.sst"), vec![1, 2, 3]));
    files.insert(1, (0, String::from("00.sst"), vec![0; 40]));
    let r = LsmTree::open(files, &[], LsmOptions::default());
    assert!(matches!(r, Err(TableError::TooShort)));
}

#[test]
fn the_newest_table_decides() {
    let mut first = table(1, "k");
    let mut second = table(2, "k");
    first.2 = SsTable::build(
        first.1.clone(),
        1,
        vec![(b"k".to_vec(), Some(b"old".to_vec()))],
        4,
        10,
        true,
    )
    .unwrap()
    .1;
    second.2 = SsTable::build(second.1.clone(), 2, vec![(b"k".to_vec(), None)], 4, 10, true)
        .unwrap()
        .1;
    let third = table(3, "other");
    let files = vec![first.clone(), second.clone(), third.clone()];
    let tree = LsmTree::open(tails(&files), &[], LsmOptions::default()).unwrap();
    assert_eq!(get(&tree, &files, b"k").unwrap(), None);
    let files = vec![first, third];
    let tree = LsmTree::open(tails(&files), &[], LsmOptions::default()).unwrap();
    assert_eq!(get(&tree, &files, b"k").unwrap(), Some(b"old".to_vec()));
    assert_eq!(get(&tree, &files, b"missing").unwrap(), None);
    let files = vec![second];
    let tree = LsmTree::open(tails(&files), &[], LsmOptions::default()).unwrap();
    assert_eq!(
        raw_entries(&tree, &files).unwrap(),
        vec![(2, b"k".to_vec(), None)]
    );
}

#[test]
fn compaction_of_a_single_table_drops_its_tombstones() {
    let log = WalRecord::Delete(b"k".to_vec()).encode();
    let mut tree = LsmTree::open(Vec::new(), &log, LsmOptions::default()).unwrap();
    tree.flush().unwrap();
    let (name, image) = written(&tree);
    let mut files = vec![(1, name, image)];
    tree.completed().unwrap();
    tree.completed().unwrap();
    assert_eq!(raw_entries(&tree, &files).unwrap().len(), 1);
    tree.compact().unwrap();
    read_all(&mut tree, &files).unwrap();
    let (name, image) = written(&tree);
    assert_eq!(name, "000002.sst");
    files.push((2, name, image));
    tree.completed().unwrap();
    assert_eq!(removed(&tree), "000001.sst");
    tree.completed().unwrap();
    assert!(idle(&tree));
    assert_eq!(tree.sstable_count(), 1);
    assert!(raw_entries(&tree, &files).unwrap().is_empty());
    // Of a table without data an empty part is read.
    tree.compact().unwrap();
    match tree.pending() {
        Action::ReadTable { file_name, start, end } => {
            assert_eq!((file_name.as_str(), start, end), ("000002.sst", 0, 0));
        }
        _ => panic!("nothing is read"),
    }
    tree.supply(&[]).unwrap();
    assert_eq!(written(&tree).0, "000003.sst");
}

#[test]
fn tombstones_do_not_count_towards_the_limit() {
    let mut tree = open(LsmOptions {
        memtable_max_bytes: 4,
        ..LsmOptions::default()
    });
    tree.put(b"k", b"v").unwrap();
    tree.completed().unwrap();
    for key in ["k", "a long key", "another long key"] {
        tree.delete(key.as_bytes()).unwrap();
        tree.completed().unwrap();
        assert!(idle(&tree));
    }
    assert_eq!(tree.memtable_len(), 3);
    tree.put(b"kk", b"vv").unwrap();
    tree.completed().unwrap();
    assert_eq!(written(&tree).0, "000001.sst");
}

#[test]
fn a_lookup_asks_for_what_it_needs() {
    let files = vec![table(1, "a"), table(2, "b"), table(3, "c")];
    let log = WalRecord::Put(b"m".to_vec(), b"w".to_vec()).encode();
    let tree = LsmTree::open(tails(&files), &log, LsmOptions::default()).unwrap();
    // What is in the memtable needs no file, and neither does a key that every
    // filter rules out.
    assert!(matches!(tree.get(b"m"), Lookup::Known(Some(v)) if v == b"w".to_vec()));
    assert!(matches!(tree.get(b"zz"), Lookup::Known(None)));
    // Only the table that has the key is read, and of it only the part in question.
    match tree.get(b"a") {
        Lookup::Read { table, file_name, start, end } => {
            assert_eq!((table, file_name.as_str(), start, end), (0, "000001.sst", 0, 10));
        }
        Lookup::Known(_) => panic!("the value is in a file"),
    }
    let part = contents(&files, "000001.sst")[0..10].to_vec();
    let found = tree.get_with(b"a", 0, &part).unwrap();
    assert!(matches!(found, Lookup::Known(Some(v)) if v == b"v".to_vec()));
}

#[test]
fn without_filters_every_table_is_asked() {
    let build = |id: u64, key: &str| {
        let name = format!("{id:06}.sst");
        let entries = vec![(key.as_bytes().to_vec(), Some(b"v".to_vec()))];
        let (_, image) = SsTable::build(name.clone(), id, entries, 4, 10, false).unwrap();
        (id, name, image)
    };
    let files = vec![build(1, "a"), build(2, "b"), build(3, "c")];
    let tree = LsmTree::open(tails(&files), &[], LsmOptions::default()).unwrap();
    let mut asked = Vec::new();
    let mut found = tree.get(b"zz");
    while let Lookup::Read { table, file_name, start, end } = found {
        asked.push(table);
        let part = &contents(&files, file_name)[start as usize..end as usize];
        found = tree.get_with(b"zz", table, part).unwrap();
    }
    assert_eq!(asked, vec![2, 1, 0]);
    assert!(matches!(found, Lookup::Known(None)));
}

#[test]
fn what_was_not_asked_for_is_refused() {
    let files = vec![table(1, "a"), table(2, "b")];
    let mut tree = LsmTree::open(tails(&files), &[], LsmOptions::default()).unwrap();
    assert_eq!(tree.supply(&[]), Err(LsmError::NotWanted));
    tree.compact().unwrap();
    for wrong in [0usize, 9, 11] {
        assert_eq!(tree.supply(&vec![0; wrong]), Err(LsmError::NotWanted));
    }
    // The part has to be handed over.
    assert_eq!(tree.completed(), Err(LsmError::Busy));
    assert_eq!(tree.put(b"k", b"v"), Err(LsmError::Busy));
    assert_eq!(tree.compact(), Err(LsmError::Busy));
    // Lookups go on meanwhile.
    assert_eq!(get(&tree, &files, b"a").unwrap(), Some(b"v".to_vec()));
    read_all(&mut tree, &files).unwrap();
    assert_eq!(written(&tree).0, "000003.sst");
    assert_eq!(tree.supply(&[]), Err(LsmError::NotWanted));
}

#[test]
fn a_compaction_reads_large_tables_in_parts() {
    let value = vec![b'x'; 10_000];
    let build = |id: u64, from: u32| {
        let name = format!("{id:06}.sst");
        let entries = (0..50u32)
            .map(|i| (format!("k{:04}", from + 2 * i).into_bytes(), Some(value.clone())))
            .collect();
        let (_, image) = SsTable::build(name.clone(), id, entries, 4, 10, true).unwrap();
        (id, name, image)
    };
    let files = vec![build(1, 0), build(2, 1)];
    let mut tree = LsmTree::open(tails(&files), &[], LsmOptions::default()).unwrap();
    tree.compact().unwrap();
    let mut reads = 0u64;
    let mut bytes = 0u64;
    loop {
        let part = match tree.pending() {
            Action::ReadTable { file_name, start, end } => {
                assert!(end - start <= READ_LEN);
                contents(&files, file_name)[start as usize..end as usize].to_vec()
            }
            _ => break,
        };
        reads += 1;
        bytes += part.len() as u64;
        tree.supply(&part).unwrap();
    }
    // Every byte of the data is read once.
    let data: u64 = (0..2).map(|i| tree.sstable(i).data_len()).sum();
    assert_eq!(bytes, data);
    assert_eq!(reads, 2 * (data / 2).div_ceil(READ_LEN));
    let (name, image) = written(&tree);
    let merged = SsTable::open(name, 3, &tail(&image)).unwrap();
    assert_eq!(merged.entry_count(), 100);
}
