//! A deletion hides older values at once, is removed for good by a compaction,
//! and does not come undone later.

use lsm_storage_engine::lsm::{Action, Lookup, SstableEntryDebug};
use lsm_storage_engine::names::discover_sstable_files;
use lsm_storage_engine::{LsmOptions, LsmTree, SsTable};
use std::collections::BTreeMap;

/// All of a table file that comes behind its data block.
fn tail(image: &[u8]) -> Vec<u8> {
    let footer = &image[image.len() - 36..];
    let start = SsTable::tail_start(image.len() as u64, footer).unwrap();
    image[start as usize..].to_vec()
}

/// Tells the store that its action has been carried out.
fn report(tree: &mut LsmTree, part: &[u8]) {
    if matches!(tree.pending(), Action::ReadTable { .. }) {
        tree.supply(part).unwrap();
    } else {
        tree.completed().unwrap();
    }
}

/// A data directory in memory.
struct Directory {
    files: BTreeMap<String, Vec<u8>>,
    log: Vec<u8>,
}

impl Directory {
    fn new() -> Self {
        Directory {
            files: BTreeMap::new(),
            log: Vec::new(),
        }
    }

    fn open(&mut self, opts: LsmOptions) -> LsmTree {
        let names: Vec<String> = self.files.keys().cloned().collect();
        let (tables, leftovers) = discover_sstable_files(&names);
        for name in leftovers {
            self.files.remove(&name);
        }
        let tails = tables
            .into_iter()
            .map(|(id, name)| {
                let tail = tail(&self.files[&name]);
                (id, name, tail)
            })
            .collect();
        let mut tree = LsmTree::open(tails, &self.log, opts).unwrap();
        self.carry_through(&mut tree);
        tree
    }

    /// Carries out the pending action. The result is what was read, if anything;
    /// `None` says that there was no action.
    fn act(&mut self, tree: &LsmTree) -> Option<Vec<u8>> {
        match tree.pending() {
            Action::Done => return None,
            Action::AppendWal(bytes) => self.log.extend_from_slice(&bytes),
            Action::TruncateWal(len) => self.log.truncate(len),
            Action::ReadTable { file_name, start, end } => {
                return Some(self.files[file_name][start as usize..end as usize].to_vec());
            }
            Action::WriteTable { file_name, image } => {
                self.files.insert(file_name.clone(), image.clone());
            }
            Action::RemoveTable { file_name } => {
                assert!(self.files.remove(file_name).is_some());
            }
        }
        Some(Vec::new())
    }

    fn carry_through(&mut self, tree: &mut LsmTree) {
        while let Some(part) = self.act(tree) {
            report(tree, &part);
        }
    }

    /// Looks a key up, reading what the store asks for.
    fn get(&self, tree: &LsmTree, key: &[u8]) -> Option<Vec<u8>> {
        let mut found = tree.get(key);
        loop {
            match found {
                Lookup::Known(value) => return value,
                Lookup::Read { table, file_name, start, end } => {
                    let part = &self.files[file_name][start as usize..end as usize];
                    found = tree.get_with(key, table, part).unwrap();
                }
            }
        }
    }
}

/// A store with its data directory.
struct Store {
    dir: Directory,
    tree: LsmTree,
}

impl Store {
    fn open(mut dir: Directory, opts: LsmOptions) -> Self {
        let tree = dir.open(opts);
        Store { dir, tree }
    }

    fn put(&mut self, key: &[u8], value: &[u8]) {
        self.tree.put(key, value).unwrap();
        self.dir.carry_through(&mut self.tree);
    }

    fn delete(&mut self, key: &[u8]) {
        self.tree.delete(key).unwrap();
        self.dir.carry_through(&mut self.tree);
    }

    fn flush(&mut self) {
        self.tree.flush().unwrap();
        self.dir.carry_through(&mut self.tree);
    }

    fn compact(&mut self) {
        self.tree.compact().unwrap();
        self.dir.carry_through(&mut self.tree);
    }

    fn get(&self, key: &[u8]) -> Option<Vec<u8>> {
        self.dir.get(&self.tree, key)
    }

    /// Every entry of every table.
    fn raw_entries(&self) -> Vec<SstableEntryDebug> {
        let data: Vec<Vec<u8>> = (0..self.tree.sstable_count())
            .map(|i| {
                let t = self.tree.sstable(i);
                self.dir.files[t.file_name()][0..t.data_len() as usize].to_vec()
            })
            .collect();
        self.tree.debug_all_sstable_entries(&data).unwrap()
    }
}

#[test]
fn delete_masks_value_before_any_compaction() {
    let mut store = Store::open(
        Directory::new(),
        LsmOptions {
            compaction_trigger: 1_000_000,
            ..LsmOptions::default()
        },
    );
    store.put(b"k", b"v");
    store.flush(); // first table: the value
    store.delete(b"k");
    store.flush(); // second table: the tombstone
    assert_eq!(store.tree.sstable_count(), 2);
    assert_eq!(store.get(b"k"), None);
}

#[test]
fn delete_within_memtable_before_any_flush() {
    let mut store = Store::open(Directory::new(), LsmOptions::default());
    store.put(b"k", b"v");
    store.delete(b"k");
    assert_eq!(store.get(b"k"), None);
    assert_eq!(store.tree.memtable_len(), 1); // the tombstone
}

#[test]
fn compaction_physically_removes_the_tombstone_not_just_the_value() {
    let mut store = Store::open(
        Directory::new(),
        LsmOptions {
            compaction_trigger: 1_000_000,
            ..LsmOptions::default()
        },
    );

    store.put(b"doomed", b"will-be-deleted");
    store.flush();
    store.delete(b"doomed");
    store.flush();
    assert_eq!(store.get(b"doomed"), None);
    let raw = store.raw_entries();
    assert_eq!(
        raw,
        vec![
            (1, b"doomed".to_vec(), Some(b"will-be-deleted".to_vec())),
            (2, b"doomed".to_vec(), None),
        ]
    );

    store.compact();
    assert_eq!(store.tree.sstable_count(), 1);
    assert_eq!(store.get(b"doomed"), None);

    let raw = store.raw_entries();
    assert!(
        raw.iter().all(|(_, k, _)| k != b"doomed"),
        "tombstone (or value) for 'doomed' should be physically gone after compaction, found: {raw:?}"
    );
}

#[test]
fn deleted_key_never_reappears_across_several_more_compaction_cycles() {
    let mut store = Store::open(
        Directory::new(),
        LsmOptions {
            compaction_trigger: 1_000_000,
            ..LsmOptions::default()
        },
    );

    store.put(b"doomed", b"v0");
    store.flush();
    store.delete(b"doomed");
    store.flush();
    store.compact();
    assert_eq!(store.get(b"doomed"), None);

    for round in 0..8u32 {
        store.put(format!("filler{round}").as_bytes(), b"x");
        store.flush();
        store.compact();
        assert_eq!(
            store.get(b"doomed"),
            None,
            "round {round}: deleted key resurfaced!"
        );
    }
    assert_eq!(store.tree.sstable_count(), 1);
}

#[test]
fn delete_of_a_key_that_never_existed_is_harmless() {
    let mut store = Store::open(Directory::new(), LsmOptions::default());
    store.delete(b"never-existed");
    assert_eq!(store.get(b"never-existed"), None);
    store.flush();
    store.compact();
    assert_eq!(store.get(b"never-existed"), None);
}
