//! What was written is read back, whether it is in the memtable, in a table, or
//! in a table that a compaction made.

use lsm_storage_engine::lsm::{Action, Lookup};
use lsm_storage_engine::names::discover_sstable_files;
use lsm_storage_engine::{LsmOptions, LsmTree, SsTable};
use std::collections::BTreeMap;

/// All of a table file that comes behind its data block.
fn tail(image: &[u8]) -> Vec<u8> {
    let footer = &image[image.len() - 36..];
    let start = SsTable::tail_start(image.len() as u64, footer).unwrap();
    image[start as usize..].to_vec()
}

/// Tells the store that its action has been carried out.
fn report(tree: &mut LsmTree, part: &[u8]) {
    if matches!(tree.pending(), Action::ReadTable { .. }) {
        tree.supply(part).unwrap();
    } else {
        tree.completed().unwrap();
    }
}

/// A data directory in memory.
struct Directory {
    files: BTreeMap<String, Vec<u8>>,
    log: Vec<u8>,
}

impl Directory {
    fn new() -> Self {
        Directory {
            files: BTreeMap::new(),
            log: Vec::new(),
        }
    }

    fn open(&mut self, opts: LsmOptions) -> LsmTree {
        let names: Vec<String> = self.files.keys().cloned().collect();
        let (tables, leftovers) = discover_sstable_files(&names);
        for name in leftovers {
            self.files.remove(&name);
        }
        let tails = tables
            .into_iter()
            .map(|(id, name)| {
                let tail = tail(&self.files[&name]);
                (id, name, tail)
            })
            .collect();
        let mut tree = LsmTree::open(tails, &self.log, opts).unwrap();
        self.carry_through(&mut tree);
        tree
    }

    /// Carries out the pending action. The result is what was read, if anything;
    /// `None` says that there was no action.
    fn act(&mut self, tree: &LsmTree) -> Option<Vec<u8>> {
        match tree.pending() {
            Action::Done => return None,
            Action::AppendWal(bytes) => self.log.extend_from_slice(&bytes),
            Action::TruncateWal(len) => self.log.truncate(len),
            Action::ReadTable { file_name, start, end } => {
                return Some(self.files[file_name][start as usize..end as usize].to_vec());
            }
            Action::WriteTable { file_name, image } => {
                self.files.insert(file_name.clone(), image.clone());
            }
            Action::RemoveTable { file_name } => {
                assert!(self.files.remove(file_name).is_some());
            }
        }
        Some(Vec::new())
    }

    fn carry_through(&mut self, tree: &mut LsmTree) {
        while let Some(part) = self.act(tree) {
            report(tree, &part);
        }
    }

    /// Looks a key up, reading what the store asks for.
    fn get(&self, tree: &LsmTree, key: &[u8]) -> Option<Vec<u8>> {
        let mut found = tree.get(key);
        loop {
            match found {
                Lookup::Known(value) => return value,
                Lookup::Read { table, file_name, start, end } => {
                    let part = &self.files[file_name][start as usize..end as usize];
                    found = tree.get_with(key, table, part).unwrap();
                }
            }
        }
    }
}

/// A store with its data directory.
struct Store {
    dir: Directory,
    tree: LsmTree,
}

impl Store {
    fn open(mut dir: Directory, opts: LsmOptions) -> Self {
        let tree = dir.open(opts);
        Store { dir, tree }
    }

    fn put(&mut self, key: &[u8], value: &[u8]) {
        self.tree.put(key, value).unwrap();
        self.dir.carry_through(&mut self.tree);
    }

    fn flush(&mut self) {
        self.tree.flush().unwrap();
        self.dir.carry_through(&mut self.tree);
    }

    fn compact(&mut self) {
        self.tree.compact().unwrap();
        self.dir.carry_through(&mut self.tree);
    }

    fn get(&self, key: &[u8]) -> Option<Vec<u8>> {
        self.dir.get(&self.tree, key)
    }
}

#[test]
fn read_after_write_across_memtable_sstable_and_compaction() {
    let opts = LsmOptions {
        memtable_max_bytes: 200,
        compaction_trigger: 2,
        ..LsmOptions::default()
    };
    let mut store = Store::open(Directory::new(), opts);

    // The value is in the memtable only.
    store.put(b"alpha", b"1");
    assert_eq!(store.get(b"alpha"), Some(b"1".to_vec()));

    // After a flush it is in a table.
    store.flush();
    assert_eq!(store.tree.sstable_count(), 1);
    assert_eq!(store.get(b"alpha"), Some(b"1".to_vec()));

    // Overwritten while the old value is still in a table.
    store.put(b"alpha", b"2");
    assert_eq!(store.get(b"alpha"), Some(b"2".to_vec()));

    store.flush();
    assert_eq!(store.get(b"alpha"), Some(b"2".to_vec()));

    store.put(b"beta", b"b");
    store.flush();

    // After a compaction everything is in one table.
    store.compact();
    assert_eq!(store.tree.sstable_count(), 1);
    assert_eq!(store.get(b"alpha"), Some(b"2".to_vec()));
    assert_eq!(store.get(b"beta"), Some(b"b".to_vec()));
}

#[test]
fn many_keys_survive_flush_compact_and_reopen() {
    let dir = {
        let mut store = Store::open(
            Directory::new(),
            LsmOptions {
                memtable_max_bytes: 512,
                ..LsmOptions::default()
            },
        );
        for i in 0..500u32 {
            store.put(format!("k{i:05}").as_bytes(), format!("v{i}").as_bytes());
        }
        store.flush();
        store.compact();

        for i in 0..500u32 {
            let expected = format!("v{i}").into_bytes();
            assert_eq!(store.get(format!("k{i:05}").as_bytes()), Some(expected));
        }
        store.dir
    };

    let store = Store::open(dir, LsmOptions::default());
    for i in 0..500u32 {
        let expected = format!("v{i}").into_bytes();
        assert_eq!(store.get(format!("k{i:05}").as_bytes()), Some(expected));
    }
}

#[test]
fn overwrite_many_times_before_any_flush_keeps_latest_value() {
    let mut store = Store::open(Directory::new(), LsmOptions::default());
    for i in 0..50u32 {
        store.put(b"hot-key", format!("v{i}").as_bytes());
        assert_eq!(store.get(b"hot-key"), Some(format!("v{i}").into_bytes()));
    }
}
