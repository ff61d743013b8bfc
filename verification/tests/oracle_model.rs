//! A long random sequence of operations is carried out on the store and on a
//! plain map, and every lookup has to give the same. Flushes and compactions
//! happen within the sequence.

use lsm_storage_engine::lsm::{Action, Lookup};
use lsm_storage_engine::names::discover_sstable_files;
use lsm_storage_engine::{LsmOptions, LsmTree, SsTable};
use rand::rngs::StdRng;
use rand::{Rng, SeedableRng};
use std::collections::{BTreeMap, HashMap};

/// All of a table file that comes behind its data block.
fn tail(image: &[u8]) -> Vec<u8> {
    let footer = &image[image.len() - 36..];
    let start = SsTable::tail_start(image.len() as u64, footer).unwrap();
    image[start as usize..].to_vec()
}

/// Tells the store that its action has been carried out.
fn report(tree: &mut LsmTree, part: &[u8]) {
    if matches!(tree.pending(), Action::ReadTable { .. }) {
        tree.supply(part).unwrap();
    } else {
        tree.completed().unwrap();
    }
}

/// A data directory in memory.
struct Directory {
    files: BTreeMap<String, Vec<u8>>,
    log: Vec<u8>,
}

impl Directory {
    fn new() -> Self {
        Directory {
            files: BTreeMap::new(),
            log: Vec::new(),
        }
    }

    fn open(&mut self, opts: LsmOptions) -> LsmTree {
        let names: Vec<String> = self.files.keys().cloned().collect();
        let (tables, leftovers) = discover_sstable_files(&names);
        for name in leftovers {
            self.files.remove(&name);
        }
        let tails = tables
            .into_iter()
            .map(|(id, name)| {
                let tail = tail(&self.files[&name]);
                (id, name, tail)
            })
            .collect();
        let mut tree = LsmTree::open(tails, &self.log, opts).unwrap();
        self.carry_through(&mut tree);
        tree
    }

    /// Carries out the pending action. The result is what was read, if anything;
    /// `None` says that there was no action.
    fn act(&mut self, tree: &LsmTree) -> Option<Vec<u8>> {
        match tree.pending() {
            Action::Done => return None,
            Action::AppendWal(bytes) => self.log.extend_from_slice(&bytes),
            Action::TruncateWal(len) => self.log.truncate(len),
            Action::ReadTable { file_name, start, end } => {
                return Some(self.files[file_name][start as usize..end as usize].to_vec());
            }
            Action::WriteTable { file_name, image } => {
                self.files.insert(file_name.clone(), image.clone());
            }
            Action::RemoveTable { file_name } => {
                assert!(self.files.remove(file_name).is_some());
            }
        }
        Some(Vec::new())
    }

    fn carry_through(&mut self, tree: &mut LsmTree) {
        while let Some(part) = self.act(tree) {
            report(tree, &part);
        }
    }

    /// Looks a key up, reading what the store asks for.
    fn get(&self, tree: &LsmTree, key: &[u8]) -> Option<Vec<u8>> {
        let mut found = tree.get(key);
        loop {
            match found {
                Lookup::Known(value) => return value,
                Lookup::Read { table, file_name, start, end } => {
                    let part = &self.files[file_name][start as usize..end as usize];
                    found = tree.get_with(key, table, part).unwrap();
                }
            }
        }
    }
}

/// A store with its data directory.
struct Store {
    dir: Directory,
    tree: LsmTree,
}

impl Store {
    fn open(mut dir: Directory, opts: LsmOptions) -> Self {
        let tree = dir.open(opts);
        Store { dir, tree }
    }

    fn put(&mut self, key: &[u8], value: &[u8]) {
        self.tree.put(key, value).unwrap();
        self.dir.carry_through(&mut self.tree);
    }

    fn delete(&mut self, key: &[u8]) {
        self.tree.delete(key).unwrap();
        self.dir.carry_through(&mut self.tree);
    }

    fn flush(&mut self) {
        self.tree.flush().unwrap();
        self.dir.carry_through(&mut self.tree);
    }

    fn compact(&mut self) {
        self.tree.compact().unwrap();
        self.dir.carry_through(&mut self.tree);
    }

    fn get(&self, key: &[u8]) -> Option<Vec<u8>> {
        self.dir.get(&self.tree, key)
    }
}

#[test]
fn long_random_sequence_matches_hashmap_oracle_through_flushes_and_compactions() {
    let opts = LsmOptions {
        memtable_max_bytes: 300, // small, so that there are many flushes
        compaction_trigger: 4,
        ..LsmOptions::default()
    };
    let mut store = Store::open(Directory::new(), opts);
    let mut oracle: HashMap<Vec<u8>, Vec<u8>> = HashMap::new();

    let mut rng = StdRng::seed_from_u64(0xC0FFEE_u64);
    let key_space: u32 = 64; // small, so that keys are often overwritten and deleted
    let num_ops: u32 = 8000;

    for step in 0..num_ops {
        let key = format!("key{}", rng.gen_range(0..key_space)).into_bytes();
        let op: u8 = rng.gen_range(0..3);
        match op {
            0 => {
                let value = format!("v{step}").into_bytes();
                store.put(&key, &value);
                oracle.insert(key, value);
            }
            1 => {
                store.delete(&key);
                oracle.remove(&key);
            }
            _ => {
                let expected = oracle.get(&key).cloned();
                let actual = store.get(&key);
                assert_eq!(actual, expected, "mismatch at step {step} for key {key:?}");
            }
        }

        if step % 500 == 499 {
            store.flush();
        }
        if step % 1300 == 1299 {
            store.compact();
        }
    }

    for k in 0..key_space {
        let key = format!("key{k}").into_bytes();
        assert_eq!(
            store.get(&key),
            oracle.get(&key).cloned(),
            "final sweep mismatch for key {key:?}"
        );
    }

    // The same is found when the directory is opened again.
    let store = Store::open(store.dir, LsmOptions::default());
    for k in 0..key_space {
        let key = format!("key{k}").into_bytes();
        assert_eq!(store.get(&key), oracle.get(&key).cloned());
    }
}

#[test]
fn shorter_sequence_with_bloom_filter_disabled_also_matches_oracle() {
    let opts = LsmOptions {
        memtable_max_bytes: 200,
        compaction_trigger: 3,
        bloom_enabled: false,
        ..LsmOptions::default()
    };
    let mut store = Store::open(Directory::new(), opts);
    let mut oracle: HashMap<Vec<u8>, Vec<u8>> = HashMap::new();

    let mut rng = StdRng::seed_from_u64(42);
    let key_space: u32 = 32;
    let num_ops: u32 = 3000;

    for step in 0..num_ops {
        let key = format!("k{}", rng.gen_range(0..key_space)).into_bytes();
        let op: u8 = rng.gen_range(0..3);
        match op {
            0 => {
                let value = format!("v{step}").into_bytes();
                store.put(&key, &value);
                oracle.insert(key, value);
            }
            1 => {
                store.delete(&key);
                oracle.remove(&key);
            }
            _ => {
                assert_eq!(
                    store.get(&key),
                    oracle.get(&key).cloned(),
                    "mismatch at step {step}"
                );
            }
        }
        if step % 400 == 399 {
            store.flush();
        }
    }
}
