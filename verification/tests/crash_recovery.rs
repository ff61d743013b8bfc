//! Whatever point a crash happens at, the directory can be opened again and holds
//! every write that was confirmed.

use lsm_storage_engine::compaction::merge_tables_dropping_tombstones;
use lsm_storage_engine::lsm::{Action, Lookup};
use lsm_storage_engine::names::discover_sstable_files;
use lsm_storage_engine::{LsmOptions, LsmTree, SsTable};
use std::collections::BTreeMap;

/// All of a table file that comes behind its data block.
fn tail(image: &[u8]) -> Vec<u8> {
    let footer = &image[image.len() - 36..];
    let start = SsTable::tail_start(image.len() as u64, footer).unwrap();
    image[start as usize..].to_vec()
}

/// Tells the store that its action has been carried out.
fn report(tree: &mut LsmTree, part: &[u8]) {
    if matches!(tree.pending(), Action::ReadTable { .. }) {
        tree.supply(part).unwrap();
    } else {
        tree.completed().unwrap();
    }
}

/// A data directory in memory.
struct Directory {
    files: BTreeMap<String, Vec<u8>>,
    log: Vec<u8>,
}

impl Directory {
    fn new() -> Self {
        Directory {
            files: BTreeMap::new(),
            log: Vec::new(),
        }
    }

    fn open(&mut self, opts: LsmOptions) -> LsmTree {
        let names: Vec<String> = self.files.keys().cloned().collect();
        let (tables, leftovers) = discover_sstable_files(&names);
        for name in leftovers {
            self.files.remove(&name);
        }
        let tails = tables
            .into_iter()
            .map(|(id, name)| {
                let tail = tail(&self.files[&name]);
                (id, name, tail)
            })
            .collect();
        let mut tree = LsmTree::open(tails, &self.log, opts).unwrap();
        self.carry_through(&mut tree);
        tree
    }

    /// Carries out the pending action. The result is what was read, if anything;
    /// `None` says that there was no action.
    fn act(&mut self, tree: &LsmTree) -> Option<Vec<u8>> {
        match tree.pending() {
            Action::Done => return None,
            Action::AppendWal(bytes) => self.log.extend_from_slice(&bytes),
            Action::TruncateWal(len) => self.log.truncate(len),
            Action::ReadTable { file_name, start, end } => {
                return Some(self.files[file_name][start as usize..end as usize].to_vec());
            }
            Action::WriteTable { file_name, image } => {
                self.files.insert(file_name.clone(), image.clone());
            }
            Action::RemoveTable { file_name } => {
                assert!(self.files.remove(file_name).is_some());
            }
        }
        Some(Vec::new())
    }

    fn carry_through(&mut self, tree: &mut LsmTree) {
        while let Some(part) = self.act(tree) {
            report(tree, &part);
        }
    }

    /// Looks a key up, reading what the store asks for.
    fn get(&self, tree: &LsmTree, key: &[u8]) -> Option<Vec<u8>> {
        let mut found = tree.get(key);
        loop {
            match found {
                Lookup::Known(value) => return value,
                Lookup::Read { table, file_name, start, end } => {
                    let part = &self.files[file_name][start as usize..end as usize];
                    found = tree.get_with(key, table, part).unwrap();
                }
            }
        }
    }
}

impl Directory {
    fn copy(&self) -> Directory {
        Directory {
            files: self.files.clone(),
            log: self.log.clone(),
        }
    }

    fn get_all(&mut self, keys: &[&str]) -> Vec<Option<Vec<u8>>> {
        let tree = self.open(LsmOptions::default());
        keys.iter().map(|k| self.get(&tree, k.as_bytes())).collect()
    }
}

#[test]
fn compaction_partial_cleanup_is_still_safe_at_every_reachable_crash_point() {
    let mut dir = Directory::new();

    // The older table: x = "old-value".
    let t1_path = String::from("000001.sst");
    let (t1, t1_image) = SsTable::build(
        t1_path.clone(),
        1,
        vec![(b"x".to_vec(), Some(b"old-value".to_vec()))],
        4,
        10,
        true,
    )
    .unwrap();
    dir.files.insert(t1_path.clone(), t1_image.clone());
    // The newer table: x deleted.
    let t2_path = String::from("000002.sst");
    let (t2, t2_image) =
        SsTable::build(t2_path.clone(), 2, vec![(b"x".to_vec(), None)], 4, 10, true).unwrap();
    dir.files.insert(t2_path.clone(), t2_image.clone());

    let merged = merge_tables_dropping_tombstones(&[&t2, &t1], &[&t2_image, &t1_image]).unwrap();
    assert!(
        merged.is_empty(),
        "the only key ever written was deleted; nothing should survive the merge"
    );
    let t3_path = String::from("000003.sst");
    let (_, t3_image) = SsTable::build(
        t3_path.clone(),
        3,
        merged.into_iter().map(|(k, v)| (k, Some(v))).collect(),
        4,
        10,
        true,
    )
    .unwrap();
    dir.files.insert(t3_path, t3_image.clone());

    // A crash before any cleanup.
    {
        let tree = dir.open(LsmOptions::default());
        assert_eq!(
            dir.get(&tree, b"x"),
            None,
            "all 3 files present: still correctly deleted"
        );
    }

    // A crash after the oldest file has been removed.
    dir.files.remove(&t1_path);
    {
        let tree = dir.open(LsmOptions::default());
        assert_eq!(
            dir.get(&tree, b"x"),
            None,
            "t1 (stale value) gone, t2 (tombstone) + t3 present: still correctly deleted"
        );
    }

    // A crash after both old files have been removed.
    dir.files.remove(&t2_path);
    {
        let tree = dir.open(LsmOptions::default());
        assert_eq!(
            dir.get(&tree, b"x"),
            None,
            "only t3 present: correctly has no entry for x at all"
        );
    }
}

#[test]
fn every_confirmed_write_survives_a_crash_at_any_action() {
    let opts = LsmOptions {
        memtable_max_bytes: 20,
        compaction_trigger: 3,
        ..LsmOptions::default()
    };
    let keys = ["a", "b", "c", "d", "e"];
    let mut dir = Directory::new();
    let mut tree = dir.open(opts);
    let mut model: BTreeMap<Vec<u8>, Vec<u8>> = BTreeMap::new();
    let look = |model: &BTreeMap<Vec<u8>, Vec<u8>>| -> Vec<Option<Vec<u8>>> {
        keys.iter().map(|k| model.get(k.as_bytes()).cloned()).collect()
    };
    let mut kinds = [0u32; 6];
    for step in 0..200usize {
        let key = keys[(step * 7) % keys.len()];
        let value = format!("value{step}");
        let mut after = model.clone();
        if step % 3 == 0 {
            tree.delete(key.as_bytes()).unwrap();
            after.remove(key.as_bytes());
        } else {
            tree.put(key.as_bytes(), value.as_bytes()).unwrap();
            after.insert(key.as_bytes().to_vec(), value.into_bytes());
        }
        // Nothing of the write has reached the disk yet.
        assert_eq!(dir.copy().get_all(&keys), look(&model));
        // A part of the record has.
        if let Action::AppendWal(bytes) = tree.pending() {
            for n in 0..bytes.len() {
                let mut torn = dir.copy();
                torn.log.extend_from_slice(&bytes[0..n]);
                let len = dir.log.len();
                assert_eq!(torn.get_all(&keys), look(&model));
                assert_eq!(torn.log.len(), len, "the torn record is cut off");
            }
        } else {
            panic!("a write is logged first");
        }
        loop {
            let kind = match tree.pending() {
                Action::Done => 0,
                Action::AppendWal(_) => 1,
                Action::TruncateWal(_) => 2,
                Action::WriteTable { .. } => 3,
                Action::RemoveTable { .. } => 4,
                Action::ReadTable { .. } => 5,
            };
            kinds[kind] += 1;
            if let Action::WriteTable { file_name, image } = tree.pending() {
                // A table that was not completely written has another name.
                let mut cut = dir.copy();
                cut.files
                    .insert(format!("{file_name}.tmp"), image[0..image.len() / 2].to_vec());
                assert_eq!(cut.get_all(&keys), look(&after));
                assert!(cut.files.keys().all(|name| !name.ends_with(".tmp")));
            }
            let part = match dir.act(&tree) {
                None => break,
                Some(part) => part,
            };
            // The action has been carried out, and the store has not heard of it.
            assert_eq!(dir.copy().get_all(&keys), look(&after));
            report(&mut tree, &part);
            for k in keys {
                let found = dir.get(&tree, k.as_bytes());
                assert_eq!(found, after.get(k.as_bytes()).cloned());
            }
        }
        model = after;
    }
    assert!(kinds.iter().all(|n| *n > 0), "{kinds:?}");
}

#[test]
fn writes_go_on_after_a_crash() {
    let opts = LsmOptions {
        memtable_max_bytes: 64,
        ..LsmOptions::default()
    };
    let mut dir = Directory::new();
    for round in 0..20u32 {
        let mut tree = dir.open(opts.clone());
        for i in 0..round {
            let key = format!("k{i}");
            let expected = format!("v{i}-round");
            assert_eq!(dir.get(&tree, key.as_bytes()), Some(expected.into_bytes()));
        }
        tree.put(format!("k{round}").as_bytes(), format!("v{round}-round").as_bytes())
            .unwrap();
        dir.carry_through(&mut tree);
        // A write that is torn by a crash.
        tree.put(b"torn", b"never confirmed").unwrap();
        if let Action::AppendWal(bytes) = tree.pending() {
            dir.log.extend_from_slice(&bytes[0..bytes.len() - 1]);
        }
    }
    let tree = dir.open(opts);
    assert_eq!(dir.get(&tree, b"torn"), None);
}
