use kv_engine::engine::repair::{sst_file_name, FoundFile};
use kv_engine::error::Result;
use kv_engine::manifest::Manifest;
use kv_engine::wal::writer::WALReader;
use kv_engine::{Engine, MetricsSnapshot, Options, RepairReport, Snapshot, WriteBatch};
use std::collections::BTreeMap;

/// What a database leaves on disk.
#[derive(Clone, Default)]
struct Disk {
    manifest: Option<Vec<u8>>,
    tables: BTreeMap<u64, Vec<u8>>,
    log: Option<Vec<u8>>,
}

/// A database over a disk in memory, at a time that the test sets.
struct Db {
    engine: Engine,
    disk: Disk,
    now: u64,
}

impl Db {
    fn open(disk: &Disk) -> Result<Db> {
        Db::open_with_options(disk, Options::default())
    }

    fn open_with_options(disk: &Disk, opts: Options) -> Result<Db> {
        let manifest = match &disk.manifest {
            Some(data) => Manifest::load(Some(data))?,
            None => Manifest::load(None)?,
        };
        let files = disk.tables.iter().map(|(id, data)| (*id, data.clone())).collect();
        let engine = Engine::open_with_options(manifest, files, disk.log.clone(), opts)?;
        let mut disk = disk.clone();
        if let Some(log) = &mut disk.log {
            log.truncate(WALReader::intact_len(log));
        }
        Ok(Db { engine, disk, now: 1000 })
    }

    fn log(&mut self, bytes: &[u8]) {
        self.disk.log.get_or_insert(Vec::new()).extend_from_slice(bytes);
    }

    fn put(&mut self, key: &[u8], value: &[u8]) -> Result<()> {
        let w = self.engine.put(key, value)?;
        self.log(w.log());
        self.engine.apply(w);
        self.flush()
    }

    fn delete(&mut self, key: &[u8]) -> Result<()> {
        let w = self.engine.delete(key)?;
        self.log(w.log());
        self.engine.apply(w);
        self.flush()
    }

    fn put_with_ttl(&mut self, key: &[u8], value: &[u8], secs: u64) -> Result<()> {
        let w = self.engine.put_with_ttl(key, value, secs, self.now)?;
        self.log(w.log());
        self.engine.apply(w);
        self.flush()
    }

    fn write_batch(&mut self, batch: &WriteBatch) -> Result<()> {
        if let Some(w) = self.engine.write_batch(batch)? {
            self.log(w.log());
            self.engine.apply(w);
        }
        self.flush()
    }

    fn get(&mut self, key: &[u8]) -> Result<Option<Vec<u8>>> {
        self.engine.get(key, self.now)
    }

    fn snapshot(&self) -> Snapshot {
        self.engine.snapshot()
    }

    fn get_at(&self, key: &[u8], snap: &Snapshot) -> Result<Option<Vec<u8>>> {
        self.engine.get_at(key, snap, self.now)
    }

    fn scan(&self, start: &[u8], end: &[u8]) -> Result<Vec<(Vec<u8>, Vec<u8>)>> {
        self.engine.scan(start, end, self.now)
    }

    fn prefix_scan(&self, prefix: &[u8]) -> Result<Vec<(Vec<u8>, Vec<u8>)>> {
        self.engine.prefix_scan(prefix, self.now)
    }

    fn metrics(&self) -> MetricsSnapshot {
        self.engine.metrics()
    }

    /// Write frozen data out, then compact the levels that are over capacity.
    fn flush(&mut self) -> Result<()> {
        while let Some(t) = self.engine.begin_flush()? {
            self.disk.tables.insert(t.meta.id, t.file.clone());
            let log = self.engine.finish_flush(t)?;
            self.disk.manifest = Some(self.engine.manifest_file());
            self.disk.log = Some(log);
            let mut from = 0;
            while let Some(level) = self.engine.compaction_due(from) {
                self.compact(level)?;
                from = level + 1;
            }
        }
        Ok(())
    }

    fn compact(&mut self, level: usize) -> Result<()> {
        if let Some(c) = self.engine.begin_compaction(level, self.now)? {
            if let Some(t) = &c.output {
                self.disk.tables.insert(t.meta.id, t.file.clone());
            }
            let obsolete = c.obsolete.clone();
            self.engine.finish_compaction(c)?;
            self.disk.manifest = Some(self.engine.manifest_file());
            for id in obsolete {
                self.disk.tables.remove(&id);
            }
        }
        Ok(())
    }

    fn close(mut self) -> Result<Disk> {
        self.flush()?;
        self.engine.freeze();
        self.flush()?;
        self.disk.manifest = Some(self.engine.manifest_file());
        Ok(self.disk)
    }

    /// Everything in memory is lost.
    fn crash(self) -> Disk {
        self.disk
    }
}

fn repair(disk: &mut Disk) -> RepairReport {
    let files: Vec<FoundFile> = disk
        .tables
        .iter()
        .map(|(id, data)| FoundFile { name: sst_file_name(*id), data: Some(data.clone()) })
        .collect();
    let repaired = Engine::repair(&files);
    disk.manifest = Some(repaired.manifest.save());
    repaired.report
}

fn small() -> Options {
    Options { memtable_size: 256, block_size: 64, ..Options::default() }
}

// One engine, used directly.

#[test]
fn engine_basic_put_get_delete() {
    let mut db = Db::open(&Disk::default()).unwrap();

    db.put(b"name", b"rust").unwrap();
    assert_eq!(db.get(b"name").unwrap(), Some(b"rust".to_vec()));

    db.delete(b"name").unwrap();
    assert_eq!(db.get(b"name").unwrap(), None);

    // Non-existent key.
    assert_eq!(db.get(b"missing").unwrap(), None);
}

#[test]
fn engine_reopen_recovers_from_wal() {
    // First session: write data.
    let disk = {
        let mut db = Db::open(&Disk::default()).unwrap();
        for i in 0..100 {
            let key = format!("key_{:04}", i);
            let val = format!("val_{:04}", i);
            db.put(key.as_bytes(), val.as_bytes()).unwrap();
        }
        db.close().unwrap()
    };

    // Second session: verify data.
    {
        let mut db = Db::open(&disk).unwrap();
        for i in 0..100 {
            let key = format!("key_{:04}", i);
            let val = format!("val_{:04}", i);
            assert_eq!(db.get(key.as_bytes()).unwrap(), Some(val.into_bytes()));
        }
        assert_eq!(db.get(b"nonexistent").unwrap(), None);
    }
}

#[test]
fn overwrite_preserves_latest() {
    let mut db = Db::open(&Disk::default()).unwrap();

    for i in 0..10 {
        let val = format!("v{}", i);
        db.put(b"key", val.as_bytes()).unwrap();
    }

    assert_eq!(db.get(b"key").unwrap(), Some(b"v9".to_vec()));
}

#[test]
fn open_empty_dir_creates_db() {
    let mut db = Db::open(&Disk::default()).unwrap();
    assert_eq!(db.get(b"anything").unwrap(), None);
}

#[test]
fn engine_scan_returns_sorted_range() {
    let mut db = Db::open(&Disk::default()).unwrap();

    for i in 0..100 {
        let key = format!("k{:03}", i);
        db.put(key.as_bytes(), b"v").unwrap();
    }

    let results = db.scan(b"k010", b"k020").unwrap();
    assert_eq!(results.len(), 10);
    for (i, (key, _)) in results.iter().enumerate() {
        assert_eq!(key, format!("k{:03}", i + 10).as_bytes());
    }
}

#[test]
fn scan_excludes_tombstones() {
    let mut db = Db::open(&Disk::default()).unwrap();

    db.put(b"a", b"1").unwrap();
    db.put(b"b", b"2").unwrap();
    db.put(b"c", b"3").unwrap();
    db.delete(b"b").unwrap();

    let results = db.scan(b"a", b"d").unwrap();
    let keys: Vec<_> = results.iter().map(|(k, _)| k.as_slice()).collect();
    assert_eq!(keys, vec![b"a".as_slice(), b"c".as_slice()]);
}

#[test]
fn compaction_triggered_by_l0_threshold() {
    let mut db = Db::open(&Disk::default()).unwrap();

    // Large values fill the memtable, which is written out several times.
    for batch in 0..6 {
        for i in 0..50 {
            let key = format!("b{:01}_k{:04}", batch, i);
            let val = vec![b'v'; 20_000];
            db.put(key.as_bytes(), &val).unwrap();
        }
    }

    // After multiple flushes, data should still be readable.
    for batch in 0..6 {
        for i in 0..50 {
            let key = format!("b{:01}_k{:04}", batch, i);
            let v = db.get(key.as_bytes()).unwrap();
            assert!(v.is_some(), "data lost for key {}", key);
            assert_eq!(v.unwrap().len(), 20_000);
        }
    }
}

#[test]
fn engine_writebatch_atomicity() {
    let mut db = Db::open(&Disk::default()).unwrap();

    let mut batch = WriteBatch::new();
    batch.put(b"a".to_vec(), b"1".to_vec());
    batch.put(b"b".to_vec(), b"2".to_vec());
    batch.put(b"c".to_vec(), b"3".to_vec());
    db.write_batch(&batch).unwrap();

    assert_eq!(db.get(b"a").unwrap(), Some(b"1".to_vec()));
    assert_eq!(db.get(b"b").unwrap(), Some(b"2".to_vec()));
    assert_eq!(db.get(b"c").unwrap(), Some(b"3".to_vec()));
}

#[test]
fn writebatch_with_delete() {
    let mut db = Db::open(&Disk::default()).unwrap();

    db.put(b"key", b"val").unwrap();

    let mut batch = WriteBatch::new();
    batch.put(b"new_key".to_vec(), b"new_val".to_vec());
    batch.delete(b"key".to_vec());
    db.write_batch(&batch).unwrap();

    assert_eq!(db.get(b"key").unwrap(), None);
    assert_eq!(db.get(b"new_key").unwrap(), Some(b"new_val".to_vec()));
}

#[test]
fn engine_snapshot_read_consistency() {
    let mut db = Db::open(&Disk::default()).unwrap();

    db.put(b"a", b"1").unwrap();
    db.put(b"b", b"2").unwrap();
    let snap = db.snapshot();

    // New write after snapshot.
    db.put(b"c", b"3").unwrap();

    // Snapshot sees a and b (written before), but not c.
    assert_eq!(db.get_at(b"a", &snap).unwrap(), Some(b"1".to_vec()));
    assert_eq!(db.get_at(b"b", &snap).unwrap(), Some(b"2".to_vec()));
    assert_eq!(db.get_at(b"c", &snap).unwrap(), None);

    // Current get sees all three.
    assert_eq!(db.get(b"c").unwrap(), Some(b"3".to_vec()));
}

#[test]
fn prefix_scan_returns_matching_keys() {
    let mut db = Db::open(&Disk::default()).unwrap();

    db.put(b"user:1", b"alice").unwrap();
    db.put(b"user:2", b"bob").unwrap();
    db.put(b"user:3", b"charlie").unwrap();
    db.put(b"post:1", b"hello").unwrap();

    let results = db.prefix_scan(b"user:").unwrap();
    assert_eq!(results.len(), 3);
    for (k, _) in &results {
        assert!(k.starts_with(b"user:"));
    }
}

#[test]
fn put_with_ttl_expires() {
    let mut db = Db::open(&Disk::default()).unwrap();

    db.put_with_ttl(b"temp", b"data", 1)
        .unwrap();

    // Should be readable immediately.
    assert_eq!(db.get(b"temp").unwrap(), Some(b"data".to_vec()));

    // After 2 seconds, should be expired.
    db.now += 2;
    assert_eq!(db.get(b"temp").unwrap(), None);
}

#[test]
fn repair_rebuilds_manifest() {
    // Create a database with some data and flush to SST.
    let mut disk = {
        let mut db = Db::open(&Disk::default()).unwrap();
        for i in 0..100 {
            let key = format!("k{:04}", i);
            let val = format!("v{}", i);
            db.put(key.as_bytes(), val.as_bytes()).unwrap();
        }
        db.close().unwrap()
    };

    // Delete the manifest.
    disk.manifest = None;

    // Repair should rebuild it.
    let report = repair(&mut disk);
    assert!(report.recovered_ssts > 0 || report.corrupted_files == 0);

    // Reopen and verify data is still accessible.
    let mut db = Db::open(&disk).unwrap();
    let mut readable = 0;
    for i in 0..100 {
        let key = format!("k{:04}", i);
        if db.get(key.as_bytes()).unwrap().is_some() {
            readable += 1;
        }
    }
    assert!(readable > 0);
}

#[test]
fn db_open_with_options() {
    let opts = Options {
        memtable_size: 1024, // small for testing
        block_size: 64,
        ..Default::default()
    };
    let mut db = Db::open_with_options(&Disk::default(), opts).unwrap();
    db.put(b"key", b"val").unwrap();
    assert_eq!(db.get(b"key").unwrap(), Some(b"val".to_vec()));
}

#[test]
fn db_metrics_tracking() {
    let mut db = Db::open(&Disk::default()).unwrap();

    db.put(b"a", b"1").unwrap();
    db.put(b"b", b"2").unwrap();
    db.get(b"a").unwrap();
    db.delete(b"b").unwrap();

    let m = db.metrics();
    assert_eq!(m.writes, 2);
    assert_eq!(m.reads, 1);
    assert_eq!(m.deletes, 1);
}

// The whole database.

#[test]
fn integration_basic_put_get_delete() {
    let mut db = Db::open(&Disk::default()).unwrap();

    db.put(b"name", b"rust").unwrap();
    assert_eq!(db.get(b"name").unwrap(), Some(b"rust".to_vec()));

    db.delete(b"name").unwrap();
    assert_eq!(db.get(b"name").unwrap(), None);
}

#[test]
fn integration_reopen_recovers_from_wal() {
    let disk = {
        let mut db = Db::open(&Disk::default()).unwrap();
        for i in 0..1000 {
            let key = format!("key_{:04}", i);
            let val = format!("val_{:04}", i);
            db.put(key.as_bytes(), val.as_bytes()).unwrap();
        }
        db.close().unwrap()
    };

    {
        let mut db = Db::open(&disk).unwrap();
        assert_eq!(
            db.get(b"key_0500").unwrap(),
            Some(b"val_0500".to_vec())
        );
        assert_eq!(db.get(b"nonexistent").unwrap(), None);
    }
}

#[test]
fn integration_scan_returns_sorted_range() {
    let mut db = Db::open(&Disk::default()).unwrap();

    for i in 0..100 {
        db.put(format!("k{:03}", i).as_bytes(), b"v").unwrap();
    }

    let results = db.scan(b"k010", b"k020").unwrap();
    assert_eq!(results.len(), 10);
    for (i, (key, _)) in results.iter().enumerate() {
        assert_eq!(key, format!("k{:03}", i + 10).as_bytes());
    }
}

#[test]
fn integration_writebatch_atomicity() {
    let mut db = Db::open(&Disk::default()).unwrap();

    let mut batch = WriteBatch::new();
    batch.put(b"a".to_vec(), b"1".to_vec());
    batch.put(b"b".to_vec(), b"2".to_vec());
    batch.put(b"c".to_vec(), b"3".to_vec());
    db.write_batch(&batch).unwrap();

    assert_eq!(db.get(b"a").unwrap(), Some(b"1".to_vec()));
    assert_eq!(db.get(b"b").unwrap(), Some(b"2".to_vec()));
    assert_eq!(db.get(b"c").unwrap(), Some(b"3".to_vec()));
}

#[test]
fn integration_snapshot_read_consistency() {
    let mut db = Db::open(&Disk::default()).unwrap();

    db.put(b"a", b"1").unwrap();
    db.put(b"b", b"2").unwrap();
    let snap = db.snapshot();

    db.put(b"c", b"3").unwrap();

    // Snapshot sees a and b but not c.
    assert_eq!(db.get_at(b"a", &snap).unwrap(), Some(b"1".to_vec()));
    assert_eq!(db.get_at(b"b", &snap).unwrap(), Some(b"2".to_vec()));
    assert_eq!(db.get_at(b"c", &snap).unwrap(), None);

    // Current sees all.
    assert_eq!(db.get(b"c").unwrap(), Some(b"3".to_vec()));
}

#[test]
fn overwrite_and_compaction_preserves_latest() {
    let opts = Options {
        memtable_size: 256, // tiny, fast flush
        ..Default::default()
    };
    let mut db = Db::open_with_options(&Disk::default(), opts).unwrap();

    for i in 0..1000 {
        db.put(b"key", format!("v{}", i).as_bytes()).unwrap();
    }

    assert_eq!(db.get(b"key").unwrap(), Some(b"v999".to_vec()));
}

// Generated histories.

struct Dice(u64);

impl Dice {
    fn roll(&mut self, sides: u64) -> u64 {
        self.0 = self.0.wrapping_mul(6364136223846793005).wrapping_add(1442695040888963407);
        (self.0 >> 33) % sides
    }

    fn bytes(&mut self, min: u64, max: u64) -> Vec<u8> {
        let len = min + self.roll(max - min);
        (0..len).map(|_| self.roll(256) as u8).collect()
    }

    fn ops(&mut self) -> Vec<(Vec<u8>, Vec<u8>)> {
        let count = 1 + self.roll(49);
        (0..count).map(|_| (self.bytes(1, 16), self.bytes(0, 64))).collect()
    }
}

#[test]
fn memtable_never_loses_writes() {
    let mut dice = Dice(1);
    for _ in 0..50 {
        let ops = dice.ops();
        let mut db = Db::open(&Disk::default()).unwrap();

        let mut expected = BTreeMap::new();
        for (k, v) in &ops {
            db.put(k, v).unwrap();
            expected.insert(k.clone(), v.clone());
        }

        for (k, v) in &expected {
            assert_eq!(db.get(k).unwrap(), Some(v.clone()));
        }
    }
}

#[test]
fn delete_removes_key() {
    let mut dice = Dice(2);
    for _ in 0..50 {
        let ops = dice.ops();
        let mut db = Db::open(&Disk::default()).unwrap();

        for (k, v) in &ops {
            db.put(k, v).unwrap();
        }
        for (k, _) in &ops {
            db.delete(k).unwrap();
            assert_eq!(db.get(k).unwrap(), None);
        }
    }
}

#[test]
fn reopen_preserves_last_write() {
    let mut dice = Dice(3);
    for _ in 0..50 {
        let ops = dice.ops();
        let mut expected = BTreeMap::new();
        let disk = {
            let mut db = Db::open(&Disk::default()).unwrap();
            for (k, v) in &ops {
                db.put(k, v).unwrap();
                expected.insert(k.clone(), v.clone());
            }
            db.close().unwrap()
        };

        {
            let mut db = Db::open(&disk).unwrap();
            for (k, v) in &expected {
                assert_eq!(db.get(k).unwrap(), Some(v.clone()));
            }
        }
    }
}

/// Random puts, deletes, batches, crashes and reopenings, with flushes and
/// compactions in between: the database keeps to a sorted map.
#[test]
fn database_agrees_with_a_sorted_map() {
    let mut dice = Dice(4);
    let mut model: BTreeMap<Vec<u8>, Vec<u8>> = BTreeMap::new();
    let mut db = Db::open_with_options(&Disk::default(), small()).unwrap();
    for step in 0..1500 {
        let key = format!("key_{:02}", dice.roll(60)).into_bytes();
        match dice.roll(20) {
            0..=9 => {
                let value = dice.bytes(0, 40);
                db.put(&key, &value).unwrap();
                model.insert(key, value);
            }
            10..=14 => {
                db.delete(&key).unwrap();
                model.remove(&key);
            }
            15 | 16 => {
                let mut batch = WriteBatch::new();
                let other = format!("key_{:02}", dice.roll(60)).into_bytes();
                let value = dice.bytes(0, 10);
                batch.delete(other.clone());
                batch.put(key.clone(), value.clone());
                db.write_batch(&batch).unwrap();
                model.remove(&other);
                model.insert(key, value);
            }
            17 => {
                let disk = db.crash();
                db = Db::open_with_options(&disk, small()).unwrap();
            }
            18 => {
                let disk = db.close().unwrap();
                db = Db::open_with_options(&disk, small()).unwrap();
            }
            _ => {
                assert_eq!(db.get(&key).unwrap(), model.get(&key).cloned());
            }
        }
        if step % 100 == 0 {
            let all: Vec<(Vec<u8>, Vec<u8>)> = model.clone().into_iter().collect();
            assert_eq!(db.scan(b"", b"\xff").unwrap(), all);
        }
    }
    let all: Vec<(Vec<u8>, Vec<u8>)> = model.clone().into_iter().collect();
    assert_eq!(db.prefix_scan(b"").unwrap(), all);
    assert_eq!(db.prefix_scan(b"key_1").unwrap().len(), model.keys().filter(|k| k.starts_with(b"key_1")).count());
    assert!(db.metrics().flushes > 0 || db.disk.tables.len() > 0);
}

#[test]
fn snapshot_reads_as_the_database_was() {
    let mut db = Db::open_with_options(&Disk::default(), small()).unwrap();
    db.put(b"kept", b"1").unwrap();
    db.put(b"overwritten", b"old").unwrap();
    db.put(b"deleted", b"there").unwrap();
    db.put_with_ttl(b"timed", b"soon gone", 5).unwrap();
    let snap = db.snapshot();
    db.put(b"overwritten", b"new").unwrap();
    db.delete(b"deleted").unwrap();
    db.put(b"later", b"x").unwrap();
    let second = db.snapshot();
    // Flush and compact away everything that the first snapshot sees.
    for round in 0..40 {
        db.put(b"overwritten", format!("newer {}", round).as_bytes()).unwrap();
        db.put(b"kept", b"2").unwrap();
    }
    assert!(db.metrics().compactions > 0);
    assert_eq!(db.get_at(b"kept", &snap).unwrap(), Some(b"1".to_vec()));
    assert_eq!(db.get_at(b"overwritten", &snap).unwrap(), Some(b"old".to_vec()));
    assert_eq!(db.get_at(b"deleted", &snap).unwrap(), Some(b"there".to_vec()));
    assert_eq!(db.get_at(b"timed", &snap).unwrap(), Some(b"soon gone".to_vec()));
    assert_eq!(db.get_at(b"later", &snap).unwrap(), None);
    assert_eq!(db.get_at(b"overwritten", &second).unwrap(), Some(b"new".to_vec()));
    assert_eq!(db.get_at(b"deleted", &second).unwrap(), None);
    assert_eq!(db.get_at(b"later", &second).unwrap(), Some(b"x".to_vec()));
    assert_eq!(db.get(b"kept").unwrap(), Some(b"2".to_vec()));
    db.now += 5;
    assert_eq!(db.get_at(b"timed", &snap).unwrap(), None);
}

#[test]
fn values_that_look_like_marks_are_kept() {
    let mut db = Db::open_with_options(&Disk::default(), small()).unwrap();
    let values: Vec<Vec<u8>> = vec![vec![], vec![0], vec![1], vec![0, 0], vec![1; 9], vec![1; 20], vec![0; 30]];
    for (i, v) in values.iter().enumerate() {
        db.put(&[i as u8], v).unwrap();
    }
    let disk = db.close().unwrap();
    let mut db = Db::open(&disk).unwrap();
    for (i, v) in values.iter().enumerate() {
        assert_eq!(db.get(&[i as u8]).unwrap(), Some(v.clone()));
    }
}

#[test]
fn torn_batch_is_not_there_at_all() {
    let mut db = Db::open(&Disk::default()).unwrap();
    db.put(b"a", b"old").unwrap();
    let before = db.disk.log.clone().unwrap().len();
    let mut batch = WriteBatch::new();
    batch.put(b"a".to_vec(), b"new".to_vec());
    batch.put(b"b".to_vec(), b"2".to_vec());
    batch.delete(b"c".to_vec());
    db.write_batch(&batch).unwrap();
    let disk = db.crash();
    let log = disk.log.clone().unwrap();
    for len in before..=log.len() {
        let torn = Disk { log: Some(log[..len].to_vec()), ..disk.clone() };
        let mut db = Db::open(&torn).unwrap();
        if len == log.len() {
            assert_eq!(db.get(b"a").unwrap(), Some(b"new".to_vec()));
            assert_eq!(db.get(b"b").unwrap(), Some(b"2".to_vec()));
        } else {
            assert_eq!(db.get(b"a").unwrap(), Some(b"old".to_vec()));
            assert_eq!(db.get(b"b").unwrap(), None);
        }
    }
}

#[test]
fn writes_after_a_torn_log_are_kept() {
    let mut db = Db::open(&Disk::default()).unwrap();
    db.put(b"a", b"1").unwrap();
    db.put(b"torn", b"2").unwrap();
    let mut disk = db.crash();
    let mut log = disk.log.clone().unwrap();
    log.truncate(log.len() - 1);
    disk.log = Some(log);
    let mut db = Db::open(&disk).unwrap();
    assert_eq!(db.get(b"torn").unwrap(), None);
    db.put(b"b", b"3").unwrap();
    let mut db = Db::open(&db.crash()).unwrap();
    assert_eq!(db.get(b"a").unwrap(), Some(b"1".to_vec()));
    assert_eq!(db.get(b"b").unwrap(), Some(b"3".to_vec()));
}

fn refused<T>(r: Result<T>, text: &str) {
    match r {
        Ok(_) => panic!("accepted"),
        Err(e) => assert_eq!(e.to_string(), text),
    }
}

#[test]
fn keys_that_no_table_can_hold_stay_in_memory_and_in_the_log() {
    let mut db = Db::open(&Disk::default()).unwrap();
    let long = vec![b'k'; 65536];
    db.put(b"a", b"1").unwrap();
    db.put(&long, b"v").unwrap();
    assert_eq!(db.get(&long).unwrap(), Some(b"v".to_vec()));
    assert!(db.engine.freeze());
    refused(db.flush(), "invalid argument: key too long");
    assert!(db.disk.tables.is_empty());
    assert_eq!(db.get(&long).unwrap(), Some(b"v".to_vec()));
    assert_eq!(db.get(b"a").unwrap(), Some(b"1".to_vec()));

    let disk = db.disk.clone();
    let mut db = Db::open(&disk).unwrap();
    assert_eq!(db.get(&long).unwrap(), Some(b"v".to_vec()));
    assert_eq!(db.get(b"a").unwrap(), Some(b"1".to_vec()));
    let mut batch = WriteBatch::new();
    batch.put(b"a".to_vec(), b"2".to_vec());
    batch.delete(long.clone());
    db.write_batch(&batch).unwrap();
    assert_eq!(db.get(&long).unwrap(), None);
    db.put_with_ttl(&long, b"w", 5).unwrap();
    assert_eq!(db.get(&long).unwrap(), Some(b"w".to_vec()));
    db.delete(&long).unwrap();
    assert_eq!(db.get(&long).unwrap(), None);
    assert_eq!(db.get(b"a").unwrap(), Some(b"2".to_vec()));
}

#[test]
fn the_longest_keys_that_a_table_can_hold_are_flushed() {
    let mut db = Db::open(&Disk::default()).unwrap();
    let longest = vec![b'k'; 65535];
    db.put(&longest, b"v").unwrap();
    db.put(b"a", b"1").unwrap();
    let disk = db.close().unwrap();
    let mut db = Db::open(&disk).unwrap();
    assert_eq!(db.get(&longest).unwrap(), Some(b"v".to_vec()));
    assert_eq!(db.get(b"a").unwrap(), Some(b"1".to_vec()));
}

#[test]
fn empty_batch_writes_nothing() {
    let mut db = Db::open(&Disk::default()).unwrap();
    assert!(db.engine.write_batch(&WriteBatch::new()).unwrap().is_none());
    db.write_batch(&WriteBatch::new()).unwrap();
    assert_eq!(db.disk.log, None);
}

#[test]
fn expiry_is_exact_and_survives_reopening() {
    let mut db = Db::open(&Disk::default()).unwrap();
    db.put_with_ttl(b"k", b"v", 10).unwrap();
    let disk = db.close().unwrap();
    let mut db = Db::open(&disk).unwrap();
    db.now = 1009;
    assert_eq!(db.get(b"k").unwrap(), Some(b"v".to_vec()));
    assert_eq!(db.scan(b"", b"z").unwrap().len(), 1);
    db.now = 1010;
    assert_eq!(db.get(b"k").unwrap(), None);
    assert!(db.scan(b"", b"z").unwrap().is_empty());
}

#[test]
fn the_first_and_the_last_expiry_are_exact() {
    let mut db = Db::open(&Disk::default()).unwrap();
    db.put_with_ttl(b"last", b"v", u64::MAX - db.now).unwrap();
    db.now = u64::MAX - 1;
    assert_eq!(db.get(b"last").unwrap(), Some(b"v".to_vec()));
    db.now = u64::MAX;
    assert_eq!(db.get(b"last").unwrap(), None);
    db.now = 0;
    db.put_with_ttl(b"first", b"v", 0).unwrap();
    assert_eq!(db.get(b"first").unwrap(), None);
    db.put_with_ttl(b"first", b"v", 1).unwrap();
    assert_eq!(db.get(b"first").unwrap(), Some(b"v".to_vec()));
    db.now = 1;
    assert_eq!(db.get(b"first").unwrap(), None);
}

#[test]
fn compaction_drops_tombstones_and_expired_values() {
    let mut db = Db::open_with_options(&Disk::default(), small()).unwrap();
    for i in 0..8 {
        db.put(format!("k{}", i).as_bytes(), b"value").unwrap();
        db.put_with_ttl(format!("t{}", i).as_bytes(), b"value", 5).unwrap();
        db.delete(format!("k{}", i).as_bytes()).unwrap();
    }
    db.engine.freeze();
    db.flush().unwrap();
    db.now += 6;
    db.compact(0).unwrap();
    db.compact(1).unwrap();
    db.compact(2).unwrap();
    assert!(db.scan(b"", b"z").unwrap().is_empty());
    assert!(db.disk.tables.is_empty());
    assert!(db.metrics().compactions > 0);
    assert_eq!(db.get(b"k1").unwrap(), None);
}

#[test]
fn levels_are_compacted_when_over_capacity() {
    let mut db = Db::open_with_options(&Disk::default(), small()).unwrap();
    for i in 0..400 {
        db.put(format!("key_{:03}", i % 90).as_bytes(), format!("{}", i).as_bytes()).unwrap();
    }
    let manifest = Manifest::load(db.disk.manifest.as_deref()).unwrap();
    assert!(manifest.ssts_at_level(0).len() < 4);
    assert!(manifest.ssts_at_level(1).len() + manifest.ssts_at_level(2).len() > 0);
    assert_eq!(manifest.total_ssts(), db.disk.tables.len());
    for i in 310..400 {
        assert_eq!(
            db.get(format!("key_{:03}", i % 90).as_bytes()).unwrap(),
            Some(format!("{}", i).into_bytes())
        );
    }
}

#[test]
fn prefix_scan_is_exact_at_the_byte_limits() {
    let mut db = Db::open(&Disk::default()).unwrap();
    for key in [&b"a"[..], b"a\xff", b"a\xff\xff", b"a\xff\x00", b"b", b"b\x00", b"\xff", b"\xff\xff", b"\xff\xffz"] {
        db.put(key, b"v").unwrap();
    }
    let keys = |found: Vec<(Vec<u8>, Vec<u8>)>| found.into_iter().map(|(k, _)| k).collect::<Vec<_>>();
    assert_eq!(keys(db.prefix_scan(b"a\xff").unwrap()), vec![b"a\xff".to_vec(), b"a\xff\x00".to_vec(), b"a\xff\xff".to_vec()]);
    assert_eq!(keys(db.prefix_scan(b"b").unwrap()), vec![b"b".to_vec(), b"b\x00".to_vec()]);
    assert_eq!(keys(db.prefix_scan(b"\xff\xff").unwrap()), vec![b"\xff\xff".to_vec(), b"\xff\xffz".to_vec()]);
    assert_eq!(db.prefix_scan(b"").unwrap().len(), 9);
}

#[test]
fn damaged_log_is_reported() {
    let mut db = Db::open(&Disk::default()).unwrap();
    db.put(b"a", b"1").unwrap();
    db.put(b"b", b"2").unwrap();
    let mut disk = db.crash();
    let mut log = disk.log.clone().unwrap();
    log[9] ^= 0x40;
    disk.log = Some(log);
    match Db::open(&disk) {
        Err(e) => assert!(e.to_string().starts_with("checksum mismatch: ")),
        Ok(_) => panic!("opened"),
    }
}

#[test]
fn missing_table_files_are_skipped_when_opening() {
    let mut db = Db::open(&Disk::default()).unwrap();
    db.put(b"a", b"1").unwrap();
    let mut disk = db.close().unwrap();
    assert_eq!(disk.tables.len(), 1);
    disk.tables.clear();
    let mut db = Db::open(&disk).unwrap();
    assert_eq!(db.get(b"a").unwrap(), None);
}

#[test]
fn later_values_win_after_repair() {
    let mut disk = Disk::default();
    for round in 0..3 {
        let mut db = Db::open(&disk).unwrap();
        db.put(b"k", format!("{}", round).as_bytes()).unwrap();
        disk = db.close().unwrap();
    }
    assert_eq!(disk.tables.len(), 3);
    let report = repair(&mut disk);
    assert_eq!(report.recovered_ssts, 3);
    assert_eq!(report.corrupted_files, 0);
    assert_eq!(Db::open(&disk).unwrap().get(b"k").unwrap(), Some(b"2".to_vec()));
}

#[test]
fn options_are_kept_and_have_their_defaults() {
    let opts = Options::default();
    assert_eq!(opts.memtable_size, 4 * 1024 * 1024);
    assert_eq!(opts.block_size, 4096);
    assert_eq!(opts.l0_compaction_threshold, 4);
    assert!(opts.sync_wal);
    assert_eq!(opts.max_levels, 7);
    assert_eq!(opts.bloom_filter_bits_per_key, 10);
    assert_eq!(opts.block_cache_size, 8 * 1024 * 1024);
    let mut db = Db::open_with_options(&Disk::default(), Options { sync_wal: false, ..opts }).unwrap();
    assert!(!db.engine.options().sync_wal);
    assert!(!db.engine.put(b"a", b"1").unwrap().sync());
    let mut db = Db::open(&Disk::default()).unwrap();
    assert!(db.engine.put(b"a", b"1").unwrap().sync());
}

#[test]
fn level_capacities() {
    let opts = Options::default();
    assert_eq!(opts.level_capacity(0), Some(4));
    assert_eq!(opts.level_capacity(1), Some(40));
    assert_eq!(opts.level_capacity(2), Some(400));
    assert_eq!(opts.level_capacity(1000), None);
    assert_eq!(Options { l0_compaction_threshold: 0, ..Options::default() }.level_capacity(1000), Some(0));
}
