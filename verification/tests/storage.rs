//! The engine, the pool and the cache on disks held in memory: everything they
//! decide is the library's, what is left here is moving bytes.
use std::cell::{Cell, RefCell};
use std::collections::{BTreeMap, BTreeSet};
use std::rc::Rc;

use ozd::body::{PutAction, PutEvent, PutPass};
use ozd::cache::{self, CacheConfig, TierAction, TierEvent, TierRead};
use ozd::collect::{EvictAction, EvictEvent, EvictPass, GcAction, GcEvent, GcPass};
use ozd::diskslow::{DiskSlowConfig, DiskSlowMonitor};
use ozd::domain::{
    BlockKey, Capacity, DomainError, DomainResult, GcReport, ScrubStep, ShardId, ShardStatus,
    StructureReport,
};
use ozd::ec_pool::{acquire_all, heal_workers, release_all, EcAction, EcEvent, EcRead};
use ozd::engine::{
    self, ballast_chunk, ensure_ballast, gc_victim, get_on_lookup, get_on_read, oldest_segment,
    referenced_segments, scrub_begin, scrub_note, seg_dir_of, sealed_segments, BallastPlan,
    EngineConfig, GetAction, GetState, BALLAST_SEED,
};
use ozd::erasure::{ec_encode, EcConfig};
use ozd::heal::HealPriority;
use ozd::index::{
    self, bump_in, discard_key, encode_addr, move_row, put_addr, put_inline, AddrEntry,
    IndexUpdate, Lookup, RowChange,
};
use ozd::latency::RollingP99;
use ozd::listing;
use ozd::metrics::OpsMetrics;
use ozd::migrate::{MigAction, MigEvent, MigrateOutcome, Migration};
use ozd::piece::{encode_piece_header, parse_piece_header, PieceHeader, EC_HEADER_LEN};
use ozd::placement::{self, placement_hash, Candidate};
use ozd::pool::{
    ask_order, delete_keys, hedge_threshold, merge_lists, plan_put, put_width, uses_outboard,
    Pool as PoolState, PoolConfig, PutRun, ReadAction, ReadEvent, ReadRun,
};
use ozd::ports::{BlockStore, PlacementPolicy};
use ozd::probe::{Next, Probe};
use ozd::repair::{Repair, RepairAction, RepairEvent};
use ozd::segment::{
    choose_active, encode_meta, meta_path, parse_meta, seg_path, AppendAction, AppendPhase,
    RecordAddr, SegmentWriter,
};
use ozd::store::recovered_rows;
use ozd::throttle::{BgThrottle, BgThrottleConfig};
use ozd::verified::{make_outboard, ob_key, verified_slice, ObConfig};
use ozd::walk::{is_healed, settle_batch, take_batch, MigrateReport, ResilverReport, ScrubReport, WalkNext};

const MAIN: &str = "main/seg";
const SPARE: &str = "spare/seg";
const BALLAST: &str = "main/ballast.ozd";

/// What lies on a disk and outlives the engine.
#[derive(Default)]
struct Disk {
    files: BTreeMap<String, Vec<u8>>,
    /// directories in which nothing can be created
    read_only: BTreeSet<&'static str>,
    addr: BTreeMap<Vec<u8>, Vec<u8>>,
    inline: BTreeMap<Vec<u8>, Vec<u8>>,
    meta: BTreeMap<String, u64>,
    cursors: BTreeMap<String, Vec<u8>>,
}

type Shared = Rc<RefCell<Disk>>;

fn disk() -> Shared {
    Rc::new(RefCell::new(Disk::default()))
}

fn disks(n: usize) -> Vec<Shared> {
    (0..n).map(|_| disk()).collect()
}

/// Flips one byte of a file.
fn rot(d: &Shared, path: &str, at: usize) {
    d.borrow_mut().files.get_mut(path).unwrap()[at] ^= 0xFF;
}

/// Loses every segment of a disk.
fn lose_segments(d: &Shared) {
    d.borrow_mut().files.retain(|p, _| !p.starts_with(MAIN));
}

struct DiskEngine {
    cfg: EngineConfig,
    disk: Shared,
    writer: RefCell<SegmentWriter>,
    ballast: Cell<bool>,
    passes: Cell<u32>,
}

impl Disk {
    fn write_meta(&mut self, dir: &'static str, seg_id: u32, flush_offset: u64) -> bool {
        if self.read_only.contains(dir) {
            return false;
        }
        self.files.insert(meta_path(dir), encode_meta(seg_id, flush_offset));
        true
    }

    fn open_segment(&mut self, dir: &'static str, seg_id: u32) -> bool {
        if self.read_only.contains(dir) {
            return false;
        }
        self.files.entry(seg_path(dir, seg_id)).or_default();
        self.write_meta(dir, seg_id, 0)
    }

    fn apply(&mut self, key: &[u8], u: IndexUpdate) {
        match u.addr {
            RowChange::Keep => {}
            RowChange::Remove => {
                self.addr.remove(key);
            }
            RowChange::Insert(row) => {
                self.addr.insert(key.to_vec(), row);
            }
        }
        match u.inline {
            RowChange::Keep => {}
            RowChange::Remove => {
                self.inline.remove(key);
            }
            RowChange::Insert(body) => {
                self.inline.insert(key.to_vec(), body);
            }
        }
        if let Some((seg, n)) = u.bump {
            self.bump(seg, n);
        }
    }

    fn bump(&mut self, seg: u32, n: u64) {
        let cur = self.meta.get(&discard_key(seg)).copied();
        self.meta.insert(discard_key(seg), bump_in(cur, n));
    }

    fn lookup(&self, key: &BlockKey) -> DomainResult<Lookup> {
        index::lookup(
            self.inline.get(key.as_bytes()).cloned(),
            self.addr.get(key.as_bytes()).cloned(),
        )
    }
}

impl DiskEngine {
    fn open(cfg: EngineConfig, disk: Shared) -> DiskEngine {
        let (writer, ballast) = {
            let mut d = disk.borrow_mut();
            let meta = |d: &Disk, dir| d.files.get(&meta_path(dir)).and_then(|b| parse_meta(b));
            let spare_meta = cfg.failover_path.as_ref().and_then(|_| meta(&d, SPARE));
            let active = choose_active(meta(&d, MAIN), spare_meta);
            let dir = if active.on_failover { SPARE } else { MAIN };
            let path = seg_path(dir, active.seg_id);
            let file = d.files.entry(path.clone()).or_default();
            let from = (active.flush_offset as usize).min(file.len());
            let tail = file[from..].to_vec();
            let opened = SegmentWriter::open(
                &active,
                &tail,
                cfg.failover_path.is_some(),
                cfg.segment_max_size,
                cfg.fsync_items,
                cfg.fadvise_dontneed,
            );
            if let Some(n) = opened.truncate_to {
                file.truncate(n as usize);
            }
            d.addr.extend(recovered_rows(&opened.recovered));
            let there = d.files.get(BALLAST).map(|f| f.len() as u64);
            let ballast = match ensure_ballast(cfg.ballast_bytes, there, 1 << 40) {
                BallastPlan::Remove => {
                    d.files.remove(BALLAST);
                    false
                }
                BallastPlan::Keep => true,
                BallastPlan::NoRoom => {
                    d.files.remove(BALLAST);
                    false
                }
                BallastPlan::Create => {
                    let (mut chunk, _) =
                        ballast_chunk(BALLAST_SEED, cfg.ballast_bytes.div_ceil(8) as usize);
                    chunk.truncate(cfg.ballast_bytes as usize);
                    d.files.insert(BALLAST.to_string(), chunk);
                    true
                }
            };
            (opened.writer, ballast)
        };
        DiskEngine {
            cfg,
            disk,
            writer: RefCell::new(writer),
            ballast: Cell::new(ballast),
            passes: Cell::new(0),
        }
    }

    fn dir(w: &SegmentWriter) -> &'static str {
        if w.failed_over {
            SPARE
        } else {
            MAIN
        }
    }

    fn append(
        &self,
        key: &[u8],
        stored: &[u8],
        logical_len: u32,
        flags: u16,
    ) -> DomainResult<(RecordAddr, u32)> {
        let mut w = self.writer.borrow_mut();
        let mut d = self.disk.borrow_mut();
        let mut phase = AppendPhase::Start;
        let mut ok = true;
        let mut placed = None;
        let n = (20 + key.len() + stored.len()) as u64;
        loop {
            let (p, a) = w.append_with_flags(phase, ok, n);
            phase = p;
            ok = match a {
                AppendAction::Sync => true,
                AppendAction::WriteMeta { seg_id, flush_offset, .. } => {
                    d.write_meta(Self::dir(&w), seg_id, flush_offset)
                }
                AppendAction::OpenPrimary { seg_id, .. } => d.open_segment(MAIN, seg_id),
                AppendAction::OpenFailover { seg_id } => d.open_segment(SPARE, seg_id),
                AppendAction::Write => {
                    let (bytes, addr, crc) = w.write_record(key, stored, logical_len, flags).unwrap();
                    assert_eq!(bytes.len() as u64, n);
                    placed = Some((addr, crc));
                    d.files.entry(seg_path(Self::dir(&w), w.seg_id)).or_default().extend(bytes);
                    true
                }
                AppendAction::Finish => return Ok(placed.unwrap()),
                AppendAction::Fail => return Err(DomainError::Io("append".to_string())),
            };
        }
    }

    /// Where a segment lies.
    fn path_of(&self, seg_id: u32) -> String {
        let d = self.disk.borrow();
        let spare = self
            .cfg
            .failover_path
            .as_ref()
            .map(|_| d.files.contains_key(&seg_path(SPARE, seg_id)));
        let main = d.files.contains_key(&seg_path(MAIN, seg_id));
        seg_path(if seg_dir_of(main, spare) { SPARE } else { MAIN }, seg_id)
    }

    fn sealed(&self) -> Vec<(u32, u64)> {
        let files: Vec<(String, u64)> = self
            .disk
            .borrow()
            .files
            .iter()
            .filter(|(p, _)| p.starts_with(MAIN) || p.starts_with(SPARE))
            .map(|(p, f)| (p.rsplit('/').next().unwrap().to_string(), f.len() as u64))
            .collect();
        sealed_segments(&files, self.writer.borrow().seg_id)
    }

    fn put_impl(&self, key: &BlockKey, data: &[u8], obj: Option<u64>) -> DomainResult<()> {
        let c = &self.cfg;
        let (mut run, mut a) = PutPass::begin(
            key.as_bytes(),
            data,
            obj,
            c.inline_min,
            c.compress_zstd,
            c.compress_min,
            c.ballast_bytes,
        );
        loop {
            let ev = match a {
                PutAction::Inline => {
                    let mut d = self.disk.borrow_mut();
                    let old = d.addr.get(key.as_bytes()).cloned();
                    d.apply(key.as_bytes(), put_inline(run.stored.clone(), &old));
                    PutEvent::Did
                }
                PutAction::Append => {
                    match self.append(key.as_bytes(), &run.stored, run.logical_len, run.flags) {
                        Ok((addr, crc)) => PutEvent::Written(addr, crc),
                        Err(e) => PutEvent::Failed(e),
                    }
                }
                PutAction::Release => {
                    PutEvent::Released(self.disk.borrow_mut().files.remove(BALLAST).is_some())
                }
                PutAction::Index(entry) => {
                    let mut d = self.disk.borrow_mut();
                    let old = d.addr.get(key.as_bytes()).cloned();
                    d.apply(key.as_bytes(), put_addr(&entry, &old));
                    PutEvent::Did
                }
                PutAction::Finish(r) => return r,
            };
            a = run.advance(ev);
        }
    }

    fn references(&self) -> Vec<(u32, u64)> {
        let rows: Vec<Vec<u8>> = self.disk.borrow().addr.values().cloned().collect();
        referenced_segments(&rows)
    }

    fn gc_once(&self, ratio: f64) -> DomainResult<GcReport> {
        let pass = self.passes.get();
        self.passes.set(pass + 1);
        let sealed = self.sealed();
        let discards: Vec<u64> = sealed
            .iter()
            .map(|(id, _)| self.disk.borrow().meta.get(&discard_key(*id)).copied().unwrap_or(0))
            .collect();
        let pick = gc_victim(&discards);
        let below = pick
            .map(|i| (discards[i] as f64) < ratio * (sealed[i].1 as f64))
            .unwrap_or(false);
        let (mut run, mut a) = GcPass::begin(pass, &sealed, pick, below);
        loop {
            let ev = match a {
                GcAction::Load(seg) => match self.disk.borrow().files.get(&self.path_of(seg)) {
                    Some(f) => GcEvent::File(f.clone()),
                    None => GcEvent::Failed(DomainError::Io("no such segment".to_string())),
                },
                GcAction::Look(k) => {
                    GcEvent::Looked(self.disk.borrow().lookup(&BlockKey::new(k)))
                }
                GcAction::Copy { key, stored, logical_len, flags } => {
                    match self.append(&key, &stored, logical_len, flags) {
                        Ok((addr, crc)) => GcEvent::Copied(addr, crc),
                        Err(e) => GcEvent::Failed(e),
                    }
                }
                GcAction::Move { key, from, to, crc, logical_len, flags } => {
                    let mut d = self.disk.borrow_mut();
                    let cur = d.addr.get(&key).cloned();
                    let row = move_row(&cur, &from, &to, crc, logical_len, flags);
                    let moved = row.is_some();
                    if let Some(row) = row {
                        d.addr.insert(key, row);
                    }
                    GcEvent::Moved(moved)
                }
                GcAction::Account(stray) => {
                    for (seg, n) in stray {
                        self.disk.borrow_mut().bump(seg, n);
                    }
                    GcEvent::Did
                }
                GcAction::Flush => match self.flush() {
                    Ok(()) => GcEvent::Did,
                    Err(e) => GcEvent::Failed(e),
                },
                GcAction::Unlink(seg) => {
                    let path = self.path_of(seg);
                    match self.disk.borrow_mut().files.remove(&path) {
                        Some(_) => GcEvent::Did,
                        None => GcEvent::Failed(DomainError::Io("no such segment".to_string())),
                    }
                }
                GcAction::Forget(segs) => {
                    for seg in segs {
                        self.disk.borrow_mut().meta.remove(&discard_key(seg));
                    }
                    GcEvent::Did
                }
                GcAction::Survey => GcEvent::Segments(self.references(), self.sealed()),
                GcAction::Finish(r) => return r,
            };
            a = run.advance(ev);
        }
    }
}

/// What the pool asks of a disk.
trait Shard {
    fn put(&self, key: &BlockKey, data: &[u8]) -> DomainResult<()>;
    fn get(&self, key: &BlockKey) -> DomainResult<Vec<u8>>;
    fn has(&self, key: &BlockKey) -> DomainResult<bool>;
    fn delete(&self, key: &BlockKey) -> DomainResult<()>;
    fn list(&self, p: &[u8], a: Option<&BlockKey>, l: usize) -> DomainResult<Vec<(Vec<u8>, u64)>>;
    fn usage(&self) -> DomainResult<Capacity>;
    fn flush(&self) -> DomainResult<()>;

    fn put_meta(&self, key: &BlockKey, data: &[u8], _obj: Option<u64>) -> DomainResult<()> {
        self.put(key, data)
    }

    fn stat(&self, key: &BlockKey) -> DomainResult<u64> {
        ozd::ports::size_of(self.get(key))
    }

    fn stat_obj(&self, key: &BlockKey) -> DomainResult<(u64, Option<u64>)> {
        Ok((self.stat(key)?, None))
    }

    fn set_obj_logical(&self, _key: &BlockKey, _obj: u64) -> DomainResult<bool> {
        Ok(false)
    }

    fn scrub_step(&self, _after: Option<&BlockKey>, _limit: usize) -> DomainResult<ScrubStep> {
        Ok(ScrubStep { checked: 0, bytes: 0, corrupt: Vec::new(), last_key: None, done: true })
    }

    fn save_cursor(&self, _name: &str, _pos: Option<&BlockKey>) -> DomainResult<()> {
        Ok(())
    }

    fn load_cursor(&self, _name: &str) -> DomainResult<Option<BlockKey>> {
        Ok(None)
    }

    fn data_bytes(&self) -> DomainResult<u64> {
        Ok(0)
    }

    fn evict_oldest_segment(&self) -> DomainResult<(u64, usize)> {
        Ok((0, 0))
    }

    /// How long a read takes, in microseconds.
    fn read_time(&self) -> u64 {
        100
    }

    /// How long a write takes, in microseconds.
    fn write_time(&self) -> u64 {
        100
    }
}

impl Shard for DiskEngine {
    fn put(&self, key: &BlockKey, data: &[u8]) -> DomainResult<()> {
        self.put_impl(key, data, None)
    }

    fn put_meta(&self, key: &BlockKey, data: &[u8], obj: Option<u64>) -> DomainResult<()> {
        self.put_impl(key, data, obj)
    }

    fn get(&self, key: &BlockKey) -> DomainResult<Vec<u8>> {
        let mut s = GetState::new();
        let mut a = GetAction::Lookup;
        loop {
            a = match a {
                GetAction::Lookup => get_on_lookup(&s, self.disk.borrow().lookup(key)),
                GetAction::Read(e) => {
                    let from = e.addr.offset as usize;
                    let to = from + e.addr.record_len() as usize;
                    let path = self.path_of(e.addr.seg_id);
                    let buf = self
                        .disk
                        .borrow()
                        .files
                        .get(&path)
                        .and_then(|f| f.get(from..to).map(|b| b.to_vec()));
                    get_on_read(&mut s, key, &e, buf)
                }
                GetAction::Done(r) => return r,
            };
        }
    }

    fn has(&self, key: &BlockKey) -> DomainResult<bool> {
        let d = self.disk.borrow();
        Ok(engine::has(d.inline.contains_key(key.as_bytes()), d.addr.contains_key(key.as_bytes())))
    }

    fn delete(&self, key: &BlockKey) -> DomainResult<()> {
        let mut d = self.disk.borrow_mut();
        let old = d.addr.get(key.as_bytes()).cloned();
        d.apply(key.as_bytes(), index::delete(&old));
        Ok(())
    }

    fn list(&self, p: &[u8], a: Option<&BlockKey>, l: usize) -> DomainResult<Vec<(Vec<u8>, u64)>> {
        let d = self.disk.borrow();
        let start = listing::list_start(p, a);
        let addr = d.addr.range(start.clone()..).map(|(k, v)| (k.clone(), v.clone())).collect();
        let inline = d.inline.range(start..).map(|(k, v)| (k.clone(), v.len() as u64)).collect();
        Ok(listing::list(&addr, &inline, p, a, l))
    }

    fn usage(&self) -> DomainResult<Capacity> {
        Ok(Capacity { total_bytes: 1 << 40, free_bytes: 1 << 39 })
    }

    fn flush(&self) -> DomainResult<()> {
        let mut w = self.writer.borrow_mut();
        if w.needs_flush() {
            if let AppendAction::WriteMeta { seg_id, flush_offset, .. } = w.flush() {
                let dir = Self::dir(&w);
                if !self.disk.borrow_mut().write_meta(dir, seg_id, flush_offset) {
                    return Err(DomainError::Io("meta".to_string()));
                }
            }
        }
        Ok(())
    }

    fn stat(&self, key: &BlockKey) -> DomainResult<u64> {
        index::stat(&self.disk.borrow().lookup(key)?)
    }

    fn stat_obj(&self, key: &BlockKey) -> DomainResult<(u64, Option<u64>)> {
        index::stat_obj(&self.disk.borrow().lookup(key)?)
    }

    fn set_obj_logical(&self, key: &BlockKey, obj: u64) -> DomainResult<bool> {
        let mut d = self.disk.borrow_mut();
        let cur = d.addr.get(key.as_bytes()).cloned();
        match index::set_obj_logical(&cur, obj) {
            Some(row) => {
                d.addr.insert(key.as_bytes().to_vec(), row);
                Ok(true)
            }
            None => Ok(false),
        }
    }

    fn scrub_step(&self, after: Option<&BlockKey>, limit: usize) -> DomainResult<ScrubStep> {
        let keys = self.list(b"", after, limit)?;
        let mut step = scrub_begin(&keys, limit);
        for (k, _) in keys {
            let key = BlockKey::new(k);
            let body = self.get(&key);
            scrub_note(&mut step, &key, &body);
        }
        Ok(step)
    }

    fn save_cursor(&self, name: &str, pos: Option<&BlockKey>) -> DomainResult<()> {
        let mut d = self.disk.borrow_mut();
        match pos {
            Some(k) => d.cursors.insert(name.to_string(), k.as_bytes().to_vec()),
            None => d.cursors.remove(name),
        };
        Ok(())
    }

    fn load_cursor(&self, name: &str) -> DomainResult<Option<BlockKey>> {
        Ok(self.disk.borrow().cursors.get(name).map(|k| BlockKey::new(k.clone())))
    }

    fn data_bytes(&self) -> DomainResult<u64> {
        Ok(engine::data_bytes(&self.sealed(), self.writer.borrow().len))
    }

    fn evict_oldest_segment(&self) -> DomainResult<(u64, usize)> {
        let (mut run, mut a) = EvictPass::begin(oldest_segment(&self.sealed()));
        loop {
            let ev = match a {
                EvictAction::Load(seg) => {
                    EvictEvent::File(self.disk.borrow().files[&self.path_of(seg)].clone())
                }
                EvictAction::Look(k) => {
                    EvictEvent::Looked(self.disk.borrow().lookup(&BlockKey::new(k)))
                }
                EvictAction::Drop(keys, seg) => {
                    let mut d = self.disk.borrow_mut();
                    for k in keys {
                        d.addr.remove(&k);
                    }
                    d.meta.remove(&discard_key(seg));
                    EvictEvent::Did
                }
                EvictAction::Unlink(seg) => {
                    let path = self.path_of(seg);
                    self.disk.borrow_mut().files.remove(&path);
                    EvictEvent::Did
                }
                EvictAction::Finish(r) => return r,
            };
            a = run.advance(ev);
        }
    }
}

impl DiskEngine {
    fn verify_structure(&self) -> StructureReport {
        let active = self.writer.borrow().seg_id;
        engine::verify_structure(&self.references(), &self.sealed(), active)
    }

    fn ballast_released(&self) -> bool {
        engine::ballast_released(self.cfg.ballast_bytes, self.ballast.get())
    }

    fn release_ballast(&self) -> bool {
        let gone = self.disk.borrow_mut().files.remove(BALLAST).is_some();
        if gone {
            self.ballast.set(false);
        }
        gone
    }
}

fn key(s: String) -> BlockKey {
    BlockKey::new(s.into_bytes())
}

fn small_segments(d: &Shared) -> DiskEngine {
    let cfg = EngineConfig {
        segment_max_size: 1 << 20,
        inline_min: 64,
        fsync_items: 8,
        ..Default::default()
    };
    DiskEngine::open(cfg, d.clone())
}

fn engine_zstd(d: &Shared) -> DiskEngine {
    let cfg = EngineConfig {
        segment_max_size: 256,
        inline_min: 64,
        fsync_items: 8,
        compress_zstd: true,
        compress_min: 256,
        ..Default::default()
    };
    DiskEngine::open(cfg, d.clone())
}

fn segments(d: &Shared) -> usize {
    d.borrow().files.keys().filter(|p| p.ends_with(".dat")).count()
}

#[test]
fn compressed_roundtrip_stat_and_smaller_file() {
    let d = disk();
    let e = engine_zstd(&d);
    // a body of 200 kB that compresses well
    let data: Vec<u8> = (0..200_000u32).map(|i| (i % 7) as u8).collect();
    let key = BlockKey::from("/blocks/zc");
    e.put(&key, &data).unwrap();
    e.flush().unwrap();

    assert_eq!(e.get(&key).unwrap(), data);
    assert_eq!(e.stat(&key).unwrap(), 200_000, "the size before compression");
    let on_disk = d.borrow().files["main/seg/seg.00000000.dat"].len();
    assert!(on_disk < 50_000, "{on_disk} bytes on disk");

    // noise is kept as it is, and read
    let rnd: Vec<u8> =
        (0..50_000u32).map(|i| (i.wrapping_mul(2654435761) >> 13) as u8).collect();
    let k2 = BlockKey::from("/blocks/zr");
    e.put(&k2, &rnd).unwrap();
    assert_eq!(e.get(&k2).unwrap(), rnd);
    assert_eq!(e.stat(&k2).unwrap(), 50_000);

    // listings give the sizes before compression
    let listed = e.list(b"/blocks/", None, 10).unwrap();
    let zc = listed.iter().find(|(k, _)| k.ends_with(b"zc")).unwrap();
    assert_eq!(zc.1, 200_000);
}

#[test]
fn gc_preserves_compressed_records_verbatim() {
    let d = disk();
    let e = engine_zstd(&d);
    let data: Vec<u8> = (0..150_000u32).map(|i| (i % 11) as u8).collect();
    for i in 0..8 {
        e.put(&key(format!("/blocks/zg{i}")), &data).unwrap();
    }
    e.flush().unwrap();
    for i in 0..6 {
        e.delete(&key(format!("/blocks/zg{i}"))).unwrap();
    }
    let mut reclaimed = 0;
    for _ in 0..16 {
        let r = e.gc_once(0.5).unwrap();
        if r.victim_seg.is_none() {
            break;
        }
        reclaimed += r.reclaimed_bytes;
    }
    assert!(reclaimed > 0);
    // what is alive moved without being repacked, and reads with its size
    for i in 6..8 {
        let k = key(format!("/blocks/zg{i}"));
        assert_eq!(e.get(&k).unwrap(), data);
        assert_eq!(e.stat(&k).unwrap(), 150_000);
    }
}

#[test]
fn gc_sweeps_orphan_segments() {
    let d = disk();
    let e = small_segments(&d);
    let data = vec![4u8; 300_000];
    for i in 0..6 {
        e.put(&key(format!("/blocks/or{i}")), &data).unwrap();
    }
    e.flush().unwrap();
    for i in 0..4 {
        e.delete(&key(format!("/blocks/or{i}"))).unwrap();
    }
    // and a file that nothing refers to
    d.borrow_mut().files.insert("main/seg/seg.00000077.dat".to_string(), b"junk".to_vec());

    let mut orphans = 0u32;
    let mut reclaimed = 0u64;
    for _ in 0..16 {
        let r = e.gc_once(0.5).unwrap();
        orphans += r.orphans_removed;
        reclaimed += r.reclaimed_bytes + r.orphan_bytes;
        if r.victim_seg.is_none() && r.orphans_removed == 0 {
            break;
        }
    }
    assert!(orphans >= 1, "the stray file is removed");
    assert!(reclaimed > 0);
    assert!(!d.borrow().files.contains_key("main/seg/seg.00000077.dat"));
    // what is alive reads, the structure is clean
    for i in 4..6 {
        assert_eq!(e.get(&key(format!("/blocks/or{i}"))).unwrap(), data);
    }
    let sr = e.verify_structure();
    assert!(sr.is_healthy());
    assert!(sr.orphan_segments.is_empty(), "{sr:?}");
}

#[test]
fn roundtrip_inline_and_segment() {
    let e = small_segments(&disk());

    let small = BlockKey::from("/blocks/small");
    e.put(&small, b"tiny").unwrap(); // below inline_min: in the index
    assert_eq!(e.get(&small).unwrap(), b"tiny");

    let big_data = vec![0xABu8; 100_000];
    let big = BlockKey::from("/blocks/big");
    e.put(&big, &big_data).unwrap(); // in a segment
    assert_eq!(e.get(&big).unwrap(), big_data);
    assert!(e.has(&big).unwrap());

    e.delete(&big).unwrap();
    assert!(matches!(e.get(&big), Err(DomainError::NotFound)));
}

#[test]
fn segment_rotation() {
    let d = disk();
    let e = small_segments(&d);
    let data = vec![7u8; 300_000];
    for i in 0..8 {
        e.put(&key(format!("/blocks/k{i}")), &data).unwrap();
    }
    e.flush().unwrap();
    // 8 times 300 kB are more than a segment holds; all of it reads
    for i in 0..8 {
        assert_eq!(e.get(&key(format!("/blocks/k{i}"))).unwrap(), data);
    }
    assert!(segments(&d) >= 2, "{} segments", segments(&d));
}

#[test]
fn crash_recovery_torn_tail() {
    let d = disk();
    let data = vec![9u8; 10_000];
    {
        let e = small_segments(&d);
        e.put(&BlockKey::from("/blocks/a"), &data).unwrap();
        e.flush().unwrap();
        e.put(&BlockKey::from("/blocks/b"), &data).unwrap();
        // not flushed: the durable length is behind
    }
    // the index row of b is lost with the crash, and the tail is torn
    d.borrow_mut().addr.remove(b"/blocks/b".as_slice());
    let seg0 = "main/seg/seg.00000000.dat";
    d.borrow_mut().files.get_mut(seg0).unwrap().extend(b"OZB1garbage-without-full-record");
    // reopened: b is put back into the index, the garbage is cut off
    let e = small_segments(&d);
    assert_eq!(e.get(&BlockKey::from("/blocks/a")).unwrap(), data);
    assert_eq!(e.get(&BlockKey::from("/blocks/b")).unwrap(), data);
    let len_after = d.borrow().files[seg0].len();
    assert_eq!(len_after, 2 * (20 + 9 + 10_000));
    let more = vec![1u8; 10_000];
    e.put(&BlockKey::from("/blocks/c"), &more).unwrap();
    assert_eq!(e.get(&BlockKey::from("/blocks/c")).unwrap(), more);
}

#[test]
fn reopen_preserves_data() {
    for len in [4usize, 100, 4_095, 4_096, 19_999] {
        let d = disk();
        let k = BlockKey::from("/blocks/abcde");
        let data: Vec<u8> = (0..len).map(|i| (i * i % 251) as u8).collect();
        {
            let e = small_segments(&d);
            e.put(&k, b"an older body").unwrap();
            e.put(&k, &data).unwrap();
            e.put(&BlockKey::from("/blocks/other"), &vec![3u8; 5_000]).unwrap();
            // not flushed
        }
        let e = small_segments(&d);
        assert_eq!(e.get(&k).unwrap(), data);
        assert_eq!(e.stat(&k).unwrap(), len as u64);
    }
}

#[test]
fn gc_reclaims_dead_segments_and_keeps_live() {
    let d = disk();
    let e = small_segments(&d);
    let data = vec![0x42u8; 200_000];
    for i in 0..10 {
        e.put(&key(format!("/blocks/g{i}")), &data).unwrap();
    }
    e.flush().unwrap();
    let before = segments(&d);
    assert!(before >= 2);

    // seven keys of ten are deleted
    for i in 0..7 {
        e.delete(&key(format!("/blocks/g{i}"))).unwrap();
    }
    let mut reclaimed = 0u64;
    let mut moved = 0usize;
    for _ in 0..16 {
        let r = e.gc_once(0.5).unwrap();
        if r.victim_seg.is_none() {
            break;
        }
        reclaimed += r.reclaimed_bytes;
        moved += r.live_moved;
    }
    assert!(reclaimed > 0, "GC must reclaim space");
    let after = segments(&d);
    assert!(after < before, "{after} < {before}");

    for i in 7..10 {
        let k = key(format!("/blocks/g{i}"));
        assert_eq!(e.get(&k).unwrap(), data, "g{i} must survive (moved={moved})");
    }
    for i in 0..7 {
        assert!(matches!(e.get(&key(format!("/blocks/g{i}"))), Err(DomainError::NotFound)));
    }
}

#[test]
fn gc_respects_discard_ratio() {
    let e = small_segments(&disk());
    let data = vec![7u8; 200_000];
    for i in 0..10 {
        e.put(&key(format!("/blocks/r{i}")), &data).unwrap();
    }
    e.flush().unwrap();
    // one key deleted: less garbage than half of any segment
    e.delete(&BlockKey::from("/blocks/r0")).unwrap();
    let r = e.gc_once(0.5).unwrap();
    assert!(r.victim_seg.is_none(), "below ratio must not rewrite");
    // with a ratio near zero there is a victim
    let r2 = e.gc_once(0.001).unwrap();
    assert!(r2.victim_seg.is_some());
}

#[test]
fn gc_overwrite_counts_as_discard() {
    let e = small_segments(&disk());
    let v1 = vec![1u8; 150_000];
    let v2 = vec![2u8; 150_000];
    for i in 0..6 {
        e.put(&key(format!("/blocks/o{i}")), &v1).unwrap();
    }
    // overwritten: the old versions are garbage without a delete
    for i in 0..6 {
        e.put(&key(format!("/blocks/o{i}")), &v2).unwrap();
    }
    e.flush().unwrap();
    let mut reclaimed = 0u64;
    for _ in 0..16 {
        let r = e.gc_once(0.5).unwrap();
        if r.victim_seg.is_none() {
            break;
        }
        reclaimed += r.reclaimed_bytes;
    }
    assert!(reclaimed > 0);
    for i in 0..6 {
        assert_eq!(e.get(&key(format!("/blocks/o{i}"))).unwrap(), v2);
    }
}

#[test]
fn verify_structure_detects_missing_and_orphan() {
    let d = disk();
    let e = small_segments(&d);
    let data = vec![3u8; 300_000];
    for i in 0..8 {
        e.put(&key(format!("/blocks/v{i}")), &data).unwrap();
    }
    e.flush().unwrap();

    let r0 = e.verify_structure();
    assert!(r0.is_healthy());
    assert!(r0.segments_referenced >= 2);
    assert!(r0.orphan_segments.is_empty());

    // a sealed segment is lost, and one without references appears
    d.borrow_mut().files.remove("main/seg/seg.00000000.dat");
    d.borrow_mut().files.insert("main/seg/seg.00000099.dat".to_string(), b"junk".to_vec());

    let r = e.verify_structure();
    assert!(!r.is_healthy());
    assert_eq!(r.segments_missing, vec![0]);
    assert!(r.keys_at_risk > 0);
    assert_eq!(r.orphan_segments, vec![99]);
}

#[test]
fn list_prefix_pagination() {
    let e = small_segments(&disk());
    for i in 0..5 {
        e.put(&key(format!("/blocks/x{i}")), &[0u8; 200]).unwrap();
    }
    e.put(&BlockKey::from("/pins/p1"), &[0u8; 200]).unwrap();

    let page1 = e.list(b"/blocks/", None, 3).unwrap();
    assert_eq!(page1.len(), 3);
    let last = BlockKey::new(page1.last().unwrap().0.clone());
    let page2 = e.list(b"/blocks/", Some(&last), 10).unwrap();
    assert_eq!(page2.len(), 2);
    assert!(page2.iter().all(|(k, _)| k.starts_with(b"/blocks/")));
}

#[test]
fn cursor_persists_across_reopen() {
    let d = disk();
    {
        let e = small_segments(&d);
        assert_eq!(e.load_cursor("scrub").unwrap(), None, "a fresh engine has none");
        e.save_cursor("scrub", Some(&BlockKey::from("/blocks/CIQmid"))).unwrap();
    }
    {
        let e = small_segments(&d);
        assert_eq!(e.load_cursor("scrub").unwrap(), Some(BlockKey::from("/blocks/CIQmid")));
        // other names do not interfere
        assert_eq!(e.load_cursor("resilver").unwrap(), None);
        e.save_cursor("scrub", None).unwrap();
    }
    let e = small_segments(&d);
    assert_eq!(e.load_cursor("scrub").unwrap(), None);
}

#[test]
fn ballast_lifecycle_create_release_recreate() {
    let d = disk();
    let with = || EngineConfig { ballast_bytes: 64 * 1024, ..Default::default() };
    {
        let e = DiskEngine::open(with(), d.clone());
        assert_eq!(d.borrow().files[BALLAST].len(), 64 * 1024);
        assert!(!e.ballast_released());
        // not zeros, which would compress to nothing
        assert!(d.borrow().files[BALLAST][..64].iter().any(|b| *b != 0));

        assert!(e.release_ballast(), "it was there");
        assert!(!d.borrow().files.contains_key(BALLAST));
        assert!(e.ballast_released());
        assert!(!e.release_ballast(), "a second time does nothing");
    }
    // restarted with room: it is back
    let e = DiskEngine::open(with(), d.clone());
    assert_eq!(d.borrow().files[BALLAST].len(), 64 * 1024);
    assert!(!e.ballast_released());
    // switched off: it is removed
    let e = DiskEngine::open(EngineConfig::default(), d.clone());
    assert!(!d.borrow().files.contains_key(BALLAST));
    assert!(!e.ballast_released(), "none configured");
}

#[test]
fn wal_failover_rotates_to_spare_and_fails_back() {
    let d = disk();
    let cfg = || EngineConfig {
        failover_path: Some("spare".to_string()),
        segment_max_size: 4096, // every body of 5 kB fills a segment
        inline_min: 64,
        fsync_items: 4,
        ..Default::default()
    };
    let body = |i: u8| vec![i; 5000];
    {
        let e = DiskEngine::open(cfg(), d.clone());
        e.put(&BlockKey::from("/blocks/f0"), &body(0)).unwrap(); // segment 0
        e.flush().unwrap();
        // the primary directory fails
        d.borrow_mut().read_only.insert(MAIN);
        e.put(&BlockKey::from("/blocks/f1"), &body(1)).unwrap(); // on the spare one
        e.put(&BlockKey::from("/blocks/f2"), &body(2)).unwrap();
        e.flush().unwrap();
        assert!(d.borrow().files.contains_key("spare/seg/seg.00000001.dat"));
        // reads go to both
        assert_eq!(e.get(&BlockKey::from("/blocks/f0")).unwrap(), body(0));
        assert_eq!(e.get(&BlockKey::from("/blocks/f1")).unwrap(), body(1));
        assert_eq!(e.get(&BlockKey::from("/blocks/f2")).unwrap(), body(2));
        assert!(e.verify_structure().is_healthy());
    }
    // reopened while the primary is still dead
    let e = DiskEngine::open(cfg(), d.clone());
    assert_eq!(e.get(&BlockKey::from("/blocks/f1")).unwrap(), body(1));
    e.put(&BlockKey::from("/blocks/f3"), &body(3)).unwrap();
    assert_eq!(e.get(&BlockKey::from("/blocks/f3")).unwrap(), body(3));
    // repaired: the next rotation goes back
    d.borrow_mut().read_only.clear();
    e.put(&BlockKey::from("/blocks/f4"), &body(4)).unwrap();
    e.put(&BlockKey::from("/blocks/f5"), &body(5)).unwrap();
    e.flush().unwrap();
    let back = d
        .borrow()
        .files
        .keys()
        .filter(|p| p.starts_with(MAIN) && p.ends_with(".dat") && !p.ends_with("00000000.dat"))
        .count();
    assert!(back >= 1, "new segments are on the primary again");
    for i in 0..=5u8 {
        assert_eq!(e.get(&key(format!("/blocks/f{i}"))).unwrap(), body(i), "f{i}");
    }
}

/// A valid envelope of a piece of an object of that length.
fn mk_piece(idx: u8, logical: u64) -> Vec<u8> {
    let h = PieceHeader { k: 4, m: 2, piece_idx: idx, logical_len: logical };
    let mut p = encode_piece_header(&h).to_vec();
    p.resize(16 + (logical as usize).div_ceil(4), 0xAB);
    p
}

#[test]
fn era_bit_obj_logical_roundtrip_list_and_gc() {
    let d = disk();
    let e = small_segments(&d);
    let kp = BlockKey::from("/blocks/piece");
    let km = BlockKey::from("/blocks/plain");
    e.put_meta(&kp, &mk_piece(0, 1000), Some(1000)).unwrap();
    e.put(&km, &[9u8; 500]).unwrap();
    e.flush().unwrap();
    let (sz, obj) = e.stat_obj(&kp).unwrap();
    assert_eq!(obj, Some(1000));
    assert_eq!(sz, mk_piece(0, 1000).len() as u64);
    assert_eq!(e.stat_obj(&km).unwrap().1, None);
    // a piece is listed with the length of its object
    let listed = e.list(b"/blocks/", None, 10).unwrap();
    let lp = listed.iter().find(|(k, _)| k == kp.as_bytes()).unwrap();
    assert_eq!(lp.1, 1000);
    // it survives a restart
    let e = small_segments(&d);
    assert_eq!(e.stat_obj(&kp).unwrap().1, Some(1000));
    // and a collection
    let cfg = EngineConfig {
        segment_max_size: 64,
        inline_min: 16,
        fsync_items: 4,
        ..Default::default()
    };
    let e2 = DiskEngine::open(cfg, disk());
    e2.put_meta(&kp, &mk_piece(1, 1000), Some(1000)).unwrap();
    e2.put(&BlockKey::from("/blocks/junk"), &[1u8; 200]).unwrap();
    e2.delete(&BlockKey::from("/blocks/junk")).unwrap();
    e2.flush().unwrap();
    e2.gc_once(0.0).unwrap();
    assert_eq!(e2.stat_obj(&kp).unwrap().1, Some(1000));
    assert_eq!(e2.get(&kp).unwrap(), mk_piece(1, 1000));
}

#[test]
fn era_bit_rederived_by_tail_recovery() {
    let d = disk();
    let kp = BlockKey::from("/blocks/tailpiece");
    {
        let e = small_segments(&d);
        e.put_meta(&kp, &mk_piece(2, 2000), Some(2000)).unwrap();
        // not flushed: the record is in the tail only
    }
    d.borrow_mut().addr.clear();
    let e = small_segments(&d);
    let (_, obj) = e.stat_obj(&kp).unwrap();
    assert_eq!(obj, Some(2000), "read from the piece's envelope");
}

#[test]
fn evict_oldest_segment_fifo_and_data_bytes() {
    let cfg = EngineConfig {
        segment_max_size: 8 * 1024,
        inline_min: 64,
        fsync_items: 64,
        ..Default::default()
    };
    let e = DiskEngine::open(cfg, disk());
    for i in 0..12u8 {
        e.put(&key(format!("/blocks/fi{i:02}")), &vec![i; 4000]).unwrap();
    }
    e.flush().unwrap();
    let total = e.data_bytes().unwrap();
    assert!(total > 40_000, "{total}");

    let (freed, removed) = e.evict_oldest_segment().unwrap();
    assert!(freed > 0 && removed > 0, "({freed}, {removed})");
    assert!(e.data_bytes().unwrap() < total);
    // the oldest keys are gone, the newest are there
    assert!(matches!(e.get(&BlockKey::from("/blocks/fi00")), Err(DomainError::NotFound)));
    assert_eq!(e.get(&BlockKey::from("/blocks/fi11")).unwrap(), vec![11u8; 4000]);
    assert!(e.verify_structure().is_healthy());
    // evicted to the end, the active segment stays
    while e.evict_oldest_segment().unwrap().0 > 0 {}
    assert_eq!(e.get(&BlockKey::from("/blocks/fi11")).unwrap(), vec![11u8; 4000]);
}

#[test]
fn fadvise_hygiene_changes_no_behavior() {
    let d = disk();
    let cfg = || EngineConfig {
        segment_max_size: 8 * 1024,
        inline_min: 64,
        fsync_items: 2,
        fadvise_dontneed: true,
        ..Default::default()
    };
    {
        let e = DiskEngine::open(cfg(), d.clone());
        for i in 0..10u8 {
            e.put(&key(format!("/blocks/fa{i}")), &vec![i; 4000]).unwrap();
        }
        e.flush().unwrap();
        for i in 0..10u8 {
            assert_eq!(e.get(&key(format!("/blocks/fa{i}"))).unwrap(), vec![i; 4000]);
        }
        e.delete(&BlockKey::from("/blocks/fa0")).unwrap();
        e.gc_once(0.0).unwrap();
        let _ = e.evict_oldest_segment().unwrap();
        assert_eq!(e.get(&BlockKey::from("/blocks/fa9")).unwrap(), vec![9u8; 4000]);
    }
    let e = DiskEngine::open(cfg(), d);
    assert_eq!(e.get(&BlockKey::from("/blocks/fa9")).unwrap(), vec![9u8; 4000]);
    assert!(e.verify_structure().is_healthy());
}

#[test]
fn a_damaged_record_is_reported_as_corrupt() {
    let d = disk();
    let e = small_segments(&d);
    let k = BlockKey::from("/blocks/bad");
    e.put(&k, &[7u8; 1000]).unwrap();
    rot(&d, "main/seg/seg.00000000.dat", 500);
    assert!(matches!(e.get(&k), Err(DomainError::Corrupt(_))));
    // a record that is not there at all is looked up again, then given up
    lose_segments(&d);
    assert!(matches!(e.get(&k), Err(DomainError::Io(_))));
    let step = e.scrub_step(None, 10).unwrap();
    assert_eq!((step.checked, step.corrupt.len(), step.done), (0, 1, true));
}

/// Several disks as one store.  Time is counted in microseconds and passes
/// only by what the disks take.
struct Pool {
    shards: Vec<Rc<dyn Shard>>,
    policy: Box<dyn PlacementPolicy>,
    cfg: PoolConfig,
    state: RefCell<PoolState>,
    metrics: RefCell<OpsMetrics>,
    bg: RefCell<BgThrottle>,
    lat: RefCell<RollingP99>,
    monitor: RefCell<DiskSlowMonitor>,
    slow: DiskSlowConfig,
    now: Cell<u64>,
}

impl Pool {
    fn new(shards: Vec<Rc<dyn Shard>>, policy: Box<dyn PlacementPolicy>, cfg: PoolConfig) -> Pool {
        Self::throttled(shards, policy, cfg, BgThrottleConfig::default())
    }

    fn throttled(
        shards: Vec<Rc<dyn Shard>>,
        policy: Box<dyn PlacementPolicy>,
        cfg: PoolConfig,
        bg: BgThrottleConfig,
    ) -> Pool {
        assert!(ozd::pool::pool_config_ok(cfg.replicas, cfg.write_quorum, shards.len()));
        let n = shards.len();
        Pool {
            shards,
            policy,
            cfg,
            state: RefCell::new(PoolState::new(n, &cfg)),
            metrics: RefCell::new(OpsMetrics::default()),
            bg: RefCell::new(BgThrottle::new(bg, 0, 0)),
            lat: RefCell::new(RollingP99::new(60_000_000, 64)),
            monitor: RefCell::new(DiskSlowMonitor::new(n)),
            slow: DiskSlowConfig::default(),
            now: Cell::new(0),
        }
    }

    fn pass(&self, us: u64) {
        self.now.set(self.now.get() + us);
    }

    fn metrics(&self) -> OpsMetrics {
        *self.metrics.borrow()
    }

    fn shard(&self, s: ShardId) -> &Rc<dyn Shard> {
        &self.shards[s.0 as usize]
    }

    fn read(&self, s: ShardId, key: &BlockKey) -> DomainResult<Vec<u8>> {
        self.monitor.borrow_mut().record(s.0 as usize, self.shard(s).read_time());
        self.shard(s).get(key)
    }

    fn read_waiting(&self, s: ShardId, key: &BlockKey) -> DomainResult<Vec<u8>> {
        self.pass(self.shard(s).read_time());
        self.read(s, key)
    }

    fn write(&self, s: ShardId, key: &BlockKey, b: &[u8], obj: Option<u64>) -> DomainResult<()> {
        self.monitor.borrow_mut().record(s.0 as usize, self.shard(s).write_time());
        match obj {
            Some(_) => self.shard(s).put_meta(key, b, obj),
            None => self.shard(s).put(key, b),
        }
    }

    fn acquire(&self, bytes: u64) {
        if !self.bg.borrow().charges(bytes) {
            return;
        }
        let mut m = self.metrics.borrow_mut();
        let fg = m.puts + m.gets;
        let delay = self.bg.borrow_mut().acquire_delay(bytes, self.now.get() * 1000, fg);
        m.bg_throttle_bytes += bytes;
        if delay > 0 {
            m.bg_throttle_waits += 1;
            self.pass((delay / 1000) as u64);
        }
    }

    fn ranking_for(&self, key: &BlockKey, n: usize) -> Vec<ShardId> {
        let usage = self.shards.iter().map(|s| s.usage().ok()).collect();
        let st = self.state.borrow();
        let topo =
            placement::topology(&st.statuses, &st.slow_flags, &st.cap_overrides, &usage);
        self.policy.select(key, &topo, n)
    }

    fn replicas_for(&self, key: &BlockKey) -> Vec<ShardId> {
        self.ranking_for(key, self.cfg.replicas)
    }

    fn put_body(&self, key: &BlockKey, data: &[u8]) -> DomainResult<()> {
        let legs = self.ranking_for(key, put_width(&self.cfg, data.len()));
        let plan = plan_put(&self.cfg, data, legs.len())?;
        if plan.pieces.is_some() {
            self.metrics.borrow_mut().ec_puts += 1;
        }
        let (obj, need, want) = (plan.obj, plan.need, plan.want);
        let bodies = plan.pieces.unwrap_or_else(|| vec![data.to_vec(); legs.len()]);
        // all legs write at once
        let mut out = Vec::new();
        let mut longest = 0;
        for (i, s) in legs.iter().enumerate() {
            longest = longest.max(self.shard(*s).write_time());
            out.push((i, self.write(*s, key, &bodies[i], obj)));
        }
        self.pass(longest);
        let ranking = self.ranking_for(key, self.shards.len());
        let mut run = PutRun::settle(&legs, out, &ranking, need, want);
        while let Some((i, spare)) = run.next() {
            let r = self.write(spare, key, &bodies[i], obj);
            if r.is_ok() {
                self.metrics.borrow_mut().handoff_writes += 1;
            }
            run.handed_off(r);
        }
        if run.needs_heal() {
            self.metrics.borrow_mut().mrf_enqueued += 1;
            self.state.borrow_mut().enqueue_heal(key.clone(), HealPriority::Normal);
        }
        run.finish()
    }

    fn hedge_threshold(&self) -> Option<u64> {
        let p99 = self.lat.borrow_mut().p99_at(self.now.get());
        let t = hedge_threshold(self.cfg.adaptive_hedge, p99, self.cfg.speculative_retry_after);
        self.metrics.borrow_mut().hedge_threshold_ms = t.unwrap_or(0) / 1000;
        t
    }

    fn get_inner(&self, key: &BlockKey) -> DomainResult<Vec<u8>> {
        if let Some(ec) = self.cfg.ec {
            return self.get_ec_aware(key, ec.total().max(self.cfg.replicas));
        }
        let reps = self.replicas_for(key);
        let hedge = if reps.len() >= 2 { self.hedge_threshold() } else { None };
        let (mut run, mut a) = ReadRun::begin(reps, self.shards.len(), hedge.is_some());
        // answers that are under way, by the time at which they arrive
        let mut coming: Vec<(u64, ShardId)> = Vec::new();
        loop {
            a = match a {
                ReadAction::AskFirst(s) => {
                    let takes = self.shard(s).read_time();
                    let limit = hedge.unwrap();
                    if takes <= limit {
                        self.pass(takes);
                        run.advance(ReadEvent::Reply(self.read(s, key)))
                    } else {
                        coming.push((self.now.get() + takes, s));
                        self.pass(limit);
                        self.metrics.borrow_mut().hedged_reads += 1;
                        run.advance(ReadEvent::Timeout)
                    }
                }
                ReadAction::AskSecond(s) => {
                    coming.push((self.now.get() + self.shard(s).read_time(), s));
                    self.next_answer(&mut run, &mut coming, key)
                }
                ReadAction::Wait => self.next_answer(&mut run, &mut coming, key),
                ReadAction::Ask(s) => run.advance(ReadEvent::Reply(self.read_waiting(s, key))),
                ReadAction::Finish(r) => return r,
            };
        }
    }

    fn next_answer(
        &self,
        run: &mut ReadRun,
        coming: &mut Vec<(u64, ShardId)>,
        key: &BlockKey,
    ) -> ReadAction {
        coming.sort();
        if coming.is_empty() {
            return run.advance(ReadEvent::Gone);
        }
        let (at, s) = coming.remove(0);
        self.now.set(at.max(self.now.get()));
        run.advance(ReadEvent::Reply(self.read(s, key)))
    }

    fn get_ec_aware(&self, key: &BlockKey, n: usize) -> DomainResult<Vec<u8>> {
        let targets = self.ranking_for(key, n);
        let (mut run, mut a) = EcRead::begin(targets, self.shards.len());
        loop {
            a = match a {
                EcAction::Ask(s) => run.advance(EcEvent::Reply(self.read_waiting(s, key))),
                EcAction::AskAll(v) => {
                    let bodies = v.iter().filter_map(|s| self.read(*s, key).ok()).collect();
                    run.advance(EcEvent::Bodies(bodies))
                }
                EcAction::Finish(r) => {
                    if run.degraded {
                        self.metrics.borrow_mut().ec_reconstructs += 1;
                    }
                    return r;
                }
            };
        }
    }

    fn repair_key(&self, key: &BlockKey) -> DomainResult<(usize, usize)> {
        let ec = self.cfg.ec.map(|e| {
            (e.total(), self.ranking_for(key, e.total().max(self.cfg.replicas)))
        });
        let desired = self.replicas_for(key);
        let n = self.shards.len();
        let (mut run, mut a) = Repair::begin(ec, desired, n, self.cfg.replicas);
        let mut pieces = 0;
        loop {
            let ev = match a {
                RepairAction::AskHas(s) => {
                    RepairEvent::Has(self.shard(s).has(key).unwrap_or(false))
                }
                RepairAction::AskBody(s) => RepairEvent::Body(self.read(s, key).ok()),
                RepairAction::PutPiece(s, p, len) => {
                    let ok = self.write(s, key, &p, Some(len)).is_ok();
                    if ok {
                        pieces += 1;
                    }
                    RepairEvent::Put(ok)
                }
                RepairAction::PutCopy(s, b) => {
                    RepairEvent::Put(self.write(s, key, &b, None).is_ok())
                }
                RepairAction::Finish(r) => {
                    self.metrics.borrow_mut().ec_pieces_repaired += pieces;
                    self.acquire(run.cost() as u64);
                    return r;
                }
            };
            a = run.advance(ev);
        }
    }

    fn mrf_drain(&self, max: usize) -> (usize, usize) {
        let batch = take_batch(&mut self.state.borrow_mut().mrf, max);
        if batch.is_empty() {
            return (0, 0);
        }
        assert!(heal_workers(self.cfg.heal_parallelism, batch.len()) >= 1);
        let mut inflight = vec![0usize; self.shards.len()];
        let mut healed = vec![false; batch.len()];
        for (i, (key, _)) in batch.iter().enumerate() {
            let targets = self.replicas_for(key);
            if !acquire_all(&mut inflight, &targets, self.cfg.heal_max_per_shard.max(1)) {
                continue;
            }
            let outcome = self.repair_key(key);
            release_all(&mut inflight, &targets);
            if is_healed(&outcome) {
                self.metrics.borrow_mut().mrf_healed += 1;
                healed[i] = true;
            }
        }
        settle_batch(&mut self.state.borrow_mut().mrf, batch, &healed)
    }

    fn mrf_len(&self) -> usize {
        self.state.borrow().mrf_len()
    }

    fn pages(&self, after: Option<&BlockKey>, batch: usize) -> DomainResult<Vec<(Vec<u8>, u64)>> {
        let mut lists = Vec::new();
        for s in &self.shards {
            lists.push(s.list(b"", after, batch)?);
        }
        Ok(merge_lists(&lists, batch))
    }

    fn resilver_full(&self, batch: usize) -> DomainResult<ResilverReport> {
        let mut total = ResilverReport::new();
        let mut after = self.shards[0].load_cursor("resilver")?;
        loop {
            let keys = self.pages(after.as_ref(), batch)?;
            let mut page = ResilverReport::begin(&keys, batch);
            for (k, _) in keys {
                let outcome = self.repair_key(&BlockKey::new(k));
                page.note(&outcome);
            }
            match total.add_page(&page) {
                WalkNext::GoOn(k) => {
                    self.shards[0].save_cursor("resilver", Some(&k))?;
                    after = Some(k);
                }
                WalkNext::Stop => {
                    self.shards[0].save_cursor("resilver", None)?;
                    self.flush_all()?;
                    return Ok(total);
                }
            }
        }
    }

    fn migrate_key(&self, key: &BlockKey) -> DomainResult<MigrateOutcome> {
        let ec = self.cfg.ec.unwrap();
        let targets = self.ranking_for(key, ec.total());
        let n = self.shards.len();
        let (mut run, mut a) = Migration::begin(targets, n, &ec, self.cfg.replicas)?;
        loop {
            let ev = match a {
                MigAction::AskHas(s) => MigEvent::Has(self.shard(s).has(key).unwrap_or(false)),
                MigAction::AskStat(s) => MigEvent::Stat(self.shard(s).stat_obj(key).ok()),
                MigAction::AskBody(s) => MigEvent::Body(self.read(s, key)),
                MigAction::SetLength(s, len) => MigEvent::Has(
                    self.shard(s).set_obj_logical(key, len).unwrap_or(false),
                ),
                MigAction::PutPiece(s, p, len) => {
                    MigEvent::Put(self.write(s, key, &p, Some(len)))
                }
                MigAction::Delete(s) => {
                    let _ = self.shard(s).delete(key);
                    MigEvent::Ack
                }
                MigAction::Finish(r) => {
                    let mut m = self.metrics.borrow_mut();
                    m.migrate_era_backfilled += run.backfilled;
                    drop(m);
                    for _ in 0..run.heals {
                        self.state.borrow_mut().enqueue_heal(key.clone(), HealPriority::High);
                    }
                    self.acquire(run.old_bytes + run.body_len * 4);
                    return r;
                }
            };
            a = run.advance(ev);
        }
    }

    fn migrate_full(&self, batch: usize) -> DomainResult<MigrateReport> {
        let mut total = MigrateReport::new();
        let mut after = self.shards[0].load_cursor("migrate")?;
        loop {
            let keys = self.pages(after.as_ref(), batch)?;
            let mut page = MigrateReport::begin(&keys, batch);
            for (k, _) in keys {
                let outcome = self.migrate_key(&BlockKey::new(k));
                page.note(&outcome);
            }
            match total.add_page(&page) {
                WalkNext::GoOn(k) => {
                    self.shards[0].save_cursor("migrate", Some(&k))?;
                    after = Some(k);
                }
                WalkNext::Stop => {
                    self.shards[0].save_cursor("migrate", None)?;
                    self.flush_all()?;
                    return Ok(total);
                }
            }
        }
    }

    fn scrub_shard_step(
        &self,
        shard: usize,
        after: Option<&BlockKey>,
        limit: usize,
    ) -> DomainResult<ScrubReport> {
        let step = self.shards[shard].scrub_step(after, limit)?;
        self.acquire(step.bytes);
        let mut rep = ScrubReport::begin(&step);
        for key in &step.corrupt {
            let _ = self.shards[shard].delete(key);
            let outcome = self.repair_key(key);
            if rep.note(&outcome) {
                self.state.borrow_mut().mrf.push(key.clone(), HealPriority::Urgent);
            }
        }
        Ok(rep)
    }

    fn flush_all(&self) -> DomainResult<()> {
        for s in &self.shards {
            s.flush()?;
        }
        Ok(())
    }

    fn disk_slow_verdicts(&self, rel: f64) -> Vec<bool> {
        let m = self.monitor.borrow();
        let rel_us = (m.median_us(&self.slow) as f64 * rel) as u64;
        m.verdicts(&self.slow, rel_us)
    }

    fn seed_read_latency(&self, us: u64, n: usize) {
        for _ in 0..n {
            self.lat.borrow_mut().record_at(us, self.now.get());
        }
    }
}

impl BlockStore for Pool {
    fn put(&self, key: &BlockKey, data: &[u8]) -> DomainResult<()> {
        let t0 = self.now.get();
        let r = self.put_body(key, data);
        if r.is_ok() && uses_outboard(&self.cfg, key, data.len()) {
            let _ = self.put_body(&ob_key(key), &make_outboard(data));
        }
        self.metrics.borrow_mut().record_put(&r, self.now.get() - t0);
        r
    }

    fn get(&self, key: &BlockKey) -> DomainResult<Vec<u8>> {
        let t0 = self.now.get();
        let r = self.get_inner(key);
        let us = self.now.get() - t0;
        if self.metrics.borrow_mut().record_get(&r, us) {
            self.lat.borrow_mut().record_at(us, self.now.get());
        }
        r
    }

    fn stat(&self, key: &BlockKey) -> DomainResult<u64> {
        let order = if self.cfg.ec.is_some() {
            self.ranking_for(key, self.shards.len())
        } else {
            ask_order(&self.replicas_for(key), self.shards.len())
        };
        let mut p = Probe::new(order);
        let mut answer = None;
        loop {
            match p.next_size(answer) {
                Next::Ask(s) => answer = Some(self.shard(s).stat_obj(key)),
                Next::Done(r) => return r,
            }
        }
    }

    fn has(&self, key: &BlockKey) -> DomainResult<bool> {
        let mut p = Probe::new(ask_order(&self.replicas_for(key), self.shards.len()));
        let mut answer = None;
        loop {
            match p.next_key(answer) {
                Next::Ask(s) => answer = Some(self.shard(s).has(key)),
                Next::Done(r) => return r,
            }
        }
    }

    fn delete(&self, key: &BlockKey) -> DomainResult<()> {
        for k in delete_keys(&self.cfg, key) {
            for s in &self.shards {
                let _ = s.delete(&k);
            }
        }
        Ok(())
    }

    fn list(
        &self,
        prefix: &[u8],
        after: Option<&BlockKey>,
        limit: usize,
    ) -> DomainResult<Vec<(BlockKey, u64)>> {
        let mut lists = Vec::new();
        for s in &self.shards {
            lists.push(s.list(prefix, after, limit)?);
        }
        Ok(merge_lists(&lists, limit).into_iter().map(|(k, n)| (BlockKey::new(k), n)).collect())
    }
}

/// Weighted rendezvous hashing.
struct Rendezvous;

/// An integer that orders as the float does.
fn ordered(x: f64) -> i64 {
    let b = x.to_bits() as i64;
    b ^ (((b >> 63) as u64) >> 1) as i64
}

impl PlacementPolicy for Rendezvous {
    fn select(
        &self,
        key: &BlockKey,
        topology: &Vec<(ShardId, Capacity, ShardStatus)>,
        rf: usize,
    ) -> Vec<ShardId> {
        let candidates = topology
            .iter()
            .map(|(id, cap, st)| {
                let used = 1.0 - cap.free_bytes as f64 / cap.total_bytes as f64;
                let mut w = cap.free_bytes.max(1) as f64;
                if *st == ShardStatus::Suspect {
                    w *= 0.01;
                }
                let h = (placement_hash(key.as_bytes(), *id) as f64 + 1.0)
                    / (u64::MAX as f64 + 2.0);
                Candidate {
                    id: *id,
                    status: *st,
                    full: cap.total_bytes > 0 && used >= 0.95,
                    score: ordered(-w / h.ln()),
                }
            })
            .collect();
        placement::select(&candidates, rf)
    }
}

/// The shards in their order.
struct FixedPolicy;

impl PlacementPolicy for FixedPolicy {
    fn select(
        &self,
        _key: &BlockKey,
        topology: &Vec<(ShardId, Capacity, ShardStatus)>,
        rf: usize,
    ) -> Vec<ShardId> {
        topology.iter().take(rf).map(|(id, _, _)| *id).collect()
    }
}

fn mk_engine(d: &Shared) -> Rc<dyn Shard> {
    let cfg = EngineConfig {
        inline_min: 64,
        segment_max_size: 1 << 20,
        fsync_items: 16,
        ..Default::default()
    };
    Rc::new(DiskEngine::open(cfg, d.clone()))
}

fn mk_engines(d: &[Shared]) -> Vec<Rc<dyn Shard>> {
    d.iter().map(mk_engine).collect()
}

fn mirror(r: usize, w: usize) -> PoolConfig {
    PoolConfig {
        replicas: r,
        write_quorum: w,
        speculative_retry_after: None,
        ..Default::default()
    }
}

fn pool(d: &[Shared], r: usize, w: usize) -> Pool {
    Pool::new(mk_engines(d), Box::new(Rendezvous), mirror(r, w))
}

fn coded() -> PoolConfig {
    PoolConfig {
        replicas: 2,
        write_quorum: 2,
        ec: Some(EcConfig { data: 4, parity: 2, min_size: 4096, write_quorum: 5 }),
        ..Default::default()
    }
}

fn ec_pool(shards: Vec<Rc<dyn Shard>>) -> Pool {
    Pool::new(shards, Box::new(FixedPolicy), coded())
}

/// A shard that is slow, refuses writes, or counts its reads.
struct Tricky {
    inner: Rc<dyn Shard>,
    read_time: u64,
    write_time: u64,
    fails: Cell<bool>,
    gets: Cell<usize>,
}

fn tricky(inner: Rc<dyn Shard>, read_time: u64, write_time: u64) -> Rc<Tricky> {
    let (fails, gets) = (Cell::new(false), Cell::new(0));
    Rc::new(Tricky { inner, read_time, write_time, fails, gets })
}

impl Shard for Tricky {
    fn put(&self, key: &BlockKey, data: &[u8]) -> DomainResult<()> {
        if self.fails.get() {
            return Err(DomainError::Io("disk dead (injected)".to_string()));
        }
        self.inner.put(key, data)
    }

    fn put_meta(&self, key: &BlockKey, data: &[u8], obj: Option<u64>) -> DomainResult<()> {
        if self.fails.get() {
            return Err(DomainError::Io("disk dead (injected)".to_string()));
        }
        self.inner.put_meta(key, data, obj)
    }

    fn get(&self, key: &BlockKey) -> DomainResult<Vec<u8>> {
        self.gets.set(self.gets.get() + 1);
        self.inner.get(key)
    }

    fn has(&self, key: &BlockKey) -> DomainResult<bool> {
        self.inner.has(key)
    }

    fn delete(&self, key: &BlockKey) -> DomainResult<()> {
        self.inner.delete(key)
    }

    fn list(&self, p: &[u8], a: Option<&BlockKey>, l: usize) -> DomainResult<Vec<(Vec<u8>, u64)>> {
        self.inner.list(p, a, l)
    }

    fn usage(&self) -> DomainResult<Capacity> {
        self.inner.usage()
    }

    fn flush(&self) -> DomainResult<()> {
        self.inner.flush()
    }

    fn stat_obj(&self, key: &BlockKey) -> DomainResult<(u64, Option<u64>)> {
        self.inner.stat_obj(key)
    }

    fn read_time(&self) -> u64 {
        self.read_time
    }

    fn write_time(&self) -> u64 {
        self.write_time
    }
}

fn assert_fully_replicated(p: &Pool, keys: &[BlockKey]) {
    for key in keys {
        for s in p.replicas_for(key) {
            assert!(p.shard(s).has(key).unwrap(), "{key:?} is missing on {s:?}");
        }
    }
}

#[test]
fn pool_replicates_r2() {
    let d = disks(4);
    let p = pool(&d, 2, 2);
    let data = vec![5u8; 50_000];
    for i in 0..50 {
        p.put(&key(format!("/blocks/k{i}")), &data).unwrap();
    }
    p.flush_all().unwrap();
    for i in 0..50 {
        assert_eq!(p.get(&key(format!("/blocks/k{i}"))).unwrap(), data);
    }
    // two copies of each on the disks, each listed once
    let copies: usize = d.iter().map(|d| d.borrow().addr.len()).sum();
    assert_eq!(copies, 100);
    assert_eq!(p.list(b"/blocks/", None, 1000).unwrap().len(), 50);
}

#[test]
fn faulted_status_excludes_shard_from_placement() {
    let p = pool(&disks(3), 2, 2);
    let key = BlockKey::from("/blocks/st");
    p.state.borrow_mut().set_shard_status(0, ShardStatus::Faulted);
    let reps = p.replicas_for(&key);
    assert!(!reps.iter().any(|s| s.0 == 0), "faulted shard must be excluded: {reps:?}");
    p.put(&key, &[1u8; 10_000]).unwrap();
    p.state.borrow_mut().set_shard_status(0, ShardStatus::Online);
    assert_eq!(p.state.borrow().shard_status(0), Some(ShardStatus::Online));
}

#[test]
fn scrub_unrepairable_enqueues_urgent_retry() {
    let d = disks(2);
    let p = pool(&d, 2, 2);
    let key = BlockKey::from("/blocks/both-rot");
    let data = vec![0x77u8; 70_000];
    p.put(&key, &data).unwrap();
    p.flush_all().unwrap();
    // both copies are damaged: there is no source
    for d in &d {
        rot(d, "main/seg/seg.00000000.dat", 20 + key.len() + 500);
    }
    let rep = p.scrub_shard_step(0, None, 10).unwrap();
    assert_eq!(rep.unrepairable, 1, "{rep:?}");
    assert_eq!(p.mrf_len(), 1, "to be retried urgently");
    // written again, the request is served
    p.put(&key, &data).unwrap();
    assert_eq!(p.mrf_drain(10), (1, 0));
    assert_eq!(p.mrf_len(), 0);
}

#[test]
fn parallel_put_latency_is_max_not_sum() {
    // both legs take 150 ms to write: together 150, one after the other 300
    let d = disks(2);
    let slow = |d: &Shared| tricky(mk_engine(d), 0, 150_000) as Rc<dyn Shard>;
    let p = Pool::new(vec![slow(&d[0]), slow(&d[1])], Box::new(FixedPolicy), mirror(2, 2));
    p.put(&BlockKey::from("/blocks/par"), &[1u8; 10_000]).unwrap();
    assert!(p.now.get() < 260_000, "{} us", p.now.get());
}

#[test]
fn handoff_then_mrf_heals_when_disk_returns() {
    // the copies belong on 0 and 1; 1 is dead, so 2 takes its copy; when 1 is
    // back the queue puts the copy where it belongs
    let d = disks(3);
    let failing = tricky(mk_engine(&d[1]), 100, 100);
    let shards: Vec<Rc<dyn Shard>> = vec![mk_engine(&d[0]), failing.clone(), mk_engine(&d[2])];
    let p = Pool::new(shards, Box::new(FixedPolicy), mirror(2, 2));
    let key = BlockKey::from("/blocks/ho");
    let data = vec![9u8; 20_000];

    failing.fails.set(true);
    p.put(&key, &data).unwrap();
    assert_eq!(p.get(&key).unwrap(), data);
    assert_eq!(p.mrf_len(), 1);
    let m = p.metrics();
    assert_eq!((m.handoff_writes, m.mrf_enqueued, m.puts, m.gets), (1, 1, 1, 1));
    assert!(m.put_micros > 0);
    assert!(p.shards[2].has(&key).unwrap(), "a copy on the spare disk");
    assert!(!p.shards[1].has(&key).unwrap());

    // while the disk is dead the request goes back into the queue
    assert_eq!(p.mrf_drain(10), (0, 1));
    assert_eq!(p.mrf_len(), 1);

    failing.fails.set(false);
    assert_eq!(p.mrf_drain(10).0, 1);
    assert_eq!(p.mrf_len(), 0);
    assert!(p.shards[1].has(&key).unwrap(), "the copy is where it belongs");
    assert_eq!(p.metrics().mrf_healed, 1);
}

#[test]
fn scrub_detects_bitrot_and_heals_from_replica() {
    let d = disks(2);
    let p = pool(&d, 2, 2);
    let key = BlockKey::from("/blocks/rot");
    let data = vec![0x5Au8; 80_000];
    p.put(&key, &data).unwrap();
    p.flush_all().unwrap();

    let victim = p.replicas_for(&key)[0].0 as usize;
    rot(&d[victim], "main/seg/seg.00000000.dat", 16 + key.len() + 1000);

    let rep = p.scrub_shard_step(victim, None, 100).unwrap();
    assert_eq!((rep.corrupt, rep.repaired, rep.unrepairable), (1, 1, 0), "{rep:?}");
    assert_eq!(p.shards[victim].get(&key).unwrap(), data);
    let rep2 = p.scrub_shard_step(victim, None, 100).unwrap();
    assert_eq!(rep2.corrupt, 0);
}

#[test]
fn capacity_override_drives_placement() {
    let p = pool(&disks(3), 2, 2);
    let cap = Capacity { total_bytes: 100, free_bytes: 2 }; // 98% used
    p.state.borrow_mut().set_shard_capacity(0, cap);
    let reps = p.replicas_for(&BlockKey::from("/blocks/cap"));
    assert!(!reps.iter().any(|s| s.0 == 0), "{reps:?}");
}

#[test]
fn resilver_rebuilds_replaced_disk() {
    let mut d = disks(3);
    let keys: Vec<BlockKey> = (0..40).map(|i| key(format!("/blocks/rs{i:02}"))).collect();
    let big = vec![4u8; 30_000];
    let small = vec![5u8; 40]; // in the index
    {
        let p = pool(&d, 2, 2);
        for (i, k) in keys.iter().enumerate() {
            p.put(k, if i % 4 == 0 { &small } else { &big }).unwrap();
        }
        p.flush_all().unwrap();
    }
    // disk 1 is replaced by an empty one
    d[1] = disk();
    let p2 = pool(&d, 2, 2);
    let rep = p2.resilver_full(8).unwrap();
    assert!(rep.repaired > 0, "must repair replicas lost with disk 1");
    assert_eq!(rep.errors, 0);
    assert_fully_replicated(&p2, &keys);
    // a second pass copies nothing
    let rep2 = p2.resilver_full(8).unwrap();
    assert_eq!(rep2.repaired, 0, "second pass must be a no-op");
    for k in &keys {
        assert!(p2.get(k).is_ok());
    }
}

#[test]
fn resilver_populates_added_disk() {
    let mut d = disks(2);
    let keys: Vec<BlockKey> = (0..40).map(|i| key(format!("/blocks/ad{i:02}"))).collect();
    let data = vec![6u8; 20_000];
    {
        let p = pool(&d, 2, 2);
        for k in &keys {
            p.put(k, &data).unwrap();
        }
        p.flush_all().unwrap();
    }
    d.push(disk());
    let p3 = pool(&d, 2, 2);
    let rep = p3.resilver_full(8).unwrap();
    assert_eq!(rep.errors, 0);
    assert!(rep.repaired > 0, "some copies belong on the new disk");
    assert_fully_replicated(&p3, &keys);
    let on_new = keys.iter().filter(|k| p3.shards[2].has(k).unwrap_or(false)).count();
    assert!(on_new > 0);
}

#[test]
fn speculative_retry_hedges_slow_read_leg() {
    // the first copy takes 300 ms; after 30 ms the second is asked too
    let d = disks(2);
    let slow0 = tricky(mk_engine(&d[0]), 300_000, 100);
    let cfg = PoolConfig { speculative_retry_after: Some(30), ..mirror(2, 2) };
    let p = Pool::new(vec![slow0, mk_engine(&d[1])], Box::new(FixedPolicy), cfg);
    let key = BlockKey::from("/blocks/hot");
    let data = vec![3u8; 20_000];
    p.put(&key, &data).unwrap();
    p.flush_all().unwrap();
    let t0 = p.now.get();
    assert_eq!(p.get(&key).unwrap(), data);
    let el = p.now.get() - t0;
    assert!(el < 250_000, "{el} us");
}

#[test]
fn write_mostly_fallback_on_read_leg_failure() {
    let d = disks(2);
    let p = pool(&d, 2, 2);
    let key = BlockKey::from("/blocks/wm");
    let data = vec![8u8; 25_000];
    p.put(&key, &data).unwrap();
    p.flush_all().unwrap();
    lose_segments(&d[p.replicas_for(&key)[0].0 as usize]);
    assert_eq!(p.get(&key).unwrap(), data, "the other copy answers");
}

#[test]
fn survives_one_disk_loss_r2() {
    let d = disks(3);
    let p = pool(&d, 2, 1);
    let data = vec![6u8; 30_000];
    let key = BlockKey::from("/blocks/important");
    p.put(&key, &data).unwrap();
    p.flush_all().unwrap();
    lose_segments(&d[p.replicas_for(&key)[0].0 as usize]);
    assert_eq!(p.get(&key).unwrap(), data);
}

#[test]
fn resilver_full_resumes_from_persisted_cursor_and_clears_it() {
    let d = disks(2);
    let shards = mk_engines(&d);
    let shard0 = shards[0].clone();
    let p = Pool::new(shards, Box::new(FixedPolicy), mirror(2, 2));
    for i in 0..10u8 {
        p.put(&key(format!("/blocks/k{i:02}")), &vec![i; 9000]).unwrap();
    }
    p.flush_all().unwrap();

    // a restart in the middle of a walk
    shard0.save_cursor("resilver", Some(&BlockKey::from("/blocks/k04"))).unwrap();
    let r = p.resilver_full(3).unwrap();
    assert!(r.done);
    assert_eq!(r.scanned, 5, "it goes on behind k04");
    assert_eq!(shard0.load_cursor("resilver").unwrap(), None, "forgotten at the end");
    // the next walk starts from the beginning
    let r2 = p.resilver_full(100).unwrap();
    assert_eq!(r2.scanned, 10);
}

#[test]
fn bg_throttle_paces_resilver_but_not_foreground() {
    let d = disks(2);
    let shards = mk_engines(&d);
    let throttled = BgThrottleConfig {
        max_bytes_per_sec: 128 * 1024,
        min_bytes_per_sec: 128 * 1024,
        fg_busy_micro_ops: u64::MAX,
    };
    // one copy of each key, on shard 0
    {
        let one = mirror(1, 1);
        let p1 = Pool::throttled(shards.clone(), Box::new(FixedPolicy), one, throttled);
        for i in 0..3u8 {
            p1.put(&key(format!("/blocks/th{i}")), &vec![i; 32 * 1024]).unwrap();
        }
        assert!(p1.now.get() < 200_000, "writes are not paced");
        p1.flush_all().unwrap();
    }
    // with two copies wanted, a walk pays for each it writes
    let p2 = Pool::throttled(shards, Box::new(FixedPolicy), mirror(2, 2), throttled);
    let r = p2.resilver_full(10).unwrap();
    assert_eq!(r.repaired, 3);
    // 3 repairs of 64 KiB with 128 KiB at hand: a debt of 64 KiB, half a second
    assert!(p2.now.get() >= 300_000, "{} us", p2.now.get());
    let m = p2.metrics();
    assert!(m.bg_throttle_waits >= 1);
    assert!(m.bg_throttle_bytes >= 192 * 1024);
}

#[test]
fn ec_roundtrip_pieces_on_disks_and_small_stays_mirror() {
    let d = disks(6);
    let shards = mk_engines(&d);
    let p = ec_pool(shards.clone());
    let data: Vec<u8> = (0..300_000u32).map(|i| (i % 253) as u8).collect();
    let k = BlockKey::from("/blocks/ec-big");
    p.put(&k, &data).unwrap();
    p.flush_all().unwrap();
    // each disk holds a piece, not the body
    let want = 300_000usize.div_ceil(4) + EC_HEADER_LEN;
    for (i, s) in shards.iter().enumerate() {
        let piece = s.get(&k).unwrap();
        assert_eq!(piece.len(), want, "shard {i}");
        assert_eq!(parse_piece_header(&piece).unwrap().piece_idx as usize, i);
    }
    assert_eq!(p.get(&k).unwrap(), data);
    assert_eq!(p.stat(&k).unwrap(), 300_000);
    let on_disk: usize = shards.iter().map(|s| s.get(&k).unwrap().len()).sum();
    assert!(on_disk < 460_000, "one and a half times the body: {on_disk}");

    // a small body stays mirrored
    let small = vec![7u8; 1000];
    let ks = BlockKey::from("/blocks/ec-small");
    p.put(&ks, &small).unwrap();
    assert_eq!(shards.iter().filter(|s| s.has(&ks).unwrap()).count(), 2);
    assert_eq!(p.get(&ks).unwrap(), small);
    assert_eq!(p.stat(&ks).unwrap(), 1000);
}

#[test]
fn ec_degraded_read_survives_m_disk_losses() {
    let d = disks(6);
    let p = ec_pool(mk_engines(&d));
    let data: Vec<u8> = (0..200_000u32).map(|i| (i * 13 % 256) as u8).collect();
    let k = BlockKey::from("/blocks/ec-deg");
    p.put(&k, &data).unwrap();
    p.flush_all().unwrap();
    // two data pieces are lost
    lose_segments(&d[0]);
    lose_segments(&d[2]);
    assert_eq!(p.get(&k).unwrap(), data);
    assert!(p.metrics().ec_reconstructs >= 1);
    // a third loss is one too many
    lose_segments(&d[1]);
    assert!(p.get(&k).is_err());
}

#[test]
fn ec_resilver_reconstructs_piece_on_replaced_disk() {
    let d = disks(6);
    let shards = mk_engines(&d);
    let data: Vec<u8> = (0..150_000u32).map(|i| (i * 31 % 256) as u8).collect();
    let k = BlockKey::from("/blocks/ec-rsv");
    {
        let p = ec_pool(shards.clone());
        p.put(&k, &data).unwrap();
        p.flush_all().unwrap();
    }
    // the disk of rank 3 is replaced
    let mut shards2 = shards.clone();
    shards2[3] = mk_engine(&disk());
    let p = ec_pool(shards2.clone());
    assert!(!shards2[3].has(&k).unwrap());
    let r = p.resilver_full(10).unwrap();
    assert!(r.repaired >= 1, "{r:?}");
    let piece = shards2[3].get(&k).unwrap();
    assert_eq!(parse_piece_header(&piece).unwrap().piece_idx, 3);
    assert_eq!(piece, shards[3].get(&k).unwrap(), "bit for bit");
    let r2 = p.resilver_full(10).unwrap();
    assert_eq!(r2.repaired, 0);
    // it survives two more losses
    lose_segments(&d[0]);
    lose_segments(&d[5]);
    assert_eq!(p.get(&k).unwrap(), data);
}

#[test]
fn ec_scrub_heals_corrupt_piece_by_reconstruction() {
    let d = disks(6);
    let shards = mk_engines(&d);
    let p = ec_pool(shards.clone());
    let data: Vec<u8> = (0..120_000u32).map(|i| (i * 7 % 256) as u8).collect();
    let k = BlockKey::from("/blocks/ec-rot");
    p.put(&k, &data).unwrap();
    p.flush_all().unwrap();
    rot(&d[4], "main/seg/seg.00000000.dat", 20 + k.len() + 700);
    let good = shards[0].get(&k).unwrap();
    let rep = p.scrub_shard_step(4, None, 100).unwrap();
    assert_eq!(rep.corrupt, 1, "{rep:?}");
    assert_eq!(rep.repaired, 1);
    let healed = shards[4].get(&k).unwrap();
    assert_eq!(parse_piece_header(&healed).unwrap().piece_idx, 4);
    assert_ne!(healed, good, "its own piece, not a copy of another");
    assert_eq!(p.get(&k).unwrap(), data);
}

#[test]
fn migrate_converts_mirror_era_to_ec_with_canary() {
    let d = disks(6);
    let shards = mk_engines(&d);
    let big: Vec<u8> = (0..200_000u32).map(|i| (i % 249) as u8).collect();
    let small = vec![5u8; 800];
    let kb = BlockKey::from("/blocks/mig-big");
    let ks = BlockKey::from("/blocks/mig-small");
    {
        let p = Pool::new(shards.clone(), Box::new(FixedPolicy), mirror(2, 2));
        p.put(&kb, &big).unwrap();
        p.put(&ks, &small).unwrap();
        p.flush_all().unwrap();
    }
    let p = ec_pool(shards.clone());
    assert_eq!(p.get(&kb).unwrap(), big, "mirrored bodies read before the migration");
    let r = p.migrate_full(10).unwrap();
    assert_eq!(r.migrated, 1, "{r:?}");
    assert_eq!(r.skipped_small, 1, "{r:?}");
    assert_eq!(r.canary_failed + r.errors, 0, "{r:?}");
    for (i, s) in shards.iter().enumerate() {
        let piece = s.get(&kb).unwrap();
        assert_eq!(parse_piece_header(&piece).unwrap().piece_idx as usize, i);
    }
    assert_eq!(p.get(&kb).unwrap(), big);
    assert_eq!(p.get(&ks).unwrap(), small);
    assert_eq!(p.stat(&kb).unwrap(), 200_000);
    // a second pass migrates nothing
    let r2 = p.migrate_full(10).unwrap();
    assert_eq!((r2.migrated, r2.skipped_ec, r2.skipped_small), (0, 1, 1), "{r2:?}");
    assert_eq!(shards[0].load_cursor("migrate").unwrap(), None);
    lose_segments(&d[1]);
    lose_segments(&d[4]);
    assert_eq!(p.get(&kb).unwrap(), big);
}

#[test]
fn migrate_canary_failure_leaves_mirror_untouched() {
    let d = disks(6);
    let mut shards = mk_engines(&d);
    let failing = tricky(shards[4].clone(), 100, 100);
    shards[4] = failing.clone();
    let big: Vec<u8> = (0..150_000u32).map(|i| (i % 241) as u8).collect();
    let k = BlockKey::from("/blocks/mig-can");
    {
        let p = Pool::new(shards.clone(), Box::new(FixedPolicy), mirror(2, 2));
        p.put(&k, &big).unwrap();
        p.flush_all().unwrap();
    }
    let p = ec_pool(shards.clone());
    failing.fails.set(true);
    let r = p.migrate_full(10).unwrap();
    assert_eq!(r.migrated, 0, "{r:?}");
    assert_eq!(r.errors, 1, "{r:?}");
    // both copies are bodies still
    for i in [0usize, 1] {
        assert!(parse_piece_header(&shards[i].get(&k).unwrap()).is_none(), "copy {i}");
    }
    // and nothing is left behind them
    for i in [2usize, 3, 5] {
        assert!(!shards[i].has(&k).unwrap(), "shard {i}");
    }
    assert_eq!(p.get(&k).unwrap(), big);
    failing.fails.set(false);
    let r2 = p.migrate_full(10).unwrap();
    assert_eq!(r2.migrated, 1, "{r2:?}");
    assert_eq!(p.get(&k).unwrap(), big);
}

#[test]
fn migrate_full_resumes_from_persisted_cursor() {
    let d = disks(6);
    let shards = mk_engines(&d);
    {
        let p = Pool::new(shards.clone(), Box::new(FixedPolicy), mirror(2, 2));
        for i in 0..6u8 {
            p.put(&key(format!("/blocks/mg{i}")), &vec![i; 20_000]).unwrap();
        }
        p.flush_all().unwrap();
    }
    let p = ec_pool(shards.clone());
    shards[0].save_cursor("migrate", Some(&BlockKey::from("/blocks/mg2"))).unwrap();
    let r = p.migrate_full(2).unwrap();
    assert!(r.scanned < 6, "{r:?}");
    assert_eq!(r.migrated, 3, "mg3 to mg5: {r:?}");
    assert_eq!(shards[0].load_cursor("migrate").unwrap(), None);
    let r2 = p.migrate_full(10).unwrap();
    assert_eq!(r2.migrated, 3, "mg0 to mg2: {r2:?}");
    for i in 0..6u8 {
        assert_eq!(p.get(&key(format!("/blocks/mg{i}"))).unwrap(), vec![i; 20_000]);
    }
}

#[test]
fn ec_head_and_list_logical_without_body_reads() {
    let d = disks(6);
    let counting: Vec<Rc<Tricky>> =
        d.iter().map(|d| tricky(mk_engine(d), 100, 100)).collect();
    let shards = counting.iter().map(|c| c.clone() as Rc<dyn Shard>).collect();
    let p = ec_pool(shards);
    let k = BlockKey::from("/blocks/era");
    p.put(&k, &vec![3u8; 123_456]).unwrap();
    p.flush_all().unwrap();
    let gets = || counting.iter().map(|c| c.gets.get()).sum::<usize>();
    let before = gets();
    assert_eq!(p.stat(&k).unwrap(), 123_456);
    let listed = p.list(b"/blocks/", None, 10).unwrap();
    assert_eq!(listed[0].1, 123_456);
    assert_eq!(gets() - before, 0, "no body was read");
}

#[test]
fn outboard_lifecycle_with_ec_and_verified_range() {
    let d = disks(6);
    let cfg = PoolConfig { outboard: Some(ObConfig { min_size: 8192 }), ..coded() };
    let p = Pool::new(mk_engines(&d), Box::new(FixedPolicy), cfg);
    let body: Vec<u8> = (0..300_000u32).map(|i| (i % 247) as u8).collect();
    let k = BlockKey::from("/blocks/ob-big");
    p.put(&k, &body).unwrap();
    let okk = ob_key(&k);
    assert!(p.has(&okk).unwrap());
    let ob = p.get(&okk).unwrap();
    let got = verified_slice(&p.get(&k).unwrap(), &ob, 100_000, 5000).unwrap();
    assert_eq!(got, &body[100_000..105_000]);
    // a listing of blocks does not see the outboard
    let listed = p.list(b"/blocks/", None, 10).unwrap();
    assert_eq!(listed.len(), 1, "{listed:?}");
    // a small body has none
    let ks = BlockKey::from("/blocks/ob-small");
    p.put(&ks, &[1u8; 1000]).unwrap();
    assert!(!p.has(&ob_key(&ks)).unwrap());
    // both are deleted
    p.delete(&k).unwrap();
    assert!(!p.has(&k).unwrap());
    assert!(!p.has(&okk).unwrap());
}

#[test]
fn migrate_backfills_era_bit_for_legacy_pieces() {
    let d = disks(6);
    let shards = mk_engines(&d);
    let body: Vec<u8> = (0..100_000u32).map(|i| (i % 239) as u8).collect();
    let k = BlockKey::from("/blocks/legacy-ec");
    // pieces written without the length of their object
    let code = EcConfig { data: 4, parity: 2, ..Default::default() };
    let pieces = ec_encode(&body, &code).unwrap();
    for (i, s) in shards.iter().enumerate() {
        s.put(&k, &pieces[i]).unwrap();
        s.flush().unwrap();
    }
    let p = ec_pool(shards.clone());
    assert_eq!(p.stat(&k).unwrap(), pieces[0].len() as u64, "the length of a piece");
    let r = p.migrate_full(10).unwrap();
    assert_eq!((r.migrated, r.skipped_ec), (0, 1), "{r:?}");
    assert_eq!(p.metrics().migrate_era_backfilled, 6);
    assert_eq!(p.stat(&k).unwrap(), 100_000);
    assert_eq!(p.list(b"/blocks/", None, 10).unwrap()[0].1, 100_000);
    for s in &shards {
        assert_eq!(s.stat_obj(&k).unwrap().1, Some(100_000));
    }
    let r2 = p.migrate_full(10).unwrap();
    assert_eq!(r2.skipped_ec, 1);
    assert_eq!(p.metrics().migrate_era_backfilled, 6, "nothing is done twice");
    assert_eq!(p.get(&k).unwrap(), body);
}

#[test]
fn adaptive_hedge_tracks_p99_and_clamps_to_floor() {
    let d = disks(2);
    let slow0 = tricky(mk_engine(&d[0]), 300_000, 100);
    let cfg = PoolConfig { adaptive_hedge: true, ..mirror(2, 2) };
    let p = Pool::new(vec![slow0, mk_engine(&d[1])], Box::new(FixedPolicy), cfg);
    let k = BlockKey::from("/blocks/p99");
    let data = vec![4u8; 20_000];
    p.put(&k, &data).unwrap();
    p.flush_all().unwrap();

    // without samples there is no threshold: the slow copy is waited for
    let t0 = p.now.get();
    assert_eq!(p.get(&k).unwrap(), data);
    assert!(p.now.get() - t0 >= 280_000);
    assert_eq!(p.metrics().hedged_reads, 0);

    // an even 3 ms: the floor of 10 ms holds
    p.seed_read_latency(3_000, 200);
    let t0 = p.now.get();
    assert_eq!(p.get(&k).unwrap(), data);
    assert!(p.now.get() - t0 < 250_000);
    assert!(p.metrics().hedged_reads >= 1);
    assert_eq!(p.metrics().hedge_threshold_ms, 10);
    // slow reads raise it
    p.seed_read_latency(300_000, 200);
    let _ = p.hedge_threshold();
    let thr = p.metrics().hedge_threshold_ms;
    assert!(thr >= 300, "{thr} ms");
}

#[test]
fn disk_slow_flag_demotes_shard_from_read_leg_and_placement() {
    let d = disks(3);
    let raw = mk_engines(&d);
    let slow0 = tricky(raw[0].clone(), 200_000, 200_000);
    let cfg = PoolConfig { adaptive_hedge: false, ..mirror(2, 1) };
    let shards: Vec<Rc<dyn Shard>> = vec![slow0, raw[1].clone(), raw[2].clone()];
    let mut p = Pool::new(shards, Box::new(Rendezvous), cfg);
    p.slow = DiskSlowConfig { abs_floor_ms: 60, min_samples: 16 };
    for i in 0..40u8 {
        let k = key(format!("/blocks/ds{i:02}"));
        p.put(&k, &vec![i; 9000]).unwrap();
        let _ = p.get(&k);
    }
    let v = p.disk_slow_verdicts(3.0);
    assert!(v[0], "ewma={} ms", p.monitor.borrow().ewma_ms(0));
    assert!(!v[1] && !v[2], "{v:?}");

    p.state.borrow_mut().set_shard_slow(0, true);
    assert!(p.state.borrow().shard_slow(0));
    let wins = (0..20)
        .filter(|i| {
            p.replicas_for(&key(format!("/blocks/probe{i}"))).first() == Some(&ShardId(0))
        })
        .count();
    assert!(wins <= 1, "a slow shard is not read first: {wins} of 20");
    p.state.borrow_mut().set_shard_slow(0, false);
    assert!(!p.state.borrow().shard_slow(0));
}

#[test]
fn quorum_that_cannot_be_reached_is_reported() {
    let d = disks(2);
    let dead = tricky(mk_engine(&d[1]), 100, 100);
    dead.fails.set(true);
    let p = Pool::new(vec![mk_engine(&d[0]), dead], Box::new(FixedPolicy), mirror(2, 2));
    let e = p.put(&BlockKey::from("/k"), &[1u8; 100]).unwrap_err();
    assert!(matches!(e, DomainError::Io(_)), "the last error: {e:?}");
    assert_eq!(p.metrics().put_errors, 1);
    // no shard at all to write to
    for i in 0..2 {
        p.state.borrow_mut().set_shard_status(i, ShardStatus::Faulted);
    }
    let p = Pool::new(mk_engines(&d), Box::new(Rendezvous), mirror(2, 2));
    for i in 0..2 {
        p.state.borrow_mut().set_shard_status(i, ShardStatus::Faulted);
    }
    let e = p.put(&BlockKey::from("/k"), &[1u8; 100]).unwrap_err();
    assert!(matches!(e, DomainError::QuorumNotReached { ok: 0, want: 2 }), "{e:?}");
}

#[test]
fn a_key_nobody_has_is_not_found() {
    let p = pool(&disks(3), 2, 2);
    let k = BlockKey::from("/blocks/none");
    assert!(matches!(p.get(&k), Err(DomainError::NotFound)));
    assert!(matches!(p.stat(&k), Err(DomainError::NotFound)));
    assert!(!p.has(&k).unwrap());
    assert_eq!(p.metrics().get_not_found, 1);
    assert!(matches!(p.repair_key(&k), Err(DomainError::NotFound)));
    let e = ec_pool(mk_engines(&disks(6))).repair_key(&k).unwrap_err();
    assert!(matches!(e, DomainError::Io(_)), "no source: {e:?}");
}

/// A store that counts its reads.
struct Counting {
    data: RefCell<BTreeMap<BlockKey, Vec<u8>>>,
    gets: Cell<usize>,
}

fn counting() -> Rc<Counting> {
    Rc::new(Counting { data: RefCell::new(BTreeMap::new()), gets: Cell::new(0) })
}

impl Counting {
    fn get(&self, key: &BlockKey) -> DomainResult<Vec<u8>> {
        self.gets.set(self.gets.get() + 1);
        self.data.borrow().get(key).cloned().ok_or(DomainError::NotFound)
    }

    fn put(&self, key: &BlockKey, data: &[u8]) {
        self.data.borrow_mut().insert(key.clone(), data.to_vec());
    }
}

/// A fast disk in front of a store.
struct CacheTier {
    inner: Rc<Counting>,
    cache: DiskEngine,
    cfg: CacheConfig,
    bytes: Cell<u64>,
    metrics: RefCell<OpsMetrics>,
}

impl CacheTier {
    fn new(inner: Rc<Counting>, d: &Shared, max_bytes: u64, seg_max: u64) -> CacheTier {
        let cfg = EngineConfig {
            segment_max_size: seg_max,
            inline_min: 64,
            fsync_items: 1024,
            ..Default::default()
        };
        let cache = DiskEngine::open(cfg, d.clone());
        let bytes = Cell::new(cache.data_bytes().unwrap());
        CacheTier {
            inner,
            cache,
            cfg: CacheConfig { max_bytes, min_size: 256 },
            bytes,
            metrics: RefCell::new(OpsMetrics::default()),
        }
    }

    fn fill(&self, key: &BlockKey, body: &[u8]) -> bool {
        if self.cache.put(key, body).is_err() {
            return false;
        }
        self.bytes.set(self.bytes.get() + body.len() as u64);
        let mut evicting = cache::needs_eviction(self.bytes.get(), self.cfg.max_bytes, false);
        while evicting {
            let (freed, _) = self.cache.evict_oldest_segment().unwrap();
            let (left, more) = cache::evicted(self.bytes.get(), self.cfg.max_bytes, freed);
            self.bytes.set(left);
            if freed > 0 {
                self.metrics.borrow_mut().cache_evicted_segments += 1;
            }
            evicting = more;
        }
        true
    }

    fn get(&self, key: &BlockKey) -> DomainResult<Vec<u8>> {
        let (mut run, mut a) = TierRead::begin(&self.cfg);
        loop {
            let ev = match a {
                TierAction::AskCache => TierEvent::Answer(self.cache.get(key)),
                TierAction::DropCopy => {
                    let _ = self.cache.delete(key);
                    TierEvent::Dropped
                }
                TierAction::AskPool => TierEvent::Answer(self.inner.get(key)),
                TierAction::Fill(b) => TierEvent::Filled(self.fill(key, &b)),
                TierAction::Return(r) => return r,
            };
            let (next, n) = run.advance(ev);
            let mut m = self.metrics.borrow_mut();
            m.cache_hits += n.hits;
            m.cache_misses += n.misses;
            m.cache_self_heals += n.self_heals;
            m.cache_populated_bytes += n.populated_bytes;
            a = next;
        }
    }

    fn put(&self, key: &BlockKey, body: &[u8]) {
        self.inner.put(key, body);
        if cache::caches(&self.cfg, body.len()) {
            self.fill(key, body);
        }
    }
}

#[test]
fn write_through_then_reads_hit_nvme_leg() {
    let inner = counting();
    let t = CacheTier::new(inner.clone(), &disk(), 0, 1 << 20);
    let k = BlockKey::from("/blocks/hot");
    let body = vec![7u8; 50_000];
    t.put(&k, &body);
    assert!(inner.data.borrow().contains_key(&k), "written through");
    for _ in 0..5 {
        assert_eq!(t.get(&k).unwrap(), body);
    }
    assert_eq!(inner.gets.get(), 0);
    assert_eq!(t.metrics.borrow().cache_hits, 5);
    // a small body is not cached
    let ks = BlockKey::from("/blocks/tiny");
    t.put(&ks, &[1u8; 100]);
    assert_eq!(t.get(&ks).unwrap(), vec![1u8; 100]);
    assert_eq!(inner.gets.get(), 1);
}

#[test]
fn miss_populates_and_corruption_self_heals() {
    let inner = counting();
    let d = disk();
    let t = CacheTier::new(inner.clone(), &d, 0, 1 << 20);
    let k = BlockKey::from("/blocks/mh");
    let body: Vec<u8> = (0..40_000u32).map(|i| (i % 251) as u8).collect();
    inner.put(&k, &body); // past the cache

    assert_eq!(t.get(&k).unwrap(), body); // a miss
    assert_eq!(inner.gets.get(), 1);
    assert_eq!(t.get(&k).unwrap(), body); // a hit
    assert_eq!(inner.gets.get(), 1);

    t.cache.flush().unwrap();
    rot(&d, "main/seg/seg.00000000.dat", 20 + k.len() + 1000);
    assert_eq!(t.get(&k).unwrap(), body, "the store's body for a bad copy");
    assert_eq!(t.metrics.borrow().cache_self_heals, 1);
    assert_eq!(inner.gets.get(), 2);
    // healed
    assert_eq!(t.get(&k).unwrap(), body);
    assert_eq!(inner.gets.get(), 2);
}

#[test]
fn fifo_eviction_keeps_budget_and_serves_from_pool() {
    let inner = counting();
    // segments of 32 KiB, a budget of 100 KiB
    let t = CacheTier::new(inner.clone(), &disk(), 100 * 1024, 32 * 1024);
    let body = |i: u8| vec![i; 16 * 1024];
    for i in 0..20u8 {
        t.put(&key(format!("/blocks/ev{i:02}")), &body(i));
    }
    assert!(t.metrics.borrow().cache_evicted_segments >= 3);
    assert!(t.bytes.get() <= 110 * 1024, "{}", t.bytes.get());
    // the newest is still cached
    assert_eq!(t.get(&BlockKey::from("/blocks/ev19")).unwrap(), body(19));
    assert!(t.metrics.borrow().cache_hits >= 1);
    // all of it reads, what was evicted from the store
    for i in 0..20u8 {
        assert_eq!(t.get(&key(format!("/blocks/ev{i:02}"))).unwrap(), body(i), "ev{i:02}");
    }
    assert!(inner.gets.get() >= 1);
    assert!(t.bytes.get() <= 110 * 1024, "{}", t.bytes.get());
}

#[test]
fn coalescing_collapses_concurrent_reads_to_one() {
    // eight readers of a cold key: the leader reads, the others share its result
    let inner = counting();
    let t = CacheTier::new(inner.clone(), &disk(), 0, 1 << 20);
    let k = BlockKey::from("/blocks/viral");
    let body = vec![9u8; 30_000];
    inner.put(&k, &body);
    let led = t.get(&k);
    for _ in 0..7 {
        assert_eq!(cache::follow(cache::share(&led)).unwrap(), body);
    }
    assert_eq!(led.unwrap(), body);
    assert_eq!(inner.gets.get(), 1);
    // hot from here on
    assert_eq!(t.get(&k).unwrap(), body);
    assert_eq!(inner.gets.get(), 1);
    // a miss is shared as a miss, an error as an error
    let missed = cache::follow(cache::share(&Err(DomainError::NotFound)));
    assert!(matches!(missed, Err(DomainError::NotFound)));
    let failed = cache::follow(cache::share(&Err(DomainError::Io("x".to_string()))));
    assert!(matches!(failed, Err(DomainError::Io(_))));
}

#[test]
fn delete_invalidates_both_legs() {
    let inner = counting();
    let t = CacheTier::new(inner.clone(), &disk(), 0, 1 << 20);
    let k = BlockKey::from("/blocks/gone");
    t.put(&k, &[3u8; 10_000]);
    assert!(t.get(&k).is_ok());
    inner.data.borrow_mut().remove(&k);
    t.cache.delete(&k).unwrap();
    assert!(matches!(t.get(&k), Err(DomainError::NotFound)));
    assert!(!t.cache.has(&k).unwrap());
}
