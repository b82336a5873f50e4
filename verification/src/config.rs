//! Settings of the daemon: what holds by default, what is refused, what follows from them.
use vstd::prelude::*;
use vstd::string::*;
use crate::domain::ShardStatus;
use crate::engine::EngineConfig;
use crate::erasure::EcConfig;
use crate::health::Observation;
use crate::text;

verus! {

/// By default: the clock skew of signatures, in seconds.
pub fn default_skew() -> (r: i64)
    ensures
        r == 900,
{
    900
}

/// By default: smaller bodies are not cached.
pub fn default_cache_min() -> (r: usize)
    ensures
        r == 4096,
{
    4096
}

/// By default: the size of a segment of the cache.
pub fn default_cache_seg() -> (r: u64)
    ensures
        r == 268435456,
{
    268435456
}

/// By default: copies of each object.
pub fn default_r() -> (r: usize)
    ensures
        r == 2,
{
    2
}

/// By default: writes that have to succeed.
pub fn default_w() -> (r: usize)
    ensures
        r == 2,
{
    2
}

/// By default: how long free space is remembered, in seconds.
pub fn default_ttl() -> (r: u64)
    ensures
        r == 5,
{
    5
}

/// By default: when a second copy is asked, in milliseconds.
pub fn default_spec_ms() -> (r: u64)
    ensures
        r == 100,
{
    100
}

/// By default: seconds between collections.
pub fn default_gc_interval() -> (r: u64)
    ensures
        r == 300,
{
    300
}

/// By default: seconds between looks at the pools.
pub fn default_zfs_health_interval() -> (r: u64)
    ensures
        r == 30,
{
    30
}

/// By default: failures in a row before a disk is demoted.
pub fn default_suspect_after() -> (r: u32)
    ensures
        r == 3,
{
    3
}

/// By default: good observations in a row before it is trusted.
pub fn default_recover_after() -> (r: u32)
    ensures
        r == 2,
{
    2
}

/// By default: seconds between scrubs.
pub fn default_scrub_interval() -> (r: u64)
    ensures
        r == 600,
{
    600
}

/// By default: keys of a shard per scrub.
pub fn default_scrub_keys() -> (r: usize)
    ensures
        r == 5000,
{
    5000
}

/// By default: switched on.
pub fn default_true() -> (r: bool)
    ensures
        r == true,
{
    true
}

/// By default: repairs at a time.
pub fn default_heal_par() -> (r: usize)
    ensures
        r == 4,
{
    4
}

/// By default: bytes per second of background work, at most.
pub fn default_bg_max() -> (r: u64)
    ensures
        r == 67108864,
{
    67108864
}

/// By default: bytes per second of background work, at least.
pub fn default_bg_min() -> (r: u64)
    ensures
        r == 4194304,
{
    4194304
}

/// By default: smaller bodies get no outboard.
pub fn default_ob_min() -> (r: usize)
    ensures
        r == 262144,
{
    262144
}

/// By default: keys per migration step.
pub fn default_migrate_keys() -> (r: usize)
    ensures
        r == 2000,
{
    2000
}

/// By default: seconds between looks at latencies.
pub fn default_disk_slow_interval() -> (r: u64)
    ensures
        r == 10,
{
    10
}

/// By default: milliseconds below which no disk is slow.
pub fn default_disk_slow_floor() -> (r: u64)
    ensures
        r == 250,
{
    250
}

/// By default: data pieces.
pub fn default_ec_data() -> (r: usize)
    ensures
        r == 4,
{
    4
}

/// By default: parity pieces.
pub fn default_ec_parity() -> (r: usize)
    ensures
        r == 2,
{
    2
}

/// By default: smaller bodies stay mirrored.
pub fn default_ec_min() -> (r: usize)
    ensures
        r == 65536,
{
    65536
}

/// By default: repairs that may touch one shard at a time.
pub fn default_heal_cap() -> (r: usize)
    ensures
        r == 2,
{
    2
}

/// By default: bodies are mirrored.
pub fn default_redundancy() -> (r: String)
    ensures
        r@ == "mirror"@,
{
    "mirror".to_owned()
}

/// Why a set of disks cannot hold the copies, if it cannot.
pub open spec fn disk_fault(disks: nat, replicas: nat) -> Option<Seq<char>> {
    if disks == 0 {
        Some("config: at least one disk required"@)
    } else if replicas > disks {
        Some(
            "config: replicas R="@ + text::dec_chars(replicas) + " > disks "@ + text::dec_chars(
                disks,
            ),
        )
    } else {
        None
    }
}

pub fn check_disks(disks: usize, replicas: usize) -> (r: Result<(), String>)
    ensures
        match disk_fault(disks as nat, replicas as nat) {
            Some(m) => r matches Err(e) && e@ == m,
            None => r is Ok,
        },
{
    if disks == 0 {
        return Err("config: at least one disk required".to_owned());
    }
    if replicas > disks {
        let mut m = "config: replicas R=".to_owned();
        text::push_dec(&mut m, replicas as u64);
        m.append(" > disks ");
        text::push_dec(&mut m, disks as u64);
        return Err(m);
    }
    Ok(())
}

/// Checks that enough shards opened for every copy.
pub fn check_alive(alive: usize, replicas: usize) -> (r: Result<(), String>)
    ensures
        alive >= replicas ==> r is Ok,
        alive < replicas ==> (r matches Err(e) && e@ == "degraded start: живых шардов "@
            + text::dec_chars(alive as nat) + " < replicas R="@ + text::dec_chars(replicas as nat)
            + " — невозможно обеспечить запись"@),
{
    if alive >= replicas {
        return Ok(());
    }
    let mut m = "degraded start: живых шардов ".to_owned();
    text::push_dec(&mut m, alive as u64);
    m.append(" < replicas R=");
    text::push_dec(&mut m, replicas as u64);
    m.append(" — невозможно обеспечить запись");
    Err(m)
}

/// How many piece writes have to succeed: what was asked for, one more than the data pieces
/// by default, and never fewer than those or more than all.
pub open spec fn quorum_of(k: nat, m: nat, asked: Option<usize>) -> nat {
    let q = match asked {
        Some(v) => v as nat,
        None => k + 1,
    };
    if q < k {
        k
    } else if q > k + m {
        k + m
    } else {
        q
    }
}

/// What the redundancy settings come to: no erasure code, one, or why they are refused.
pub open spec fn redundancy_of(
    kind: Seq<char>,
    k: nat,
    m: nat,
    disks: nat,
    min_size: usize,
    asked: Option<usize>,
) -> Result<Option<EcConfig>, Seq<char>> {
    if kind == "erasure"@ {
        if k < 1 || m < 1 {
            Err("config: ec_data/ec_parity >= 1"@)
        } else if disks < k + m {
            Err(
                "config: erasure "@ + text::dec_chars(k) + "+"@ + text::dec_chars(m)
                    + " требует >= "@ + text::dec_chars(k + m) + " дисков, есть "@
                    + text::dec_chars(disks),
            )
        } else {
            Ok(
                Some(
                    EcConfig {
                        data: k as usize,
                        parity: m as usize,
                        min_size,
                        write_quorum: quorum_of(k, m, asked) as usize,
                    },
                ),
            )
        }
    } else if kind == "mirror"@ {
        Ok(None)
    } else {
        Err("config: redundancy = \""@ + kind + "\" (ждали mirror|erasure)"@)
    }
}

/// Reads the redundancy settings.
pub fn redundancy(
    kind: &str,
    k: usize,
    m: usize,
    disks: usize,
    min_size: usize,
    asked: Option<usize>,
) -> (r: Result<Option<EcConfig>, String>)
    requires
        k + m <= usize::MAX,
    ensures
        match r {
            Ok(c) => redundancy_of(kind@, k as nat, m as nat, disks as nat, min_size, asked) == Ok::<
                Option<EcConfig>,
                Seq<char>,
            >(c),
            Err(e) => redundancy_of(kind@, k as nat, m as nat, disks as nat, min_size, asked)
                == Err::<Option<EcConfig>, Seq<char>>(e@),
        },
{
    if text::same_text(kind, "erasure") {
        if k < 1 || m < 1 {
            return Err("config: ec_data/ec_parity >= 1".to_owned());
        }
        if disks < k + m {
            let mut t = "config: erasure ".to_owned();
            text::push_dec(&mut t, k as u64);
            t.append("+");
            text::push_dec(&mut t, m as u64);
            t.append(" требует >= ");
            text::push_dec(&mut t, (k + m) as u64);
            t.append(" дисков, есть ");
            text::push_dec(&mut t, disks as u64);
            return Err(t);
        }
        let q: usize = match asked {
            Some(v) => v,
            None => k + 1,
        };
        let write_quorum: usize = if q < k {
            k
        } else if q > k + m {
            k + m
        } else {
            q
        };
        return Ok(Some(EcConfig { data: k, parity: m, min_size, write_quorum }));
    }
    if text::same_text(kind, "mirror") {
        return Ok(None);
    }
    let mut t = "config: redundancy = \"".to_owned();
    t.append(kind);
    t.append("\" (ждали mirror|erasure)");
    Err(t)
}

/// An accepted erasure code fits on the disks, and its quorum lies between what a read
/// needs and all pieces.
pub proof fn accepted_codes_fit(
    kind: Seq<char>,
    k: nat,
    m: nat,
    disks: nat,
    min_size: usize,
    asked: Option<usize>,
)
    requires
        k + m <= usize::MAX,
    ensures
        redundancy_of(kind, k, m, disks, min_size, asked) matches Ok(Some(c)) ==> c.data >= 1
            && c.parity >= 1 && c.data + c.parity <= disks && c.data <= c.write_quorum <= c.data
            + c.parity,
{
}

/// Checks that there is something to migrate to.
pub fn check_migration(interval: u64, ec: bool) -> (r: Result<(), String>)
    ensures
        interval == 0 || ec ==> r is Ok,
        interval > 0 && !ec ==> (r matches Err(e) && e@
            == "config: migrate_interval_secs требует redundancy=\"erasure\""@),
{
    if interval > 0 && !ec {
        Err("config: migrate_interval_secs требует redundancy=\"erasure\"".to_owned())
    } else {
        Ok(())
    }
}

/// What a look at a pool tells: its status, or nothing where it could not be looked at.
pub fn pool_observation(status: Option<ShardStatus>) -> (r: Observation)
    ensures
        r == (match status {
            Some(ShardStatus::Online) => Observation::Healthy,
            Some(ShardStatus::Suspect) => Observation::Degraded,
            Some(ShardStatus::Faulted) => Observation::Down,
            None => Observation::Down,
        }),
{
    match status {
        Some(ShardStatus::Online) => Observation::Healthy,
        Some(ShardStatus::Suspect) => Observation::Degraded,
        Some(ShardStatus::Faulted) => Observation::Down,
        None => Observation::Down,
    }
}

/// What a verdict on latency tells.
pub fn latency_observation(slow: bool) -> (r: Observation)
    ensures
        r == (if slow {
            Observation::Degraded
        } else {
            Observation::Healthy
        }),
{
    if slow {
        Observation::Degraded
    } else {
        Observation::Healthy
    }
}

/// A tenth of a period, one second at least.
pub open spec fn jitter_of(base: u64) -> int {
    if base / 10 > 1 {
        (base / 10) as int
    } else {
        1
    }
}

/// The seconds to the next scrub. Disks must not be scrubbed in step, so that some of the
/// clock's nanoseconds go in.
pub fn scrub_sleep(base: u64, nanos: u64) -> (r: u64)
    requires
        base > 0,
        base + base / 10 <= u64::MAX,
    ensures
        r == base - jitter_of(base) / 2 + (nanos as int % jitter_of(base)),
        base - jitter_of(base) / 2 <= r < base + jitter_of(base),
{
    let tenth: u64 = base / 10;
    let jitter: u64 = if tenth > 1 {
        tenth
    } else {
        1
    };
    base - jitter / 2 + nanos % jitter
}

/// The engine settings of a configuration file; what is missing holds by default.
#[derive(Debug)]
pub struct EngineCfg {
    pub segment_max_size: Option<u64>,
    pub inline_min: Option<u32>,
    pub fsync_items: Option<u32>,
    /// "none" or "zstd"
    pub compress: Option<String>,
    pub compress_min: Option<u32>,
    pub ballast_bytes: Option<u64>,
    pub fadvise_dontneed: Option<bool>,
}

/// The paths of a disk.
#[derive(Debug)]
pub struct DiskPaths {
    pub data_path: String,
    pub index_path: Option<String>,
    pub failover_path: Option<String>,
}

/// A value, or what holds without it.
pub open spec fn value_or<T>(v: Option<T>, d: T) -> T {
    match v {
        Some(x) => x,
        None => d,
    }
}

/// The settings of the engine of one disk.
pub fn engine_config(cfg: &EngineCfg, disk: DiskPaths) -> (r: EngineConfig)
    ensures
        r.data_path == disk.data_path,
        r.index_path == disk.index_path,
        r.failover_path == disk.failover_path,
        r.segment_max_size == value_or(cfg.segment_max_size, 2147483648),
        r.inline_min == value_or(cfg.inline_min, 4096),
        r.fsync_items == value_or(cfg.fsync_items, 256),
        r.compress_zstd == (cfg.compress matches Some(t) && t@ == "zstd"@),
        r.compress_min == value_or(cfg.compress_min, 512),
        r.ballast_bytes == value_or(cfg.ballast_bytes, 0),
        r.fadvise_dontneed == value_or(cfg.fadvise_dontneed, true),
{
    EngineConfig {
        data_path: disk.data_path,
        index_path: disk.index_path,
        segment_max_size: match cfg.segment_max_size {
            Some(v) => v,
            None => 2147483648,
        },
        inline_min: match cfg.inline_min {
            Some(v) => v,
            None => 4096,
        },
        fsync_items: match cfg.fsync_items {
            Some(v) => v,
            None => 256,
        },
        compress_zstd: match &cfg.compress {
            Some(t) => text::same_text(t.as_str(), "zstd"),
            None => false,
        },
        compress_min: match cfg.compress_min {
            Some(v) => v,
            None => 512,
        },
        ballast_bytes: match cfg.ballast_bytes {
            Some(v) => v,
            None => 0,
        },
        failover_path: disk.failover_path,
        fadvise_dontneed: match cfg.fadvise_dontneed {
            Some(v) => v,
            None => true,
        },
    }
}

/// When to ask a second copy; never at zero.
pub fn hedge_after(ms: u64) -> (r: Option<u64>)
    ensures
        r == (if ms > 0 {
            Some(ms)
        } else {
            None
        }),
{
    if ms > 0 {
        Some(ms)
    } else {
        None
    }
}

/// Why a daemon does not start on another shard's disk.
pub fn identity_fault(dataset: &str, found: &str, expected: &str) -> (r: String)
    ensures
        r@ == "disk identity mismatch on "@ + dataset@ + ": dataset carries ozd:shard_id="@ + found@
            + ", config expects "@ + expected@
            + " — диски перепутаны местами или конфиг сбит; откажемся стартовать, чтобы не писать не туда"@,
{
    let mut t = "disk identity mismatch on ".to_owned();
    t.append(dataset);
    t.append(": dataset carries ozd:shard_id=");
    t.append(found);
    t.append(", config expects ");
    t.append(expected);
    t.append(
        " — диски перепутаны местами или конфиг сбит; откажемся стартовать, чтобы не писать не туда",
    );
    t
}

/// A configuration has a disk for every copy, and at least one.
pub proof fn disks_suffice(disks: usize, replicas: usize, r: Result<(), String>)
    requires
        call_ensures(check_disks, (disks, replicas), r),
    ensures
        r is Ok <==> disks >= 1 && replicas <= disks,
{
}

/// An erasure code is taken as it is asked for where there is a disk for every piece; the
/// quorum of its writes is what was asked for, kept between the data pieces and all of them,
/// and one more than the data pieces by default.
pub proof fn codes_are_taken_as_asked(
    kind: &str,
    k: usize,
    m: usize,
    disks: usize,
    min_size: usize,
    asked: Option<usize>,
    r: Result<Option<EcConfig>, String>,
)
    requires
        k + m <= usize::MAX,
        call_ensures(redundancy, (kind, k, m, disks, min_size, asked), r),
    ensures
        kind@ == "mirror"@ ==> r is Ok && r->Ok_0 is None,
        kind@ != "mirror"@ && kind@ != "erasure"@ ==> r is Err,
        kind@ == "erasure"@ && (k == 0 || m == 0 || disks < k + m) ==> r is Err,
        kind@ == "erasure"@ && k >= 1 && m >= 1 && disks >= k + m ==> {
            &&& r is Ok && r->Ok_0 is Some
            &&& (r->Ok_0->0).data == k
            &&& (r->Ok_0->0).parity == m
            &&& (r->Ok_0->0).min_size == min_size
            &&& asked is None ==> (r->Ok_0->0).write_quorum == k + 1
            &&& asked is Some && k <= asked->0 <= k + m ==> (r->Ok_0->0).write_quorum == asked->0
            &&& asked is Some && asked->0 < k ==> (r->Ok_0->0).write_quorum == k
            &&& asked is Some && asked->0 > k + m ==> (r->Ok_0->0).write_quorum == k + m
        },
{
    reveal_strlit("mirror");
    reveal_strlit("erasure");
    assert("mirror"@.len() == 6 && "erasure"@.len() == 7);
}

/// A period keeps within a twentieth below and a tenth above what was set, or the second.
pub proof fn scrubs_keep_their_period(base: u64, nanos: u64, r: u64)
    requires
        base > 0,
        base + base / 10 <= u64::MAX,
        call_ensures(scrub_sleep, (base, nanos), r),
    ensures
        base < 20 ==> r == base,
        base >= 20 ==> base - base / 20 <= r < base + base / 10,
        base >= 20 ==> (r - (base - (base / 10) / 2)) == nanos as int % (base / 10) as int,
{
}

/// A setting that is made holds; what is not set is told by default.
pub proof fn settings_hold(cfg: &EngineCfg, disk: DiskPaths, r: EngineConfig)
    requires
        call_ensures(engine_config, (cfg, disk), r),
    ensures
        cfg.segment_max_size matches Some(v) ==> r.segment_max_size == v,
        cfg.inline_min matches Some(v) ==> r.inline_min == v,
        cfg.fsync_items matches Some(v) ==> r.fsync_items == v,
        cfg.compress_min matches Some(v) ==> r.compress_min == v,
        cfg.ballast_bytes matches Some(v) ==> r.ballast_bytes == v,
        cfg.fadvise_dontneed matches Some(v) ==> r.fadvise_dontneed == v,
        cfg.compress is None ==> !r.compress_zstd,
        cfg.compress matches Some(t) ==> (r.compress_zstd <==> t@ == "zstd"@),
        cfg.segment_max_size is None ==> r.segment_max_size == 2 * 1024 * 1024 * 1024,
        cfg.inline_min is None ==> r.inline_min == 4 * 1024,
        cfg.fsync_items is None ==> r.fsync_items == 256,
        cfg.compress_min is None ==> r.compress_min == 512,
        cfg.ballast_bytes is None ==> r.ballast_bytes == 0,
        cfg.fadvise_dontneed is None ==> r.fadvise_dontneed,
        r.data_path == disk.data_path && r.index_path == disk.index_path && r.failover_path
            == disk.failover_path,
{
}

/// What is seen of a pool or of its latency is told on: only an online pool is healthy, a
/// suspect one degraded, and one that cannot be looked at is down.
pub proof fn looks_are_told_on(
    status: Option<ShardStatus>,
    slow: bool,
    a: Observation,
    b: Observation,
)
    requires
        call_ensures(pool_observation, (status,), a),
        call_ensures(latency_observation, (slow,), b),
    ensures
        a is Healthy <==> status == Some(ShardStatus::Online),
        a is Degraded <==> status == Some(ShardStatus::Suspect),
        a is Down <==> status is None || status == Some(ShardStatus::Faulted),
        b is Degraded <==> slow,
        b is Healthy <==> !slow,
{
}

/// A migration needs an erasure code to migrate to, and shards enough for a start all copies.
pub proof fn starts_are_checked(
    interval: u64,
    ec: bool,
    alive: usize,
    replicas: usize,
    a: Result<(), String>,
    b: Result<(), String>,
    ms: u64,
    c: Option<u64>,
)
    requires
        call_ensures(check_migration, (interval, ec), a),
        call_ensures(check_alive, (alive, replicas), b),
        call_ensures(hedge_after, (ms,), c),
    ensures
        a is Err <==> interval > 0 && !ec,
        b is Err <==> alive < replicas,
        ms == 0 ==> c is None,
        ms > 0 ==> c == Some(ms),
{
}

/// Where nothing is configured, a body has two copies and a write needs both; coded bodies
/// start at 64 KiB, with four data and two parity pieces; outboard records start at 256 KiB.
pub proof fn copies_have_defaults(
    r: usize,
    w: usize,
    ec_data: usize,
    ec_parity: usize,
    ec_min: usize,
    ob_min: usize,
)
    requires
        call_ensures(default_r, (), r),
        call_ensures(default_w, (), w),
        call_ensures(default_ec_data, (), ec_data),
        call_ensures(default_ec_parity, (), ec_parity),
        call_ensures(default_ec_min, (), ec_min),
        call_ensures(default_ob_min, (), ob_min),
    ensures
        r == 2,
        w == 2,
        ec_data == 4,
        ec_parity == 2,
        ec_min == 65536,
        ob_min == 262144,
{
}

/// Where nothing is configured, background work keeps its documented pace.
pub proof fn background_work_has_defaults(
    gc_interval: u64,
    scrub_interval: u64,
    scrub_keys: usize,
    migrate_keys: usize,
    heal_par: usize,
    heal_cap: usize,
    bg_max: u64,
    bg_min: u64,
)
    requires
        call_ensures(default_gc_interval, (), gc_interval),
        call_ensures(default_scrub_interval, (), scrub_interval),
        call_ensures(default_scrub_keys, (), scrub_keys),
        call_ensures(default_migrate_keys, (), migrate_keys),
        call_ensures(default_heal_par, (), heal_par),
        call_ensures(default_heal_cap, (), heal_cap),
        call_ensures(default_bg_max, (), bg_max),
        call_ensures(default_bg_min, (), bg_min),
    ensures
        gc_interval == 300,
        scrub_interval == 600,
        scrub_keys == 5000,
        migrate_keys == 2000,
        heal_par == 4,
        heal_cap == 2,
        bg_max == 67108864,
        bg_min == 4194304,
{
}

/// Where nothing is configured, disks and pools are watched at their documented pace, and a
/// shard falls under suspicion after three bad looks and out of it after two good ones.
pub proof fn watching_has_defaults(
    zfs_health_interval: u64,
    suspect_after: u32,
    recover_after: u32,
    disk_slow_interval: u64,
    disk_slow_floor: u64,
    on: bool,
)
    requires
        call_ensures(default_zfs_health_interval, (), zfs_health_interval),
        call_ensures(default_suspect_after, (), suspect_after),
        call_ensures(default_recover_after, (), recover_after),
        call_ensures(default_disk_slow_interval, (), disk_slow_interval),
        call_ensures(default_disk_slow_floor, (), disk_slow_floor),
        call_ensures(default_true, (), on),
    ensures
        zfs_health_interval == 30,
        suspect_after == 3,
        recover_after == 2,
        disk_slow_interval == 10,
        disk_slow_floor == 250,
        on,
{
}

/// Where nothing is configured, a request may be fifteen minutes off, a second copy is asked
/// after a tenth of a second, and the cache takes bodies from 4 KiB in segments of 256 MiB.
pub proof fn serving_has_defaults(
    skew: i64,
    spec_ms: u64,
    ttl: u64,
    cache_min: usize,
    cache_seg: u64,
)
    requires
        call_ensures(default_skew, (), skew),
        call_ensures(default_spec_ms, (), spec_ms),
        call_ensures(default_ttl, (), ttl),
        call_ensures(default_cache_min, (), cache_min),
        call_ensures(default_cache_seg, (), cache_seg),
    ensures
        skew == 900,
        spec_ms == 100,
        ttl == 5,
        cache_min == 4096,
        cache_seg == 268435456,
{
}

/// Where nothing is configured, objects are mirrored. A disk that carries another shard's name
/// is told with both names and the dataset.
pub proof fn mirrors_are_the_default(
    mode: String,
    dataset: &str,
    found: &str,
    expected: &str,
    fault: String,
)
    requires
        call_ensures(default_redundancy, (), mode),
        call_ensures(identity_fault, (dataset, found, expected), fault),
    ensures
        mode@ == seq!['m', 'i', 'r', 'r', 'o', 'r'],
        fault@.len() >= dataset@.len() + found@.len() + expected@.len(),
        ({
            let a = "disk identity mismatch on "@.len() as int;
            let b = a + dataset@.len() + ": dataset carries ozd:shard_id="@.len();
            let c = b + found@.len() + ", config expects "@.len();
            &&& fault@.subrange(a, a + dataset@.len()) == dataset@
            &&& fault@.subrange(b, b + found@.len()) == found@
            &&& fault@.subrange(c, c + expected@.len()) == expected@
        }),
{
    reveal_strlit("mirror");
    let p = "disk identity mismatch on "@;
    let q = ": dataset carries ozd:shard_id="@;
    let s = ", config expects "@;
    let a = p.len() as int;
    let b = a + dataset@.len() + q.len();
    let c = b + found@.len() + s.len();
    assert(fault@.subrange(a, a + dataset@.len()) =~= dataset@);
    assert(fault@.subrange(b, b + found@.len()) =~= found@);
    assert(fault@.subrange(c, c + expected@.len()) =~= expected@);
}

} // verus!
