use ozd::admin::{
    array, ballast_json, metrics_page, read_parameter, read_switch, selected, shard_error_json,
    structure_json, zfs_health_json, zfs_scrub_json, CarExportResponse, CarImportResponse,
    ErrorResponse, GcItem, MigrateResponse, ResilverResponse, ScrubItem, ShardMetrics, UsageItem,
};
use ozd::bench::{body_size, fill_body, Rng};
use ozd::car::{CarExportReport, CarImportReport};
use ozd::config::{
    check_alive, check_disks, check_migration, default_bg_max, default_cache_min,
    default_ec_data, default_ec_parity, default_redundancy, default_spec_ms, engine_config,
    hedge_after, identity_fault, latency_observation, pool_observation, redundancy, scrub_sleep,
    DiskPaths, EngineCfg,
};
use ozd::domain::{Capacity, DomainError, GcReport, ShardStatus, StructureReport};
use ozd::health::Observation;
use ozd::metrics::OpsMetrics;
use ozd::ratelimit::{client_of, forwarded_client, Client, RateLimitConfig, RateLimiter};
use ozd::walk::{MigrateReport, ResilverReport, ScrubReport};
use ozd::zfs::PoolMetrics;
use ozd::zfs_parser::{DeviceStatus, PoolHealth, PoolState};
use ozd::zfs_properties::{DriftIssue, PropertySource};

const SEC: u64 = 1_000_000_000;

fn client(n: u128) -> Client {
    Client { v6: false, bits: n }
}

#[test]
fn clients_are_limited_one_by_one() {
    let cfg = RateLimitConfig { max_rps: 2 };
    let mut l = RateLimiter::new(cfg.max_rps);
    assert!(l.check(client(1), 0));
    assert!(l.check(client(1), 0));
    assert!(!l.check(client(1), 0), "two a second");
    assert!(l.check(client(2), 0), "another client has its own budget");
    // half a second brings one back
    assert!(l.check(client(1), SEC / 2));
    assert!(!l.check(client(1), SEC / 2));
    // a long silence brings back no more than a second's worth
    assert!(l.check(client(1), 100 * SEC));
    assert!(l.check(client(1), 100 * SEC));
    assert!(!l.check(client(1), 100 * SEC));
}

#[test]
fn idle_clients_are_forgotten() {
    let mut l = RateLimiter::new(1000);
    for i in 0..200 {
        assert!(l.check(client(i), 0));
    }
    assert_eq!(l.buckets.len(), 200);
    for _ in 200..=256 {
        assert!(l.check(client(1), 61 * SEC));
    }
    assert!(l.buckets.len() <= 2, "{}", l.buckets.len());
}

#[test]
fn a_limit_of_zero_admits_nobody() {
    let mut l = RateLimiter::new(0);
    assert!(!l.check(client(1), 0));
    assert!(!l.check(client(1), 1000 * SEC));
}

#[test]
fn clients_are_told_apart() {
    assert_eq!(forwarded_client(" 10.0.0.1 , 10.0.0.2"), "10.0.0.1");
    assert_eq!(forwarded_client("::1"), "::1");
    assert_eq!(client_of(Some(client(7)), Some(client(8))), client(7));
    assert_eq!(client_of(None, Some(client(8))), client(8));
    assert_eq!(client_of(None, None), client(0x7f00_0001));
}

#[test]
fn admin_answers_are_json() {
    let cap = Capacity { total_bytes: 10, free_bytes: 4 };
    assert_eq!(UsageItem::new(1, &cap).json(), "{\"shard\":1,\"total\":10,\"free\":4}");
    assert_eq!(array(&vec!["1".to_string(), "2".to_string()]).0, "[1,2]");
    assert_eq!(array(&Vec::new()).0, "[]");
    assert_eq!(shard_error_json(3, "bad"), "{\"shard\":3,\"error\":\"bad\"}");
    assert_eq!(ErrorResponse::new("path required").json().0, "{\"error\":\"path required\"}");
    let gc = GcReport {
        victim_seg: Some(4),
        live_moved: 2,
        reclaimed_bytes: 100,
        orphans_removed: 1,
        orphan_bytes: 9,
    };
    assert_eq!(
        GcItem::new(0, &Ok(gc)).json(),
        "{\"shard\":0,\"victim\":4,\"moved\":2,\"reclaimed\":100,\"orphans\":1,\"orphan_bytes\":9}"
    );
    assert_eq!(
        GcItem::new(0, &Ok(GcReport::default())).json(),
        "{\"shard\":0,\"victim\":null,\"moved\":0,\"reclaimed\":0,\"orphans\":0,\
         \"orphan_bytes\":0}"
    );
    assert_eq!(
        GcItem::new(2, &Err(DomainError::NotFound)).json(),
        "{\"shard\":2,\"error\":\"block not found\"}"
    );
    let s = ScrubReport {
        checked: 5,
        corrupt: 2,
        repaired: 1,
        unrepairable: 1,
        last_key: None,
        done: true,
    };
    assert_eq!(
        ScrubItem::new(1, &Ok(s)).json(),
        "{\"shard\":1,\"checked\":5,\"corrupt\":2,\"repaired\":1,\"unrepairable\":1}"
    );
    let mut r = ResilverReport::new();
    r.scanned = 3;
    r.done = true;
    assert_eq!(
        ResilverResponse::new(&r).json().0,
        "{\"scanned\":3,\"repaired\":0,\"errors\":0,\"done\":true}"
    );
    let mut m = MigrateReport::new();
    m.skipped_ec = 2;
    assert_eq!(
        MigrateResponse::new(&m).json().0,
        "{\"scanned\":0,\"migrated\":0,\"skipped_small\":0,\"skipped_ec\":2,\"canary_failed\":0,\
         \"errors\":0,\"done\":false}"
    );
    let c = CarImportReport { blocks: 1, bytes: 2, skipped: 3, corrupt: 4, errors: 5 };
    assert_eq!(
        CarImportResponse::new(&c).json().0,
        "{\"blocks\":1,\"bytes\":2,\"skipped\":3,\"corrupt\":4,\"errors\":5}"
    );
    let c = CarExportReport { blocks: 1, bytes: 2 };
    assert_eq!(CarExportResponse::new(&c).json().0, "{\"blocks\":1,\"bytes\":2}");
    assert_eq!(ballast_json(0, &Ok(true)), "{\"shard\":0,\"released\":true}");
    assert_eq!(zfs_scrub_json(0, &None), "{\"shard\":0,\"scrub\":\"started\"}");
    assert_eq!(zfs_scrub_json(0, &Some("e".to_string())), "{\"shard\":0,\"error\":\"e\"}");
    let rep = StructureReport {
        segments_referenced: 3,
        segments_missing: vec![1, 2],
        keys_at_risk: 9,
        orphan_segments: Vec::new(),
    };
    assert_eq!(
        structure_json(0, &Ok(rep)),
        "{\"shard\":0,\"healthy\":false,\"segments\":3,\"missing\":[1, 2],\"keys_at_risk\":9,\
         \"orphans\":[]}"
    );
}

#[test]
fn texts_in_answers_are_escaped() {
    let text = "a \"b\" \\ /\n\r\t\u{8}\u{c}\u{1}\u{1f}\u{7f} \u{44f}";
    let json = ErrorResponse::new(text).json().0;
    assert_eq!(
        json,
        "{\"error\":\"a \\\"b\\\" \\\\ /\\n\\r\\t\\b\\f\\u0001\\u001f\u{7f} \u{44f}\"}"
    );
    let read: serde_json::Value = serde_json::from_str(&json).unwrap();
    assert_eq!(read["error"], text);
    assert_eq!(shard_error_json(0, "\"x\""), "{\"shard\":0,\"error\":\"\\\"x\\\"\"}");
    // what a shard did not get to is left out
    let item = ScrubItem::new(4, &Err(DomainError::Io("no \"disk\"".to_string())));
    assert_eq!(item.json(), "{\"shard\":4,\"error\":\"io: no \\\"disk\\\"\"}");
    let part = ScrubItem { checked: Some(2), error: None, ..item };
    assert_eq!(part.json(), "{\"shard\":4,\"checked\":2}");
}

#[test]
fn pool_health_is_reported() {
    let h = PoolHealth {
        pool: "disk01".to_string(),
        state: PoolState::Online,
        devices: vec![DeviceStatus {
            name: "sda".to_string(),
            state: PoolState::Online,
            read_errors: 1,
            write_errors: 2,
            cksum_errors: 3,
        }],
        scrub: Default::default(),
    };
    let m = PoolMetrics { free: 10, freeing: 5, fragmentation_pct: 7, ..Default::default() };
    let drift = vec![DriftIssue {
        property: "recordsize".to_string(),
        expected: "1048576".to_string(),
        actual: "131072".to_string(),
        source: PropertySource::Inherited("disk \"1\"".to_string()),
    }];
    assert_eq!(
        zfs_health_json(2, &h, &m, &drift),
        "{\"shard\":2,\"pool\":\"disk01\",\"state\":\"ONLINE\",\"shard_status\":\"Suspect\",\
         \"read_errors\":1,\"write_errors\":2,\"cksum_errors\":3,\"scrub_in_progress\":false,\
         \"free\":10,\"freeing\":5,\"effective_free\":15,\"fragmentation_pct\":7,\
         \"drift\":[\"recordsize: expected 1048576, got 131072 \
         (source=Inherited(\\\"disk \\\\\\\"1\\\\\\\"\\\"))\"]}"
    );
}

#[test]
fn parameters_are_read() {
    assert!(selected(None, 3) && selected(Some(3), 3) && !selected(Some(2), 3));
    assert_eq!(read_parameter(Some("12")), Some(12));
    assert_eq!(read_parameter(Some("x")), None);
    assert_eq!(read_parameter(None), None);
    assert_eq!(read_switch(Some("true")), Some(true));
    assert_eq!(read_switch(Some("false")), Some(false));
    assert_eq!(read_switch(Some("1")), None);
}

#[test]
fn metrics_are_exported() {
    let mut m = OpsMetrics::default();
    m.record_put(&Ok(()), 1_500_000);
    m.record_put(&Err(DomainError::NotFound), 1);
    assert!(m.record_get(&Ok(vec![1]), 250));
    assert!(!m.record_get(&Err(DomainError::NotFound), 1));
    assert!(!m.record_get(&Err(DomainError::Io("x".to_string())), 1));
    m.record_gc(&GcReport { victim_seg: Some(1), live_moved: 3, ..Default::default() });
    let t = m.prometheus();
    assert!(t.starts_with("# TYPE ozd_puts_total counter\nozd_puts_total 1\n"), "{t}");
    assert!(t.contains("\nozd_put_errors_total 1\n"));
    assert!(t.contains("\nozd_put_seconds_sum 1.500001\n"));
    assert!(t.contains("\nozd_get_seconds_sum 0.000252\n"));
    assert!(t.contains("\nozd_get_not_found_total 1\n"));
    assert!(t.contains("\nozd_get_errors_total 1\n"));
    assert!(t.contains("# TYPE ozd_bg_rate_bps gauge\nozd_bg_rate_bps 0\n"));
    assert!(t.contains("\nozd_gc_victims_total 1\n"));
    assert!(t.ends_with("\nozd_gc_orphan_bytes_total 0\n"));

    let shard = ShardMetrics {
        cap: Capacity { total_bytes: 9, free_bytes: 8 },
        status: Some(ShardStatus::Suspect),
        ballast_released: true,
        ewma_ms: 12,
        slow: false,
    };
    assert_eq!(
        metrics_page(&vec![shard], 4, "rest\n"),
        "# TYPE ozd_shard_total_bytes gauge\n# TYPE ozd_shard_free_bytes gauge\n\
         # TYPE ozd_shard_status gauge\nozd_shard_total_bytes{shard=\"0\"} 9\n\
         ozd_shard_free_bytes{shard=\"0\"} 8\nozd_shard_status{shard=\"0\"} 1\n\
         ozd_shard_ballast_released{shard=\"0\"} 1\nozd_shard_lat_ewma_ms{shard=\"0\"} 12\n\
         ozd_shard_slow{shard=\"0\"} 0\n# TYPE ozd_mrf_queue gauge\nozd_mrf_queue 4\nrest\n"
    );
}

#[test]
fn settings_are_checked() {
    assert!(check_disks(3, 2).is_ok());
    assert!(check_disks(1, 2).is_err());
    assert!(check_alive(2, 2).is_ok());
    assert!(check_alive(1, 2).is_err());
    assert!(redundancy("mirror", 4, 2, 6, 1, None).unwrap().is_none());
    let ec = redundancy("erasure", 4, 2, 6, 100, None).unwrap().unwrap();
    assert_eq!((ec.data, ec.parity, ec.min_size, ec.write_quorum), (4, 2, 100, 5));
    let ec = redundancy("erasure", 4, 2, 6, 100, Some(6)).unwrap().unwrap();
    assert_eq!(ec.write_quorum, 6);
    assert!(redundancy("erasure", 4, 2, 5, 100, None).is_err(), "too few disks");
    assert!(redundancy("raid", 4, 2, 6, 100, None).is_err());
    assert!(check_migration(0, false).is_ok());
    assert!(check_migration(10, true).is_ok());
    assert!(check_migration(10, false).is_err());
    assert_eq!(hedge_after(0), None);
    assert_eq!(hedge_after(30), Some(30));
    assert!(matches!(pool_observation(Some(ShardStatus::Online)), Observation::Healthy));
    assert!(matches!(pool_observation(Some(ShardStatus::Suspect)), Observation::Degraded));
    assert!(matches!(pool_observation(Some(ShardStatus::Faulted)), Observation::Down));
    assert!(matches!(pool_observation(None), Observation::Down));
    assert!(matches!(latency_observation(true), Observation::Degraded));
    assert!(matches!(latency_observation(false), Observation::Healthy));
    assert!(identity_fault("d/o", "5", "7").contains("d/o"));
    let s = scrub_sleep(1000, 12345);
    assert!((900..=1100).contains(&s), "{s}");
}

#[test]
fn defaults_are_as_documented() {
    assert_eq!(default_redundancy(), "mirror");
    assert_eq!((default_ec_data(), default_ec_parity()), (4, 2));
    assert_eq!(default_spec_ms(), 100);
    assert_eq!(default_bg_max(), 64 * 1024 * 1024);
    assert_eq!(default_cache_min(), 4096);
    let cfg = EngineCfg {
        segment_max_size: None,
        inline_min: Some(7),
        fsync_items: None,
        compress: Some("zstd".to_string()),
        compress_min: None,
        ballast_bytes: None,
        fadvise_dontneed: None,
    };
    let paths = DiskPaths {
        data_path: "/d".to_string(),
        index_path: None,
        failover_path: Some("/f".to_string()),
    };
    let e = engine_config(&cfg, paths);
    assert_eq!((e.data_path.as_str(), e.inline_min, e.compress_zstd), ("/d", 7, true));
    assert_eq!(e.failover_path.as_deref(), Some("/f"));
    assert_eq!(e.segment_max_size, 2 * 1024 * 1024 * 1024);
}

#[test]
fn workloads_repeat() {
    let mut a = Rng(43);
    let mut b = Rng(43);
    for _ in 0..100 {
        assert_eq!(a.next(), b.next());
        assert!(a.unit() < 1 << 53);
        b.unit();
        assert!(a.below(10) < 10);
        b.below(10);
    }
    let mut r = Rng(1);
    assert_eq!(r.next(), 13473309256371520605);
    let (mut small, mut medium, mut large) = (0, 0, 0);
    for _ in 0..1000 {
        match body_size(&mut r) {
            4096 => small += 1,
            262_144 => medium += 1,
            1_048_576 => large += 1,
            other => panic!("{other}"),
        }
    }
    assert!(medium > 700 && small > 100 && large > 50, "{medium} {small} {large}");
    let body = fill_body(&mut r, 20);
    assert_eq!(body.len(), 20);
    assert_eq!(&body[16..], &[0; 4], "the rest behind whole words stays zero");
}
