use ozd::domain::ShardStatus;
use ozd::zfs::{
    clean_up_stderr, judge, parse_pool_metrics, read_capacity, read_prop, IdentityCheck, ZfsError,
    ZfsPool,
};
use ozd::zfs_parser::{
    parse_zfs_capacity, parse_zpool_status, to_shard_status, DeviceStatus, PoolHealth, PoolState,
};
use ozd::zfs_properties::{
    audit_drift, parse_size, Properties, PropertySource, EXPECTED_TUNING,
};
use ozd::zfs_runner::{sudo_args, CmdOutput, Execute, FakeRunner, Recorded, Runner, SudoRunner};

fn fake_pool(responses: Vec<CmdOutput>) -> ZfsPool<FakeRunner> {
    ZfsPool::new("disk01".to_string(), "disk01/ozd".to_string(), FakeRunner::new(Vec::new()))
        .with_runner(FakeRunner::new(responses))
}

const HEALTHY: &str = "\
  pool: disk01
 state: ONLINE
  scan: scrub repaired 0B in 00:00:01 with 0 errors on Tue Jun 10 12:00:00 2026
config:

\tNAME        STATE     READ WRITE CKSUM
\tdisk01      ONLINE       0     0     0
\t  sda       ONLINE       0     0     0

errors: No known data errors
";

const DEGRADED: &str = "\
  pool: disk02
 state: DEGRADED
status: One or more devices has experienced an unrecoverable error.
  scan: scrub in progress since Tue Jun 10 12:00:00 2026
\t1288490188 scanned at 104857600/s, 524288000 issued at 52428800/s, 2684354560 total
\t0 repaired, 20.00% done, 00:00:40 to go
config:

\tNAME        STATE     READ WRITE CKSUM
\tdisk02      DEGRADED     0     0     0
\t  sdb       DEGRADED     3     1    12

errors: No known data errors
";

#[test]
fn maps_health_to_shard_status() {
    let mk = |state, errs: u64| PoolHealth {
        pool: "p".into(),
        state,
        devices: vec![DeviceStatus {
            name: "d".into(),
            state,
            read_errors: 0,
            write_errors: 0,
            cksum_errors: errs,
        }],
        scrub: Default::default(),
    };
    assert_eq!(to_shard_status(&mk(PoolState::Online, 0)), ShardStatus::Online);
    assert_eq!(to_shard_status(&mk(PoolState::Online, 5)), ShardStatus::Suspect);
    assert_eq!(to_shard_status(&mk(PoolState::Degraded, 0)), ShardStatus::Suspect);
    assert_eq!(to_shard_status(&mk(PoolState::Faulted, 0)), ShardStatus::Faulted);
    assert_eq!(to_shard_status(&mk(PoolState::Unavail, 0)), ShardStatus::Faulted);
}

#[test]
fn stderr_maps_to_not_found_and_is_cleaned() {
    // "no such pool" with a usage text behind it: NotFound, without the usage
    let mut zp = fake_pool(vec![FakeRunner::fail(
        "cannot open 'disk01': no such pool\nusage:\n  zpool status ...\n",
    )]);
    match zp.status() {
        Err(ZfsError::NotFound(m)) => {
            assert!(m.contains("no such pool"));
            assert!(!m.contains("usage"), "the usage text is cut off: {m}");
        }
        other => panic!("want NotFound, got {other:?}"),
    }
}

#[test]
fn pool_metrics_effective_free_includes_freeing() {
    // 100 GB free and 2 GB being freed: 102 GB
    let out = "size\t1000000000000\nallocated\t890000000000\nfree\t100000000000\n\
               freeing\t2000000000\nleaked\t0\nfragmentation\t11%\n";
    let mut zp = fake_pool(vec![FakeRunner::ok(out)]);
    let m = zp.pool_metrics().unwrap();
    assert_eq!(m.free, 100_000_000_000);
    assert_eq!(m.freeing, 2_000_000_000);
    assert_eq!(m.effective_free(), 102_000_000_000);
    assert_eq!(m.fragmentation_pct, 11);
    assert_eq!(parse_pool_metrics(out), m);
}

#[test]
fn ensure_identity_initialized_verified_mismatch() {
    // nothing there: Initialized (get, then set)
    let mut zp = fake_pool(vec![
        FakeRunner::ok("-\n"), // get ozd:shard_id: not set
        FakeRunner::ok(""),    // set
    ]);
    assert_eq!(zp.ensure_identity(7, "v1").unwrap(), IdentityCheck::Initialized);
    let calls = &zp.runner.calls;
    assert!(calls[1].contains("ozd:shard_id=7"));
    assert!(calls[1].contains("ozd:format_version=v1"));

    // the same id: Verified
    let mut zp2 = fake_pool(vec![FakeRunner::ok("7\n")]);
    assert_eq!(zp2.ensure_identity(7, "v1").unwrap(), IdentityCheck::Verified);

    // another id: Mismatch, the disks were swapped
    let mut zp3 = fake_pool(vec![FakeRunner::ok("5\n")]);
    assert_eq!(
        zp3.ensure_identity(7, "v1").unwrap(),
        IdentityCheck::Mismatch { found: "5".into(), expected: "7".into() }
    );
}

#[test]
fn dataset_drift_audit_via_fake() {
    // recordsize=128K from the default: drift
    let out = "recordsize\t131072\tdefault\ncompression\tlz4\tlocal\natime\toff\tlocal\n";
    let mut zp = fake_pool(vec![FakeRunner::ok(out)]);
    let props = zp.dataset_properties().unwrap();
    let issues = audit_drift(&props, &EXPECTED_TUNING);
    assert_eq!(issues.len(), 1);
    assert_eq!(issues[0].property, "recordsize");
}

#[test]
fn parses_healthy_pool() {
    let h = parse_zpool_status(HEALTHY).unwrap();
    assert_eq!(h.pool, "disk01");
    assert_eq!(h.state, PoolState::Online);
    assert!(h.is_healthy());
    assert_eq!(h.devices.len(), 2);
    assert!(!h.scrub.in_progress);
    assert_eq!(h.total_errors(), (0, 0, 0));
}

#[test]
fn parses_degraded_with_errors_and_scrub() {
    let h = parse_zpool_status(DEGRADED).unwrap();
    assert_eq!(h.state, PoolState::Degraded);
    assert!(!h.is_healthy());
    let (r, w, c) = h.total_errors();
    assert_eq!((r, w, c), (3, 1, 12));
    assert!(h.scrub.in_progress);
    let done = h.scrub.percent_done.as_ref().map(|t| t.parse::<f64>().unwrap());
    assert_eq!(done, Some(20.0));
    let sdb = h.devices.iter().find(|d| d.name == "sdb").unwrap();
    assert_eq!(sdb.cksum_errors, 12);
}

#[test]
fn parses_capacity() {
    let out = "used\t1099511627776\navailable\t8796093022208\n";
    let (used, avail) = parse_zfs_capacity(out).unwrap();
    assert_eq!(used, 1 << 40);
    assert_eq!(avail, 8 << 40);
}

#[test]
fn parses_properties_with_sources() {
    let out = "recordsize\t1048576\tlocal\ncompression\tlz4\tinherited from disk01\n\
               atime\toff\tdefault\nused\t123456\t-\ncompressratio\t1.50x\t-\n\
               capacity\t9%\t-\n";
    let p = Properties::parse(out);
    assert_eq!(p.bytes("recordsize"), Some(1048576));
    assert_eq!(p.string("compression"), Some("lz4"));
    assert_eq!(p.bool_("atime"), Some(false));
    let ratio = p.ratio_text("compressratio").map(|t| t.parse::<f64>().unwrap());
    assert_eq!(ratio, Some(1.5));
    assert_eq!(p.percent("capacity"), Some(9));
    assert_eq!(p.source("recordsize"), Some(&PropertySource::Local));
    assert_eq!(p.source("compression"), Some(&PropertySource::Inherited("disk01".into())));
}

#[test]
fn iec_fallback() {
    assert_eq!(parse_size("336M"), Some(336 << 20));
    assert_eq!(parse_size("2T"), Some(2u64 << 40));
    assert_eq!(parse_size("123"), Some(123));
    assert_eq!(parse_size("1.5K"), Some(1536));
}

#[test]
fn drift_audit_catches_default_source_and_wrong_value() {
    let out = "recordsize\t131072\tdefault\ncompression\tlz4\tlocal\natime\toff\tlocal\n";
    let p = Properties::parse(out);
    let issues = audit_drift(&p, &EXPECTED_TUNING);
    assert_eq!(issues.len(), 1, "{issues:?}");
    assert_eq!(issues[0].property, "recordsize");
    assert_eq!(issues[0].actual, "131072"); // 128K: the tuning was not applied
    assert_eq!(issues[0].source, PropertySource::Default);

    // all of it local and as wanted
    let ok = "recordsize\t1048576\tlocal\ncompression\tlz4\tlocal\natime\toff\tlocal\n";
    assert!(audit_drift(&Properties::parse(ok), &EXPECTED_TUNING).is_empty());
}

#[test]
fn states_have_names() {
    let all = [
        PoolState::Online,
        PoolState::Degraded,
        PoolState::Faulted,
        PoolState::Offline,
        PoolState::Unavail,
        PoolState::Removed,
    ];
    for s in all {
        assert_eq!(PoolState::parse(s.as_str()), s);
    }
    assert_eq!(PoolState::parse("whatever"), PoolState::Unknown);
    assert_eq!(PoolState::Unknown.as_str(), "UNKNOWN");
}

#[test]
fn sizes_at_their_limits() {
    assert_eq!(parse_size(""), None);
    assert_eq!(parse_size("12Q"), None);
    assert_eq!(parse_size("1.x"), None);
    assert_eq!(parse_size("16384P"), Some(u64::MAX));
    assert_eq!(parse_size("1 GiB"), Some(1 << 30));
    assert_eq!(parse_size("0.5K"), Some(512));
}

#[test]
fn statuses_that_do_not_parse() {
    assert!(parse_zpool_status("").is_none());
    let mut zp = fake_pool(vec![FakeRunner::ok("nothing here")]);
    assert!(matches!(zp.status(), Err(ZfsError::ParseFailed)));
    assert!(parse_zfs_capacity("used\t1\n").is_none());
    assert!(read_capacity("used\t5\navailable\tx\n").is_none());
    assert_eq!(read_prop("-\n"), None);
    assert_eq!(read_prop(" 7 \n"), Some("7".to_string()));
}

#[test]
fn failures_of_commands() {
    let args = vec!["status".to_string()];
    let out = |ok: bool, err: &str| CmdOutput {
        stdout: "out".into(),
        stderr: err.into(),
        success: ok,
    };
    assert_eq!(judge("zpool", &args, Ok(out(true, "warning"))).unwrap(), "out");
    assert!(matches!(judge("zpool", &args, Err("gone".into())), Err(ZfsError::Io(_))));
    assert!(matches!(
        judge("zpool", &args, Ok(out(false, "dataset does not exist"))),
        Err(ZfsError::NotFound(_))
    ));
    let e = judge("zpool", &args, Ok(out(false, "busy"))).unwrap_err();
    assert!(matches!(e, ZfsError::CommandFailed(_)));
    assert!(e.message().contains("busy"), "{}", e.message());
    assert!(!clean_up_stderr("bad\nusage:\n x\n").contains("usage"));
}

#[test]
fn capacities_and_commands() {
    let mut zp = fake_pool(vec![FakeRunner::ok("used\t1000\navailable\t500\n")]);
    let c = zp.capacity().unwrap();
    assert_eq!((c.total_bytes, c.free_bytes), (1500, 500));
    assert_eq!(zp.runner.calls.len(), 1);
    assert!(zp.runner.calls[0].contains("disk01/ozd"));
    let mut zp = fake_pool(vec![
        FakeRunner::ok(""),
        FakeRunner::ok(""),
        FakeRunner::ok(""),
    ]);
    zp.scrub_start().unwrap();
    zp.scrub_stop().unwrap();
    zp.scrub_pause().unwrap();
    assert_eq!(zp.runner.calls, [
        "zpool scrub disk01",
        "zpool scrub -s disk01",
        "zpool scrub -p disk01"
    ]);
    // a runner that has no answers left fails
    assert!(zp.scrub_start().is_err());
    let args = sudo_args("zpool", &vec!["list".to_string()]);
    assert_eq!(args.last().unwrap(), "list");
    assert!(args.contains(&"zpool".to_string()));
}

struct Echo;

impl Execute for Echo {
    fn execute(&mut self, program: &str, args: &Vec<String>) -> Result<CmdOutput, String> {
        Ok(FakeRunner::ok(&format!("{program} {}", args.join(" "))))
    }
}

#[test]
fn sudo_wraps_commands() {
    let mut sudo = SudoRunner::new(FakeRunner::new(vec![FakeRunner::ok("done")]));
    let args = vec!["status".to_string(), "-p".to_string(), "disk01".to_string()];
    assert_eq!(sudo.run("zpool", &args).unwrap().stdout, "done");
    assert_eq!(sudo.inner.calls, ["sudo -n zpool status -p disk01"]);

    let mut plain = SudoRunner::new(Recorded::new(Echo));
    assert_eq!(plain.run("zfs", &vec!["list".to_string()]).unwrap().stdout, "sudo -n zfs list");
}

#[test]
fn sizes_are_read_in_double_precision() {
    // the nearest numbers with 53 binary digits
    assert_eq!(parse_size("9007199254740993.0"), Some(9_007_199_254_740_992));
    assert_eq!(parse_size("9007199254740995.0"), Some(9_007_199_254_740_996));
    assert_eq!(parse_size("9007199254740993.0000000000000001"), Some(9_007_199_254_740_994));
    assert_eq!(parse_size("0.99999999999999999999"), Some(1));
    assert_eq!(parse_size("4503599627370495.5"), Some(4_503_599_627_370_495));
    assert_eq!(parse_size("4503599627370496.5"), Some(4_503_599_627_370_496));
    assert_eq!(parse_size("4503599627370497.5"), Some(4_503_599_627_370_498));
    assert_eq!(parse_size("9007199254740993"), Some(9_007_199_254_740_993));
    let mut x = 7u64;
    let mut next = || {
        x ^= x << 13;
        x ^= x >> 7;
        x ^= x << 17;
        x
    };
    for round in 0..4000u32 {
        let (a, b, c) = (next(), next(), next());
        let whole = match round % 4 {
            0 => String::new(),
            1 => (a >> (b % 64)).to_string(),
            2 => "0".to_string(),
            _ => format!("{}{}", a % 1000, b),
        };
        let part = match round % 3 {
            0 => format!("{b}{c}"),
            1 => format!("{}5", "9".repeat((c % 25) as usize)),
            _ => format!("{}5", "0".repeat((c % 25) as usize)),
        };
        for (suffix, mult) in [("", 1u64), ("K", 1 << 10), ("G", 1 << 30), ("P", 1 << 50)] {
            let numeral = format!("{whole}.{part}");
            let want = (numeral.parse::<f64>().unwrap() * mult as f64) as u64;
            assert_eq!(parse_size(&format!("{numeral}{suffix}")), Some(want), "{numeral}{suffix}");
        }
    }
}
