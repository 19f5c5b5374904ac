use tlscap::cli::{optional_secs, Options, OutputFormat, UsageError};
use tlscap::ek_output::index_date;
use tlscap::memstats::rss_bytes;
use tlscap::net::IpAddr;
use tlscap::plugin_loader::select_plugins;
use tlscap::rotation::RotateBy;
use tlscap::time::{elapsed_between, Clock, Duration};

#[test]
fn rss_bytes_returns_a_plausible_value_on_linux() {
    let status = "Name:\ttlscap\nVmPeak:\t  123456 kB\nVmRSS:\t    5120 kB\nThreads:\t1\n";
    let rss = rss_bytes(status).expect("the status text gives the resident memory");
    assert!(rss > 0, "a running process must have nonzero RSS");
    assert_eq!(rss, 5120 * 1024);
}

#[test]
fn rss_is_unknown_where_the_status_does_not_give_it() {
    assert_eq!(rss_bytes(""), None);
    assert_eq!(rss_bytes("VmPeak: 1 kB\n"), None);
    assert_eq!(rss_bytes("VmRSS:\nVmRSS: 7 kB\n"), None);
    assert_eq!(rss_bytes("VmRSS: x kB\n"), None);
    assert_eq!(rss_bytes("VmRSS: 18446744073709551615 kB\n"), None);
    assert_eq!(rss_bytes("VmRSS: 99999999999999999999 kB\n"), None);
    assert_eq!(rss_bytes("VmRSS: +2 kB"), Some(2048));
    assert_eq!(rss_bytes("VmRSS: + kB"), None);
    assert_eq!(rss_bytes("xVmRSS: 3 kB\nVmRSS:\r4\r\n"), Some(4096));
}

#[test]
fn any_white_space_ends_the_number() {
    for space in ['\u{85}', '\u{a0}', '\u{1680}', '\u{2003}', '\u{2028}', '\u{3000}'] {
        assert!(space.is_whitespace());
        let status = format!("Name:\t\u{e9}\nVmRSS:{space}{space}3{space}kB\n");
        assert_eq!(rss_bytes(&status), Some(3072));
    }
    assert!(!'\u{200b}'.is_whitespace());
    assert_eq!(rss_bytes("VmRSS: 3\u{200b}kB\n"), None);
}

fn names(list: &[&str]) -> Vec<Vec<u8>> {
    list.iter().map(|n| n.as_bytes().to_vec()).collect()
}

#[test]
fn plugins_are_picked_by_extension_and_sorted_by_name() {
    let listed = names(&[
        "b.lua", "readme.md", "a.LUA", ".lua", "c.lua.bak", "x.tar.lua", "lua", "A.lua", "..lua",
    ]);
    let picked = select_plugins(listed);
    assert_eq!(
        picked,
        names(&["..lua", "A.lua", "a.LUA", "b.lua", "x.tar.lua"])
    );
    assert!(select_plugins(vec![]).is_empty());
}

fn options() -> Options {
    Options {
        rotate_count: None,
        rotate_seconds: None,
        format: "ek".to_string(),
        packet_log: false,
        ndjson_explode: false,
        ndjson_map: false,
        compress: None,
        compress_level: 6,
    }
}

fn refusal(o: Options) -> String {
    match o.validate() {
        Ok(_) => panic!("these options cannot be served"),
        Err(e) => e.message(),
    }
}

#[test]
fn options_that_contradict_each_other_are_refused() {
    assert_eq!(
        refusal(Options {
            rotate_count: Some(1),
            rotate_seconds: Some(1),
            ..options()
        }),
        "--rotate-count and --rotate-seconds are mutually exclusive"
    );
    assert_eq!(
        refusal(Options {
            format: "pdml".to_string(),
            ..options()
        }),
        "-T must be 'ek' or 'ndjson' (got: pdml)"
    );
    assert_eq!(
        refusal(Options {
            packet_log: true,
            ..options()
        }),
        "--packet-log requires -T ndjson (packet events have no -T ek representation)"
    );
    assert_eq!(
        refusal(Options {
            ndjson_explode: true,
            ..options()
        }),
        "--ndjson-explode requires -T ndjson"
    );
    assert_eq!(
        refusal(Options {
            ndjson_map: true,
            ..options()
        }),
        "--ndjson-map requires -T ndjson"
    );
    assert_eq!(
        refusal(Options {
            compress: Some("zstd".to_string()),
            ..options()
        }),
        "--compress only supports 'gzip' (got: zstd)"
    );
    assert_eq!(
        refusal(Options {
            compress_level: 10,
            ..options()
        }),
        "--compress-level must be between 0 and 9 (got: 10)"
    );
}

#[test]
fn valid_options_say_what_to_do() {
    let settings = match options().validate() {
        Ok(s) => s,
        Err(_) => panic!("the defaults can be served"),
    };
    assert_eq!(settings.format, OutputFormat::Ek);
    assert!(matches!(settings.rotate_by, RotateBy::Never));
    let settings = match (Options {
        rotate_seconds: Some(600),
        format: "ndjson".to_string(),
        packet_log: true,
        ndjson_explode: true,
        ndjson_map: true,
        compress: Some("gzip".to_string()),
        compress_level: 0,
        ..options()
    })
    .validate()
    {
        Ok(s) => s,
        Err(e) => panic!("{}", e.message()),
    };
    assert_eq!(settings.format, OutputFormat::Ndjson);
    assert!(matches!(settings.rotate_by, RotateBy::Seconds(d) if d == Duration::from_secs(600)));
    assert!(matches!(
        UsageError::BothRotations,
        UsageError::BothRotations
    ));
    assert_eq!(optional_secs(0), None);
    assert_eq!(optional_secs(60), Some(Duration::from_secs(60)));
}

fn text_of(ip: IpAddr) -> String {
    let mut out = String::new();
    ip.push_text(&mut out);
    out
}

#[test]
fn addresses_have_their_usual_text() {
    for n in [
        0u128,
        1,
        0xffff_0a00_0001,
        0x2001_0db8_0000_0000_0000_0000_0000_0001,
        0x2001_0db8_0000_0001_0000_0000_0000_0001,
        0x2001_0db8_0001_0001_0001_0001_0001_0000,
        0xfe80_0000_0000_0000_0000_0000_0000_0000,
        0x0001_0000_0000_0002_0000_0000_0000_0003,
        0x0001_0000_0002_0000_0003_0000_0004_0000,
        u128::MAX,
        0x0000_0000_ffff_0000_0000_0000_0a00_0001,
    ] {
        assert_eq!(
            text_of(IpAddr::V6(n)),
            format!("{}", core::net::Ipv6Addr::from(n))
        );
    }
    assert_eq!(text_of(IpAddr::v4(10, 0, 0, 255)), "10.0.0.255");
}

#[test]
fn durations_convert_between_units() {
    let d = Duration::new(1, 2_500_000_000);
    assert_eq!(d.as_nanos(), 3_500_000_000);
    assert_eq!(d.as_micros(), 3_500_000);
    assert_eq!(d.as_millis(), 3_500);
    assert_eq!(d.as_secs(), 3);
    assert_eq!(Duration::new(u64::MAX, 999_999_999).as_secs(), u64::MAX);
    assert_eq!(
        elapsed_between(Duration::from_secs(2), Duration::from_secs(5)),
        Duration::from_secs(3)
    );
    assert_eq!(
        elapsed_between(Duration::from_secs(5), Duration::from_secs(2)),
        Duration::zero()
    );
    let clock = Clock::start();
    let first = clock.now();
    assert!(clock.now().as_nanos() >= first.as_nanos());
}

#[test]
fn the_index_carries_the_capture_date() {
    assert_eq!(index_date(Duration::zero()), "1970-01-01");
    assert_eq!(index_date(Duration::from_secs(951_782_400)), "2000-02-29");
    assert_eq!(
        index_date(Duration::from_millis(1_783_670_400_123)),
        "2026-07-10"
    );
    assert_eq!(index_date(Duration::from_secs(253_402_300_800)), "10000-01-01");
}
