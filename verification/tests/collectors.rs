use dormlab_nodeexporter::collectors::cpu_mem::{
    cpu_usage_fields, parse_memory_used, parse_size, try_parse_memory_used, PhysMemError, SizeText,
};
use dormlab_nodeexporter::collectors::log_warn;
use dormlab_nodeexporter::collectors::network::parse as parse_netstat;
use dormlab_nodeexporter::collectors::power::parse_digits;
use dormlab_nodeexporter::collectors::sysctl::parse_memsize;
use dormlab_nodeexporter::collectors::thermal::parse as parse_thermal;

const TOP_SAMPLE: &str = "Processes: 588 total, 3 running, 585 sleeping, 4220 threads
2026/04/27 17:00:00
Load Avg: 1.20, 1.30, 1.50
CPU usage: 4.55% user, 5.50% sys, 89.95% idle
SharedLibs: 240M resident, 47M data, 5M linkedit.
MemRegions: 55144 total, 779M resident, 56M private, 2994M shared.
PhysMem: 15G used (4801M wired, 5292M compressor), 91M unused.
VM: 256T vsize, 4395M framework vsize, 0(0) swapins, 0(0) swapouts.
";

const NETSTAT_SAMPLE: &str = "\
Name  Mtu   Network       Address            Ipkts Ierrs     Ibytes    Opkts Oerrs     Obytes  Coll
lo0   16384 <Link#1>                       1234       0     567890     1234       0     567890     0
en0   1500  <Link#5>      a8:97:b8:00:00:00 1000       0   12345678      900       0    9876543     0
en0   1500  192.168/24    192.168.1.10      1000       0   12345678      900       0    9876543     0
en2   1500  <Link#7>      36:5a:7a:00:00:00 555        0    1111111      444       0    2222222     0
";

/// CPU usage as a fraction: the user and system percentages read as numbers.
fn cpu_ratio(out: &str) -> Option<f64> {
    let (user, sys) = cpu_usage_fields(out)?;
    let user: f64 = user?.parse().ok()?;
    let sys: f64 = sys?.parse().ok()?;
    Some((user + sys) / 100.0)
}

/// CPU power in watts: the milliwatt digits read as a number.
fn power_watts(out: &str) -> Option<f64> {
    let digits = parse_digits(out)?;
    let mw: f64 = digits.parse().ok()?;
    Some(mw / 1000.0)
}

/// A split size in bytes: its number read as `f64`, times its unit,
/// converted back (truncating, saturating).
fn size_bytes(size: &SizeText) -> Option<u64> {
    let n: f64 = size.number.parse().ok()?;
    Some((n * size.unit_bytes as f64) as u64)
}

/// A size text in bytes.
fn size(s: &str) -> Option<u64> {
    size_bytes(&parse_size(s)?)
}

/// Memory in use, wired plus compressor, from split sizes.
fn used_of(sizes: Option<(SizeText, SizeText)>) -> Option<u64> {
    let (wired, compressor) = sizes?;
    Some(size_bytes(&wired)? + size_bytes(&compressor)?)
}

/// Memory in use read from `top` output, or why its `PhysMem:` line cannot
/// be read.
fn try_used(out: &str) -> Result<Option<u64>, PhysMemError> {
    try_parse_memory_used(out).map(used_of)
}

fn split(number: &str, unit_bytes: u64) -> SizeText {
    SizeText { number: number.to_string(), unit_bytes }
}

#[test]
fn parses_cpu() {
    let cpu = cpu_ratio(TOP_SAMPLE).unwrap();
    // 4.55 + 5.5 = 10.05 of 100 = 0.1005
    assert!((cpu - 0.1005).abs() < 1e-6, "got {cpu}");
}

#[test]
fn parses_memory_used() {
    let used = used_of(parse_memory_used(TOP_SAMPLE)).unwrap();
    // 4801M + 5292M = 10093M = 10093 * 1<<20
    assert_eq!(used, (4801u64 + 5292u64) * (1u64 << 20));
}

#[test]
fn parses_size_units() {
    assert_eq!(size("1024K"), Some(1024 * 1024));
    assert_eq!(size("2M"), Some(2 * 1024 * 1024));
    assert_eq!(size("3.5G"), Some((3.5 * (1u64 << 30) as f64) as u64));
    assert_eq!(size(""), None);
    assert_eq!(size("nope"), None);
}

#[test]
fn parses_unique_interfaces() {
    let v = parse_netstat(NETSTAT_SAMPLE);
    assert_eq!(v.len(), 2);
    assert_eq!(v[0].name, "en0");
    assert_eq!(v[0].rx_bytes, 12345678);
    assert_eq!(v[0].tx_bytes, 9876543);
    assert_eq!(v[1].name, "en2");
}

#[test]
fn skips_lo0() {
    let v = parse_netstat(NETSTAT_SAMPLE);
    assert!(v.iter().all(|i| i.name != "lo0"));
}

#[test]
fn parses_cpu_power_line() {
    let sample = "
*** Sampled system activity (Sun Apr 27 17:00:00 2026 ) ***

**** Processor usage ****

CPU Power: 4123 mW
GPU Power: 12 mW
";
    assert_eq!(power_watts(sample), Some(4.123));
}

#[test]
fn parses_combined_power_line() {
    assert_eq!(
        power_watts("Combined Power (CPU + GPU + ANE): 5678 mW\n"),
        Some(5.678)
    );
}

#[test]
fn returns_none_when_no_match() {
    assert_eq!(power_watts("nothing here\n"), None);
}

#[test]
fn parses_levels() {
    assert_eq!(parse_thermal("Current pressure level: Nominal\n"), Some(0));
    assert_eq!(parse_thermal("Current pressure level: Fair\n"), Some(1));
    assert_eq!(parse_thermal("Current pressure level: Serious\n"), Some(2));
    assert_eq!(parse_thermal("Current pressure level: Critical\n"), Some(3));
}

#[test]
fn parses_with_surrounding_output() {
    let sample = "
*** Thermal pressure ***

Current pressure level: Nominal
";
    assert_eq!(parse_thermal(sample), Some(0));
}

#[test]
fn unknown_returns_none() {
    assert_eq!(parse_thermal("Current pressure level: Glorious\n"), None);
    assert_eq!(parse_thermal("nothing here\n"), None);
}

#[test]
fn thermal_first_prefixed_line_decides() {
    let out = "Current pressure level: Glorious\nCurrent pressure level: Fair\n";
    assert_eq!(parse_thermal(out), None);
    assert_eq!(parse_thermal("   Current pressure level:   Serious   \r\n"), Some(2));
}

#[test]
fn size_splits_off_the_unit() {
    assert_eq!(parse_size("4801M"), Some(split("4801", 1048576)));
    assert_eq!(parse_size("  12M \n"), Some(split("12", 1048576)));
    assert_eq!(parse_size("5.2G"), Some(split("5.2", 1073741824)));
    assert_eq!(parse_size("2T"), Some(split("2", 1099511627776)));
    assert_eq!(parse_size("0.5K"), Some(split("0.5", 1024)));
    // The number is not read here: whatever stands before the unit is kept.
    assert_eq!(parse_size("1 K"), Some(split("1 ", 1024)));
    assert_eq!(parse_size("K"), Some(split("", 1024)));
    assert_eq!(parse_size("1.2.3K"), Some(split("1.2.3", 1024)));
    // Unknown or missing units.
    assert_eq!(parse_size("12X"), None);
    assert_eq!(parse_size("5k"), None);
    assert_eq!(parse_size("1024"), None);
    assert_eq!(parse_size(""), None);
    assert_eq!(parse_size("   "), None);
}

#[test]
fn size_fractions_round_down() {
    assert_eq!(size("0.5K"), Some(512));
    assert_eq!(size("0.001K"), Some(1));
    assert_eq!(size("0.0009K"), Some(0));
    assert_eq!(size("1.25M"), Some(1310720));
    assert_eq!(size("  12M \n"), Some(12 * 1048576));
    assert_eq!(size("2T"), Some(2 * 1099511627776));
    assert_eq!(size("-1K"), Some(0));
    assert_eq!(size("99999999999999999999999K"), Some(u64::MAX));
    assert_eq!(size("K"), None);
    assert_eq!(size("1 K"), None);
}

#[test]
fn memory_needs_both_figures() {
    assert_eq!(try_parse_memory_used("PhysMem: 15G used (4801M wired), 91M unused.\n"), Ok(None));
    assert_eq!(try_parse_memory_used("no memory line here\n"), Ok(None));
    assert_eq!(try_parse_memory_used("PhysMem: 15G used, 91M unused.\n"), Ok(None));
    assert_eq!(
        try_parse_memory_used("PhysMem: (4801M wired, 5.2G compressor)"),
        Ok(Some((split("4801", 1048576), split("5.2", 1073741824))))
    );
    assert_eq!(try_used("PhysMem: (1K wired, 2K compressor)"), Ok(Some(3072)));
    // The first PhysMem line decides, a later one is not read.
    assert_eq!(try_used("PhysMem: nothing\nPhysMem: (1K wired, 2K compressor)\n"), Ok(None));
    // A later part overrides an earlier one.
    assert_eq!(try_used("PhysMem: (1K wired, 2K compressor, 3K wired)"), Ok(Some(5120)));
    // A size whose unit is unknown drops the figure.
    assert_eq!(try_parse_memory_used("PhysMem: (1K wired, 2X compressor)"), Ok(None));
    // A size whose number does not read drops the figure too.
    assert_eq!(try_used("PhysMem: (1K wired, xK compressor)"), Ok(None));
}

#[test]
fn memory_ignores_figures_outside_the_list() {
    let a = try_parse_memory_used("PhysMem: 15G used (4801M wired, 5292M compressor), 91M unused.\n");
    let b = try_parse_memory_used("PhysMem: 9G used (4801M wired, 5292M compressor), 7G unused.\n");
    assert_eq!(a, b);
    assert_eq!(used_of(a.unwrap()), Some((4801u64 + 5292u64) * (1u64 << 20)));
}

#[test]
fn memory_errors() {
    assert_eq!(try_parse_memory_used("PhysMem: ) 1K wired, 2K compressor ("), Err(PhysMemError::ParenOrder));
    assert_eq!(
        try_parse_memory_used("PhysMem: (5\u{e9} wired, 1K compressor)"),
        Err(PhysMemError::UnsplittableSize)
    );
}

#[test]
fn cpu_fields_last_part_wins() {
    let r = cpu_usage_fields("CPU usage: 1% user, 2 % user, 3% sys, 9% idle\n").unwrap();
    assert_eq!(r.0.as_deref(), Some("2"));
    assert_eq!(r.1.as_deref(), Some("3"));
    assert_eq!(cpu_usage_fields("no cpu here\n"), None);
    let r = cpu_usage_fields("CPU usage: 5% sys\n").unwrap();
    assert_eq!(r.0, None);
    assert_eq!(cpu_ratio("CPU usage: 5% sys\n"), None);
    assert_eq!(cpu_ratio("CPU usage: 10% user, 15% sys\n"), Some(0.25));
}

#[test]
fn power_figure_digits() {
    assert_eq!(parse_digits("   CPU Power:   1234.56 mW\n").as_deref(), Some("1234.56"));
    assert_eq!(parse_digits("CPU Power: mW\nCPU Power: 5 mW\n"), None);
    assert_eq!(parse_digits("Combined Power no colon\nCPU Power: 7 mW\n").as_deref(), Some("7"));
    assert_eq!(power_watts("CPU Power: 1.2.3 mW\n"), None);
}

#[test]
fn netstat_first_row_marks_the_name() {
    let out = "\
header
en0 1 2 3 4 5 bad 7 8 9 10
en0 1 2 3 4 5 100 7 8 200 10
en1 1 2 3 4 5 +300 7 8 400 10\r
short 1 2
en3 1 2 3 4 5 18446744073709551616 7 8 1 10
";
    let v = parse_netstat(out);
    assert_eq!(v.len(), 1);
    assert_eq!(v[0].name, "en1");
    assert_eq!(v[0].rx_bytes, 300);
    assert_eq!(v[0].tx_bytes, 400);
    assert!(parse_netstat("").is_empty());
    assert!(parse_netstat("only a header\n").is_empty());
}

#[test]
fn memsize_reads_trimmed_u64() {
    assert_eq!(parse_memsize("17179869184\n"), Some(17179869184));
    assert_eq!(parse_memsize("+5"), Some(5));
    assert_eq!(parse_memsize("-5"), None);
    assert_eq!(parse_memsize("18446744073709551615"), Some(u64::MAX));
    assert_eq!(parse_memsize("18446744073709551616"), None);
    assert_eq!(parse_memsize(""), None);
    assert_eq!(parse_memsize("+"), None);
}

#[test]
fn log_warn_keeps_successes() {
    assert_eq!(log_warn::<u32, &str>(Ok(5), "sysctl hw.memsize"), Some(5));
    assert_eq!(log_warn::<u32, &str>(Err("exited 1"), "netstat"), None);
}

#[test]
fn unicode_whitespace_and_names() {
    assert_eq!(parse_thermal("\u{a0}\u{3000}Current pressure level: Fair\u{2009}\n"), Some(1));
    let out = "Name\n\u{e9}th0\u{2003}1 2 3 4 5 10 7 8 20 10\n";
    let v = parse_netstat(out);
    assert_eq!(v.len(), 1);
    assert_eq!(v[0].name, "\u{e9}th0");
    assert_eq!((v[0].rx_bytes, v[0].tx_bytes), (10, 20));
}
