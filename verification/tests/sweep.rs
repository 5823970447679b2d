use pir_bench::json::json_safe;
use pir_bench::report::knee_rows;
use pir_bench::sweep::{
    default_sizes_mib, parse_sizes, parse_usize, sample_iterations, sweep_bytes, MIB,
};

#[test]
fn sizes_default_when_no_args() {
    assert_eq!(parse_sizes(&[]), default_sizes_mib());
    assert_eq!(
        parse_sizes(&["32".to_string(), "nonsense".to_string()]),
        vec![32]
    );
}

#[test]
fn default_sweep_straddles_the_cache() {
    assert_eq!(default_sizes_mib(), vec![2, 4, 16, 64, 256, 512, 1024, 2048]);
    assert_eq!(
        parse_sizes(&["nonsense".to_string(), "-1".to_string()]),
        default_sizes_mib()
    );
    assert_eq!(
        parse_sizes(&["8".to_string(), "x".to_string(), "+16".to_string(), "0".to_string()]),
        vec![8, 16, 0]
    );
}

#[test]
fn usize_parsing_matches_std() {
    for s in [
        "0", "5", "+5", "", "+", "-1", "-0", " 5", "5 ", "12a", "007",
        "18446744073709551615", "18446744073709551616", "99999999999999999999999",
        "٣", "++1",
    ] {
        assert_eq!(parse_usize(s), s.parse::<usize>().ok(), "{s:?}");
    }
}

#[test]
fn samples_run_for_at_least_the_minimum() {
    assert_eq!(sample_iterations(0), 50_000_000);
    assert_eq!(sample_iterations(1), 50_000_000);
    assert_eq!(sample_iterations(1_000_000), 50);
    assert_eq!(sample_iterations(3_000_000), 17);
    assert_eq!(sample_iterations(30_000_000), 2);
    assert_eq!(sample_iterations(49_999_999), 2);
    assert_eq!(sample_iterations(50_000_000), 1);
    assert_eq!(sample_iterations(2_000_000_000), 1);
    for probe in [1u128, 2, 3, 7, 999, 1_234_567, 16_666_667, 25_000_000, 49_999_999] {
        let n = sample_iterations(probe) as u128;
        assert!(n * probe >= 50_000_000, "probe={probe}");
        assert!((n - 1) * probe < 50_000_000, "probe={probe}");
    }
}

#[test]
fn sweep_sizes_are_mib() {
    assert_eq!(MIB, 1_048_576);
    assert_eq!(sweep_bytes(2), 2_097_152);
    assert_eq!(sweep_bytes(0), 0);
}

#[test]
fn knee_rows_need_a_margin_on_both_sides() {
    let mibs = [2usize, 4, 16, 64, 256];
    let l3 = 12 * MIB;
    let rows = knee_rows(&mibs, l3);
    assert_eq!(rows.inside, vec![0, 1]);
    assert_eq!(rows.outside, vec![3, 4]);
    let rows = knee_rows(&mibs, 8 * MIB);
    assert_eq!(rows.inside, vec![0, 1]);
    assert_eq!(rows.outside, vec![2, 3, 4]);
    let rows = knee_rows(&[16, 64], 260 * MIB);
    assert_eq!(rows.inside, vec![0, 1]);
    assert!(rows.outside.is_empty());
}

#[test]
fn cpu_names_are_made_json_safe() {
    assert_eq!(json_safe("Intel(R) Core(TM) i5"), "Intel(R) Core(TM) i5");
    assert_eq!(json_safe("a \"quoted\" name"), "a 'quoted' name");
    assert_eq!(json_safe("\"\""), "''");
    assert_eq!(json_safe(""), "");
}

#[test]
fn cpu_names_escape_backslashes_and_controls() {
    assert_eq!(json_safe("a\\x"), "a\\\\x");
    assert_eq!(json_safe("tab\there"), "tab\\u0009here");
    assert_eq!(json_safe("\n"), "\\u000a");
    assert_eq!(json_safe("\u{1f}\u{0}"), "\\u001f\\u0000");
    assert_eq!(json_safe("caf\u{e9} \u{7f}"), "caf\u{e9} \u{7f}");
    assert_eq!(json_safe("\"\\"), "'\\\\");
}
