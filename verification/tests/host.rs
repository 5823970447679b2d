use pir_bench::host::{
    cache_size_from_sysfs, cpu_model_from_cpuinfo, cpu_model_from_registry, l3_bytes_from_cim,
    l3_bytes_from_sysfs,
};

const CPUINFO: &str = "processor\t: 0\nvendor_id\t: GenuineIntel\ncpu family\t: 6\nmodel\t\t: 167\nmodel name\t: 11th Gen Intel(R) Core(TM) i5-11400 @ 2.60GHz\nstepping\t: 1\n\nprocessor\t: 1\nmodel name\t: something else\n";

#[test]
fn cpuinfo_names_the_first_model() {
    assert_eq!(
        cpu_model_from_cpuinfo(CPUINFO),
        Some("11th Gen Intel(R) Core(TM) i5-11400 @ 2.60GHz".to_string())
    );
}

#[test]
fn cpuinfo_without_a_model_names_none() {
    assert_eq!(cpu_model_from_cpuinfo(""), None);
    assert_eq!(cpu_model_from_cpuinfo("processor\t: 0\nmodel\t\t: 167\n"), None);
    // The first matching line decides, even when it has no colon.
    assert_eq!(cpu_model_from_cpuinfo("model name without colon\nmodel name : x\n"), None);
    assert_eq!(cpu_model_from_cpuinfo("model name:\r\n"), Some(String::new()));
    assert_eq!(cpu_model_from_cpuinfo("model name : a: b  \r\n"), Some("a: b".to_string()));
}

#[test]
fn registry_names_the_processor() {
    let out = "\r\nHKEY_LOCAL_MACHINE\\HARDWARE\\DESCRIPTION\\System\\CentralProcessor\\0\r\n    ProcessorNameString    REG_SZ    11th Gen Intel(R) Core(TM) i5-11400 @ 2.60GHz\r\n\r\n";
    assert_eq!(
        cpu_model_from_registry(out),
        Some("11th Gen Intel(R) Core(TM) i5-11400 @ 2.60GHz".to_string())
    );
    assert_eq!(
        cpu_model_from_registry("ProcessorNameString REG_SZ a REG_SZ b"),
        Some("a".to_string())
    );
}

#[test]
fn registry_without_a_name_names_none() {
    assert_eq!(cpu_model_from_registry("ERROR: not found\r\n"), None);
    assert_eq!(cpu_model_from_registry("ProcessorNameString REG_DWORD 1\r\n"), None);
    assert_eq!(cpu_model_from_registry("ProcessorNameString REG_SZ    \r\n"), None);
    assert_eq!(cpu_model_from_registry(""), None);
}

#[test]
fn sysfs_sizes_carry_units() {
    assert_eq!(cache_size_from_sysfs("32768K\n"), Some(32768 * 1024));
    assert_eq!(cache_size_from_sysfs("12M"), Some(12 * 1024 * 1024));
    assert_eq!(cache_size_from_sysfs("1G\n"), Some(1024 * 1024 * 1024));
    assert_eq!(cache_size_from_sysfs(" 512 "), Some(512));
    assert_eq!(cache_size_from_sysfs("32KK"), Some(32 * 1024));
    assert_eq!(cache_size_from_sysfs("K"), None);
    assert_eq!(cache_size_from_sysfs("abc"), None);
    assert_eq!(cache_size_from_sysfs(""), None);
    assert_eq!(cache_size_from_sysfs("12 M"), None);
    assert_eq!(cache_size_from_sysfs("18446744073709551615K"), None);
}

#[test]
fn sysfs_tries_level_three_then_two() {
    assert_eq!(l3_bytes_from_sysfs(Some("33792K\n"), Some("1280K\n")), Some(33792 * 1024));
    assert_eq!(l3_bytes_from_sysfs(None, Some("1280K\n")), Some(1280 * 1024));
    assert_eq!(l3_bytes_from_sysfs(Some("junk"), Some("1280K\n")), Some(1280 * 1024));
    assert_eq!(l3_bytes_from_sysfs(Some("junk"), None), None);
    assert_eq!(l3_bytes_from_sysfs(None, None), None);
}

#[test]
fn cim_reports_kib() {
    assert_eq!(l3_bytes_from_cim("12288\r\n"), Some(12288 * 1024));
    assert_eq!(l3_bytes_from_cim(""), None);
    assert_eq!(l3_bytes_from_cim("n/a"), None);
}
