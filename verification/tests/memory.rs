use sysfacts::components::memory::{
    build_memory_facts, meminfo_values_fit, parse_memory_facts_windows, parse_meminfo,
    swap_unit_multiplier, swapusage_total_parts, swapusage_unit_splits_check, MemoryComponent,
    MemoryError,
};
use sysfacts::table::TextMap;

/// The total of the swap usage in bytes, read as the host program reads it.
fn swap_total(s: &str) -> Result<u64, String> {
    assert!(swapusage_unit_splits_check(s));
    let (num, unit) = swapusage_total_parts(s).map_err(|e| format!("{:?}", e))?;
    let n: f64 = num.parse().map_err(|_| "parsing swap total value".to_string())?;
    let m = swap_unit_multiplier(&unit).ok_or_else(|| format!("unknown unit '{}'", unit))?;
    Ok((n * m as f64) as u64)
}

#[test]
fn test_parse_meminfo() {
    let content = "MemTotal:       16384 kB\nSwapTotal:      8192 kB\n";
    assert!(meminfo_values_fit(content));
    let meminfo = parse_meminfo(content);
    assert_eq!(meminfo.get("MemTotal"), Some(&16777216));
    assert_eq!(meminfo.get("SwapTotal"), Some(&8388608));
}

#[test]
fn test_parse_meminfo_units() {
    let content = "HugePages_Total: 1024 B\nDirectMap2M:       2 MB\nSomeValue:         3 mB\n";
    let meminfo = parse_meminfo(content);
    assert_eq!(meminfo.get("HugePages_Total"), Some(&1024));
    assert_eq!(meminfo.get("DirectMap2M"), Some(&2_000_000));
    assert_eq!(meminfo.get("SomeValue"), Some(&3_000_000));
}

#[test]
fn meminfo_skips_unreadable_lines_and_keeps_last() {
    let content = "NoColon 12\nEmpty:\nBad: x kB\nDup: 1\nDup: 2 kB\nOdd: 7 GB\n";
    let meminfo = parse_meminfo(content);
    assert_eq!(meminfo.len(), 2);
    assert_eq!(meminfo.get("Dup"), Some(&2048));
    assert_eq!(meminfo.get("Odd"), Some(&7));
    assert_eq!(meminfo.get("Bad"), None);
}

#[test]
fn meminfo_overflow_is_detected() {
    assert!(!meminfo_values_fit("Big: 18446744073709551615 kB\n"));
    assert!(meminfo_values_fit("Big: 18446744073709551615\n"));
}

#[test]
fn test_build_memory_facts() {
    let _ = MemoryComponent::new();
    let mut meminfo = TextMap::new();
    meminfo.insert("MemTotal".to_string(), 16777216);
    meminfo.insert("SwapTotal".to_string(), 8388608);
    let facts = build_memory_facts(meminfo);
    assert_eq!(facts.get("real").unwrap().total_bytes, 16777216);
    assert_eq!(facts.get("swap").unwrap().total_bytes, 8388608);
}

#[test]
fn memory_facts_without_swap() {
    let facts = build_memory_facts(parse_meminfo("MemTotal: 1 kB\nOther: 5\n"));
    assert_eq!(facts.len(), 1);
    assert_eq!(facts.get("real").unwrap().total_bytes, 1024);
    assert!(facts.get("swap").is_none());
}

#[test]
fn test_parse_vm_swapusage_megabytes() {
    let s = "total = 2048.00M  used = 0.00M  free = 2048.00M  (encrypted)";
    assert_eq!(swap_total(s).unwrap(), 2048 * 1024 * 1024);
}

#[test]
fn test_parse_vm_swapusage_gigabytes() {
    let s = "total = 2.00G  used = 0.00G  free = 2.00G  (encrypted)";
    assert_eq!(swap_total(s).unwrap(), 2 * 1024 * 1024 * 1024);
}

#[test]
fn test_parse_vm_swapusage_no_swap() {
    let s = "total = 0.00B  used = 0.00B  free = 0.00B";
    assert_eq!(swap_total(s).unwrap(), 0);
}

#[test]
fn test_parse_vm_swapusage_kilobytes() {
    let s = "total = 1024.00K  used = 0.00K  free = 1024.00K";
    assert_eq!(swap_total(s).unwrap(), 1024 * 1024);
}

#[test]
fn swapusage_parts_and_errors() {
    let (num, unit) = swapusage_total_parts("total = 2048.00M  used = 0.00M").unwrap();
    assert_eq!(num, "2048.00");
    assert_eq!(unit, "M");
    assert_eq!(swapusage_total_parts("used = 0.00M").err(), Some(MemoryError::MissingSwapTotal));
    assert_eq!(swapusage_total_parts("total =").err(), Some(MemoryError::MissingSwapTotal));
    assert_eq!(swap_unit_multiplier("T"), None);
    assert!(!swapusage_unit_splits_check("total = 12µ"));
}

#[test]
fn test_parse_memory_facts_windows() {
    let s = "17179869184\n4294967296\n";
    let facts = parse_memory_facts_windows(s).unwrap();
    assert_eq!(facts.get("real").unwrap().total_bytes, 17179869184);
    assert_eq!(facts.get("swap").unwrap().total_bytes, 4294967296);
}

#[test]
fn memory_facts_windows_errors() {
    assert_eq!(parse_memory_facts_windows("").err(), Some(MemoryError::MissingTotalPhysicalMemory));
    assert_eq!(parse_memory_facts_windows("x\n").err(), Some(MemoryError::InvalidTotalPhysicalMemory));
    assert_eq!(parse_memory_facts_windows("1\n").err(), Some(MemoryError::MissingTotalPageFile));
    assert_eq!(parse_memory_facts_windows("1\n-2\n").err(), Some(MemoryError::InvalidTotalPageFile));
}
