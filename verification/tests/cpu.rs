use sysfacts::components::cpu::{
    cpu_facts_from, get_architecture, get_cpu_count, get_cpu_model, get_logical_core_count,
    get_physical_core_count, physical_core_count_fits, CPUComponent,
};

const X86_64_SINGLE: &str = "\
processor	: 0
model name	: Intel(R) Core(TM) i7-9750H CPU @ 2.60GHz
physical id	: 0
cpu cores	: 6
flags		: fpu vme lm
processor	: 1
model name	: Intel(R) Core(TM) i7-9750H CPU @ 2.60GHz
physical id	: 0
cpu cores	: 6
flags		: fpu vme lm";

const X86_64_MULTI_SOCKET: &str = "\
processor	: 0
model name	: Intel(R) Xeon(R) CPU E5-2680 v4
physical id	: 0
cpu cores	: 4
flags		: fpu lm
processor	: 1
model name	: Intel(R) Xeon(R) CPU E5-2680 v4
physical id	: 1
cpu cores	: 4
flags		: fpu lm";

const X86_32: &str = "\
processor	: 0
model name	: Intel(R) Pentium(R) 4
physical id	: 0
cpu cores	: 1
flags		: fpu vme pse";

const AARCH64: &str = "\
processor	: 0
CPU architecture: 8
CPU implementer	: 0x41
CPU part	: 0xd0b
processor	: 1
CPU architecture: 8
CPU implementer	: 0x41
CPU part	: 0xd0b";

const ARMV7: &str = "\
processor	: 0
CPU architecture: 7
CPU implementer	: 0x41
CPU part	: 0xc09";

// --- get_architecture ---

#[test]
fn test_get_architecture_x86_64() {
    assert_eq!(get_architecture(X86_64_SINGLE), "x86_64");
}

#[test]
fn test_get_architecture_x86_32() {
    assert_eq!(get_architecture(X86_32), "x86");
}

#[test]
fn test_get_architecture_aarch64() {
    assert_eq!(get_architecture(AARCH64), "aarch64");
}

#[test]
fn test_get_architecture_armv7() {
    assert_eq!(get_architecture(ARMV7), "armv7l");
}

#[test]
fn test_get_architecture_unknown() {
    assert_eq!(get_architecture("processor\t: 0\nvendor_id\t: GenuineIntel"), "unknown");
}

#[test]
fn architecture_other_arm_version() {
    assert_eq!(get_architecture("CPU architecture: 6\n"), "arm_v6");
}

#[test]
fn architecture_first_line_decides() {
    assert_eq!(get_architecture("CPU architecture: 7\nflags : lm\n"), "armv7l");
    assert_eq!(get_architecture("flags : fpu\nCPU architecture: 8\n"), "x86");
}

// --- get_cpu_count ---

#[test]
fn test_get_cpu_count_single_socket() {
    assert_eq!(get_cpu_count(X86_64_SINGLE), 1);
}

#[test]
fn test_get_cpu_count_multi_socket() {
    assert_eq!(get_cpu_count(X86_64_MULTI_SOCKET), 2);
}

#[test]
fn test_get_cpu_count_arm_no_physical_id() {
    // ARM doesn't report physical id — should default to 1
    assert_eq!(get_cpu_count(AARCH64), 1);
}

#[test]
fn cpu_count_distinct_ids() {
    assert_eq!(get_cpu_count("physical id : 3\nphysical id : 1\nphysical id : 3\n"), 2);
}

// --- get_logical_core_count ---

#[test]
fn test_get_logical_core_count() {
    assert_eq!(get_logical_core_count(X86_64_SINGLE), 2);
    assert_eq!(get_logical_core_count(X86_64_MULTI_SOCKET), 2);
    assert_eq!(get_logical_core_count(AARCH64), 2);
    assert_eq!(get_logical_core_count(ARMV7), 1);
}

#[test]
fn logical_core_count_needs_colon() {
    assert_eq!(get_logical_core_count("  processor : 0\nprocessor 1\n"), 1);
}

// --- get_physical_core_count ---

#[test]
fn test_get_physical_core_count_x86_single_socket() {
    // 6 cores per socket * 1 socket
    assert!(physical_core_count_fits(X86_64_SINGLE, 1));
    assert_eq!(get_physical_core_count(X86_64_SINGLE, 1), 6);
}

#[test]
fn test_get_physical_core_count_x86_multi_socket() {
    // 4 cores per socket * 2 sockets
    assert!(physical_core_count_fits(X86_64_MULTI_SOCKET, 2));
    assert_eq!(get_physical_core_count(X86_64_MULTI_SOCKET, 2), 8);
}

#[test]
fn test_get_physical_core_count_arm_falls_back_to_logical() {
    // ARM has no "cpu cores" field — physical == logical
    assert_eq!(get_physical_core_count(AARCH64, 1), get_logical_core_count(AARCH64));
}

#[test]
fn physical_core_count_skips_unreadable_cores() {
    assert_eq!(get_physical_core_count("cpu cores : many\ncpu cores : 3\n", 2), 6);
}

#[test]
fn physical_core_count_overflow_is_detected() {
    assert!(!physical_core_count_fits("cpu cores : 4294967295\n", 2));
    assert!(physical_core_count_fits("cpu cores : 4294967295\n", 1));
}

// --- get_cpu_model ---

#[test]
fn test_get_cpu_model_x86() {
    let model = get_cpu_model(X86_64_SINGLE, None);
    assert_eq!(model, vec!["Intel(R) Core(TM) i7-9750H CPU @ 2.60GHz"]);
}

#[test]
fn test_get_cpu_model_deduplicates() {
    // Both processors in X86_64_SINGLE have the same model name
    let model = get_cpu_model(X86_64_SINGLE, None);
    assert_eq!(model.len(), 1);
}

#[test]
fn test_get_cpu_model_multi_socket_different_cpus() {
    let contents = "\
processor	: 0
model name	: Intel(R) Xeon(R) E5-2690
physical id	: 0
processor	: 1
model name	: Intel(R) Xeon(R) E5-2680
physical id	: 1";
    let mut model = get_cpu_model(contents, None);
    assert_eq!(model, vec!["Intel(R) Xeon(R) E5-2680", "Intel(R) Xeon(R) E5-2690"]);
    model.sort();
    assert_eq!(model.len(), 2);
    assert!(model.contains(&"Intel(R) Xeon(R) E5-2680".to_string()));
    assert!(model.contains(&"Intel(R) Xeon(R) E5-2690".to_string()));
}

#[test]
fn test_get_cpu_model_arm_implementer_fallback() {
    // No model name, no device-tree (not present in test env) — falls back to implementer/part
    let model = get_cpu_model(AARCH64, None);
    assert_eq!(model, vec!["ARM (implementer=0x41, part=0xd0b)"]);
}

#[test]
fn test_get_cpu_model_empty_when_nothing_known() {
    assert_eq!(get_cpu_model("processor\t: 0", None), vec![] as Vec<String>);
}

#[test]
fn cpu_model_from_device_tree() {
    assert_eq!(get_cpu_model(AARCH64, Some("Raspberry Pi 4 Model B\0")), vec!["Raspberry Pi 4 Model B"]);
    assert_eq!(get_cpu_model(AARCH64, Some("\0\0")), vec!["ARM (implementer=0x41, part=0xd0b)"]);
    assert_eq!(get_cpu_model(X86_32, Some("Board")), vec!["Intel(R) Pentium(R) 4"]);
}

#[test]
fn cpu_facts_all_fields() {
    let _ = CPUComponent::new();
    let f = cpu_facts_from(X86_64_MULTI_SOCKET, None);
    assert_eq!(f.count, 2);
    assert_eq!(f.physical_cores, 8);
    assert_eq!(f.logical_cores, 2);
    assert_eq!(f.architecture, "x86_64");
    assert_eq!(f.model, vec!["Intel(R) Xeon(R) CPU E5-2680 v4"]);
}
