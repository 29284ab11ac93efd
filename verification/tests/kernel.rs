use sysfacts::components::kernel::{
    kernel_facts_from, parse_kernel_facts_windows, parse_majorversion, parse_version, KernelComponent,
    KernelError,
};

#[test]
fn test_parse_kernel_facts_windows() {
    let input = "Windows\nAMD64\n10.0.22631\n";
    let facts = parse_kernel_facts_windows(input).unwrap();
    assert_eq!(facts.ostype, "Windows");
    assert_eq!(facts.arch, "AMD64");
    assert_eq!(facts.release, "10.0.22631");
    assert_eq!(facts.version, "10.0.22631");
    assert_eq!(facts.majorversion, "10.0");
}

#[test]
fn test_parse_version() {
    assert_eq!(parse_version("5.15.0-48-generic"), "5.15.0");
    assert_eq!(parse_version("5.15.0-48"), "5.15.0");
    assert_eq!(parse_version("5.15.0"), "5.15.0");
    assert_eq!(parse_version("5.15"), "5.15");
    assert_eq!(parse_version("5"), "5");
}

#[test]
fn test_parse_majorversion() {
    assert_eq!(parse_majorversion("5.15.0-48-generic"), "5.15");
    assert_eq!(parse_majorversion("5.15.0-48"), "5.15");
    assert_eq!(parse_majorversion("5.15.0"), "5.15");
    assert_eq!(parse_majorversion("5.15"), "5.15");
    assert_eq!(parse_majorversion("5"), "5");
}

#[test]
fn majorversion_edge_cases() {
    assert_eq!(parse_majorversion("5."), "5.");
    assert_eq!(parse_majorversion(".."), ".");
    assert_eq!(parse_majorversion(""), "");
    assert_eq!(parse_majorversion("6-rc1.2.3"), "6-rc1.2");
}

#[test]
fn version_is_idempotent() {
    let v = parse_version("6.1.0-13-amd64");
    assert_eq!(parse_version(&v), v);
    let m = parse_majorversion("6.1.0-13-amd64");
    assert_eq!(parse_majorversion(&m), m);
}

#[test]
fn kernel_facts_windows_errors() {
    assert_eq!(parse_kernel_facts_windows("").err(), Some(KernelError::MissingOstype));
    assert_eq!(parse_kernel_facts_windows("Windows\n").err(), Some(KernelError::MissingArch));
    assert_eq!(parse_kernel_facts_windows("Windows\nAMD64").err(), Some(KernelError::MissingRelease));
}

#[test]
fn kernel_facts_from_release() {
    let f = kernel_facts_from("Linux".to_string(), "x86_64".to_string(), "5.15.0-48-generic".to_string());
    assert_eq!(f.ostype, "Linux");
    assert_eq!(f.arch, "x86_64");
    assert_eq!(f.version, "5.15.0");
    assert_eq!(f.majorversion, "5.15");
}

#[test]
fn kernel_component_root() {
    assert_eq!(KernelComponent::new().fsroot(), "/");
    assert_eq!(KernelComponent::with_root("/tmp/x".to_string()).fsroot(), "/tmp/x");
}
