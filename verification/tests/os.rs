use sysfacts::components::os::{
    macos_codename, parse_into_facts, parse_os_facts_windows, parse_sw_vers, windows_codename,
    OSComponent, OsError,
};

fn to_lines(s: &str) -> Vec<String> {
    s.lines().map(|l| l.to_string()).collect()
}

#[test]
fn test_parse_into_facts() {
    let input = to_lines(
        r#"PRETTY_NAME="Ubuntu 22.04.3 LTS"
NAME="Ubuntu"
VERSION_ID="22.04"
VERSION="22.04.3 LTS (Jammy Jellyfish)"
VERSION_CODENAME=jammy
ID=ubuntu"#,
    );
    let facts = parse_into_facts(input).unwrap();
    assert_eq!(facts.pretty_name.as_deref(), Some("Ubuntu 22.04.3 LTS"));
    assert_eq!(facts.name.as_deref(), Some("Ubuntu"));
    assert_eq!(facts.version_id.as_deref(), Some("22.04"));
    assert_eq!(facts.codename.as_deref(), Some("jammy"));
    assert_eq!(facts.id.as_deref(), Some("ubuntu"));
}

#[test]
fn test_parse_into_facts_unknown_keys_ignored() {
    let input = to_lines("NAME=\"Ubuntu\"\nUNKNOWN_KEY=somevalue\nID=ubuntu");
    let facts = parse_into_facts(input).unwrap();
    assert_eq!(facts.name.as_deref(), Some("Ubuntu"));
    assert_eq!(facts.id.as_deref(), Some("ubuntu"));
}

#[test]
fn test_parse_into_facts_missing_fields_are_none() {
    let input = to_lines("ID=ubuntu\n");
    let facts = parse_into_facts(input).unwrap();
    assert_eq!(facts.id.as_deref(), Some("ubuntu"));
    assert!(facts.pretty_name.is_none());
    assert!(facts.name.is_none());
    assert!(facts.version_id.is_none());
    assert!(facts.codename.is_none());
}

#[test]
fn test_parse_into_facts_rhel() {
    let input = to_lines(
        r#"NAME="Red Hat Enterprise Linux"
VERSION="8.10 (Ootpa)"
ID="rhel"
VERSION_ID="8.10"
PRETTY_NAME="Red Hat Enterprise Linux 8.10 (Ootpa)"
VERSION_CODENAME=ootpa"#,
    );
    let facts = parse_into_facts(input).unwrap();
    assert_eq!(facts.pretty_name.as_deref(), Some("Red Hat Enterprise Linux 8.10 (Ootpa)"));
    assert_eq!(facts.name.as_deref(), Some("Red Hat Enterprise Linux"));
    assert_eq!(facts.version_id.as_deref(), Some("8.10"));
    assert_eq!(facts.version.as_deref(), Some("8.10 (Ootpa)"));
    assert_eq!(facts.codename.as_deref(), Some("ootpa"));
    assert_eq!(facts.id.as_deref(), Some("rhel"));
}

#[test]
fn test_parse_into_facts_suse() {
    let input = to_lines(
        r#"NAME="SLES"
VERSION="15-SP5"
VERSION_ID="15.5"
PRETTY_NAME="SUSE Linux Enterprise Server 15 SP5"
ID="sles"#,
    );
    let facts = parse_into_facts(input).unwrap();
    assert_eq!(facts.pretty_name.as_deref(), Some("SUSE Linux Enterprise Server 15 SP5"));
    assert_eq!(facts.name.as_deref(), Some("SLES"));
    assert_eq!(facts.version_id.as_deref(), Some("15.5"));
    assert_eq!(facts.version.as_deref(), Some("15-SP5"));
    assert_eq!(facts.id.as_deref(), Some("sles"));
    assert!(facts.codename.is_none());
}

#[test]
fn os_release_last_value_wins_and_key_is_exact() {
    let facts = parse_into_facts(to_lines("ID=a\nID=\"b\"\n ID=c\nNAME = x\n")).unwrap();
    assert_eq!(facts.id.as_deref(), Some("b"));
    assert!(facts.name.is_none());
}

#[test]
fn test_parse_sw_vers() {
    let _ = OSComponent::new();
    let input = "ProductName:\t\tmacOS\nProductVersion:\t\t15.4.1\nBuildVersion:\t\t24E263\n";
    let facts = parse_sw_vers(input).unwrap();
    assert_eq!(facts.name.as_deref(), Some("macOS"));
    assert_eq!(facts.version.as_deref(), Some("15.4.1"));
    assert_eq!(facts.version_id.as_deref(), Some("15.4.1"));
    assert_eq!(facts.pretty_name.as_deref(), Some("macOS 15.4.1"));
    assert_eq!(facts.id.as_deref(), Some("macos"));
    assert_eq!(facts.codename.as_deref(), Some("Sequoia"));
}

#[test]
fn sw_vers_without_version() {
    let facts = parse_sw_vers("ProductName: macOS\n").unwrap();
    assert_eq!(facts.name.as_deref(), Some("macOS"));
    assert!(facts.pretty_name.is_none());
    assert!(facts.codename.is_none());
    assert_eq!(facts.id.as_deref(), Some("macos"));
}

#[test]
fn test_macos_codename() {
    assert_eq!(macos_codename("15.4.1").as_deref(), Some("Sequoia"));
    assert_eq!(macos_codename("26.0").as_deref(), Some("Tahoe"));
    assert_eq!(macos_codename("14.7").as_deref(), Some("Sonoma"));
    assert_eq!(macos_codename("13.0").as_deref(), Some("Ventura"));
    assert_eq!(macos_codename("12.6.1").as_deref(), Some("Monterey"));
    assert_eq!(macos_codename("11.0").as_deref(), Some("Big Sur"));
    assert_eq!(macos_codename("10.15.7").as_deref(), Some("Catalina"));
    assert_eq!(macos_codename("10.9.5").as_deref(), Some("Mavericks"));
    assert_eq!(macos_codename("99.0"), None);
}

#[test]
fn macos_codename_needs_minor_for_ten() {
    assert_eq!(macos_codename("10"), None);
    assert_eq!(macos_codename("10.6"), Some("Snow Leopard".to_string()));
    assert_eq!(macos_codename(""), None);
}

#[test]
fn test_parse_os_facts_windows() {
    let input = "Microsoft Windows 11 Pro\n10.0.22631\n22631\n";
    let facts = parse_os_facts_windows(input).unwrap();
    assert_eq!(facts.pretty_name.as_deref(), Some("Microsoft Windows 11 Pro"));
    assert_eq!(facts.name.as_deref(), Some("Windows"));
    assert_eq!(facts.version.as_deref(), Some("10.0.22631"));
    assert_eq!(facts.version_id.as_deref(), Some("22631"));
    assert_eq!(facts.id.as_deref(), Some("windows"));
    assert_eq!(facts.codename.as_deref(), Some("23H2"));
}

#[test]
fn os_facts_windows_errors() {
    assert_eq!(parse_os_facts_windows("").err(), Some(OsError::MissingCaption));
    assert_eq!(parse_os_facts_windows("a\n").err(), Some(OsError::MissingVersion));
    assert_eq!(parse_os_facts_windows("a\nb\n").err(), Some(OsError::MissingBuildNumber));
}

#[test]
fn test_windows_codename() {
    assert_eq!(windows_codename("22631").as_deref(), Some("23H2"));
    assert_eq!(windows_codename("26100").as_deref(), Some("24H2"));
    assert_eq!(windows_codename("22621").as_deref(), Some("22H2"));
    assert_eq!(windows_codename("22000").as_deref(), Some("21H2"));
    assert_eq!(windows_codename("19045").as_deref(), Some("22H2"));
    assert_eq!(windows_codename("19041").as_deref(), Some("2004"));
    assert_eq!(windows_codename("99999"), None);
}

#[test]
fn windows_codename_ignores_comments() {
    assert_eq!(windows_codename("#"), None);
    assert_eq!(windows_codename(""), None);
}

#[test]
fn unknown_line_anywhere_changes_nothing() {
    let base = to_lines("NAME=\"Ubuntu\"\nID=ubuntu\nVERSION_ID=\"22.04\"");
    let with = to_lines("NAME=\"Ubuntu\"\nHOME_URL=\"https://x\"\nID=ubuntu\nno equals here\nVERSION_ID=\"22.04\"");
    let a = parse_into_facts(base).unwrap();
    let b = parse_into_facts(with).unwrap();
    assert_eq!(a.name, b.name);
    assert_eq!(a.id, b.id);
    assert_eq!(a.version_id, b.version_id);
    assert_eq!(a.pretty_name, b.pretty_name);
    assert_eq!(a.version, b.version);
    assert_eq!(a.codename, b.codename);
}
