use sysfacts::components::uptime::{
    parse_boottime, parse_uptime, parse_uptime_windows, uptime_since_boot, UptimeComponent,
    UptimeError,
};

#[test]
fn test_parse_boottime() {
    let s = "{ sec = 1747602826, usec = 0 } Mon May 19 05:33:46 2025\n";
    assert_eq!(parse_boottime(s).unwrap(), 1747602826);
}

#[test]
fn test_parse_boottime_with_usec() {
    let s = "{ sec = 1716000000, usec = 123456 } Fri May 17 00:00:00 2024\n";
    assert_eq!(parse_boottime(s).unwrap(), 1716000000);
}

#[test]
fn test_parse_boottime_malformed() {
    assert!(parse_boottime("no sec field here").is_err());
}

#[test]
fn boottime_errors() {
    assert_eq!(parse_boottime("{ sec =").err(), Some(UptimeError::MalformedBoottime));
    assert_eq!(parse_boottime("{ sec = abc, usec = 0 }").err(), Some(UptimeError::InvalidBoottimeSec));
}

#[test]
fn test_parse_uptime() {
    assert_eq!(parse_uptime("358391.42 1234567.89").unwrap(), 358391);
}

#[test]
fn test_parse_uptime_no_fraction() {
    assert_eq!(parse_uptime("358391 1234567.89").unwrap(), 358391);
}

#[test]
fn test_parse_uptime_empty() {
    assert!(parse_uptime("").is_err());
}

#[test]
fn uptime_errors_and_signs() {
    assert_eq!(parse_uptime("   \n").err(), Some(UptimeError::Empty));
    assert_eq!(parse_uptime("abc 1").err(), Some(UptimeError::NotANumber));
    assert_eq!(parse_uptime("-1.5 2").err(), Some(UptimeError::NotANumber));
    assert_eq!(parse_uptime("+12.5 2").unwrap(), 12);
    assert_eq!(parse_uptime("18446744073709551616.0").err(), Some(UptimeError::NotANumber));
}

#[test]
fn uptime_windows_and_boot() {
    let _ = UptimeComponent::new();
    assert_eq!(parse_uptime_windows(" 4242\r\n").unwrap(), 4242);
    assert_eq!(parse_uptime_windows("x").err(), Some(UptimeError::NotANumber));
    assert_eq!(uptime_since_boot(100, 40), 60);
    assert_eq!(uptime_since_boot(40, 100), 0);
}
