//! Uptime: the number of whole seconds since the system booted.
use vstd::prelude::*;
use crate::text;

verus! {

/// The uptime fact.
pub struct UptimeFacts {
    pub seconds: u64,
}

/// Collects the uptime.
pub struct UptimeComponent;

impl UptimeComponent {
    /// The component; it holds nothing.
    pub fn new() -> (r: Self)
        ensures
            r == UptimeComponent,
    {
        UptimeComponent
    }
}

/// Why an uptime could not be read.
#[derive(Debug, Clone, Copy, PartialEq, Eq, Structural)]
pub enum UptimeError {
    /// The text holds no word.
    Empty,
    /// The seconds are not an unsigned number.
    NotANumber,
    /// No value follows `sec =` in the boot time.
    MalformedBoottime,
    /// The value after `sec =` is not an unsigned number.
    InvalidBoottimeSec,
}

/// The uptime in a line of `/proc/uptime`: the whole part of its first word.
pub open spec fn uptime_of(line: Seq<char>) -> Result<u64, UptimeError> {
    let ws = text::words(line);
    if ws.len() == 0 {
        Err(UptimeError::Empty)
    } else {
        match text::parse_u64(text::before_first(ws[0], '.')) {
            Some(v) => Ok(v),
            None => Err(UptimeError::NotANumber),
        }
    }
}

/// The boot time in seconds in the output of `sysctl -n kern.boottime`: the
/// second word after the first `sec`, without its trailing commas.
pub open spec fn boottime_of(s: Seq<char>) -> Result<u64, UptimeError> {
    let ws = text::words(s);
    match text::position_of(ws, "sec"@) {
        Some(k) => if k + 2 < ws.len() {
            match text::parse_u64(text::trim_end_char(ws[k + 2], ',')) {
                Some(v) => Ok(v),
                None => Err(UptimeError::InvalidBoottimeSec),
            }
        } else {
            Err(UptimeError::MalformedBoottime)
        },
        None => Err(UptimeError::MalformedBoottime),
    }
}

/// The uptime in seconds in a line of `/proc/uptime`, such as `358391.42 1234567.89`.
pub fn parse_uptime(line: &str) -> (r: Result<u64, UptimeError>)
    ensures
        r == uptime_of(line@),
{
    let c = text::chars_of(line);
    let ws = text::words_of(c.as_slice());
    if ws.len() == 0 {
        return Err(UptimeError::Empty);
    }
    let whole = text::before_first_chars(ws[0].as_slice(), '.');
    match text::parse_u64_of(whole.as_slice()) {
        Some(v) => Ok(v),
        None => Err(UptimeError::NotANumber),
    }
}

/// The boot time in seconds in the output of `sysctl -n kern.boottime`, such as
/// `{ sec = 1747602826, usec = 0 } Mon May 19 05:33:46 2025`.
pub fn parse_boottime(s: &str) -> (r: Result<u64, UptimeError>)
    ensures
        r == boottime_of(s@),
{
    let c = text::chars_of(s);
    let ws = text::words_of(c.as_slice());
    match text::position_of_word(&ws, "sec") {
        Some(k) => {
            if k < ws.len() && ws.len() - k > 2 {
                let v = text::trim_end_char_chars(ws[k + 2].as_slice(), ',');
                match text::parse_u64_of(v.as_slice()) {
                    Some(n) => Ok(n),
                    None => Err(UptimeError::InvalidBoottimeSec),
                }
            } else {
                Err(UptimeError::MalformedBoottime)
            }
        },
        None => Err(UptimeError::MalformedBoottime),
    }
}

/// The uptime in the output of the Windows script: the trimmed text as seconds.
pub fn parse_uptime_windows(s: &str) -> (r: Result<u64, UptimeError>)
    ensures
        r == (match text::parse_u64(text::trim(s@)) {
            Some(v) => Ok(v),
            None => Err(UptimeError::NotANumber),
        }),
{
    let c = text::chars_of(s);
    let t = text::trim_chars(c.as_slice());
    match text::parse_u64_of(t.as_slice()) {
        Some(v) => Ok(v),
        None => Err(UptimeError::NotANumber),
    }
}

/// The uptime at time `now` of a system that booted at `boot` (both in seconds
/// since the epoch); zero if the boot time is later than `now`.
pub fn uptime_since_boot(now: u64, boot: u64) -> (r: u64)
    ensures
        r == (if now >= boot {
            (now - boot) as u64
        } else {
            0
        }),
{
    now.saturating_sub(boot)
}

} // verus!
