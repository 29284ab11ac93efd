//! Operating system facts: name, version and codename of the installed system.
use vstd::prelude::*;
use crate::text;

verus! {

/// The facts about the operating system.
pub struct OSFacts {
    pub pretty_name: Option<String>,
    pub name: Option<String>,
    pub version_id: Option<String>,
    pub version: Option<String>,
    pub codename: Option<String>,
    pub id: Option<String>,
}

/// The facts about the operating system, each text taken by its characters.
pub struct OSSpec {
    pub pretty_name: Option<Seq<char>>,
    pub name: Option<Seq<char>>,
    pub version_id: Option<Seq<char>>,
    pub version: Option<Seq<char>>,
    pub codename: Option<Seq<char>>,
    pub id: Option<Seq<char>>,
}

impl View for OSFacts {
    type V = OSSpec;

    open spec fn view(&self) -> OSSpec {
        OSSpec {
            pretty_name: text::opt_view(self.pretty_name),
            name: text::opt_view(self.name),
            version_id: text::opt_view(self.version_id),
            version: text::opt_view(self.version),
            codename: text::opt_view(self.codename),
            id: text::opt_view(self.id),
        }
    }
}

/// Collects the operating system facts.
pub struct OSComponent;

impl OSComponent {
    /// The component; it holds nothing.
    pub fn new() -> (r: Self)
        ensures
            r == OSComponent,
    {
        OSComponent
    }
}

/// Why the operating system facts could not be read.
#[derive(Debug, Clone, Copy, PartialEq, Eq, Structural)]
pub enum OsError {
    MissingCaption,
    MissingVersion,
    MissingBuildNumber,
}

/// The codenames of the macOS versions, one `{version} {codename}` per line;
/// the version is the major number, or `10.{minor}` before macOS 11.
pub const MACOS_VERSIONS: &'static str = "# macOS version codename
10.0 Cheetah
10.1 Puma
10.2 Jaguar
10.3 Panther
10.4 Tiger
10.5 Leopard
10.6 Snow Leopard
10.7 Lion
10.8 Mountain Lion
10.9 Mavericks
10.10 Yosemite
10.11 El Capitan
10.12 Sierra
10.13 High Sierra
10.14 Mojave
10.15 Catalina
11 Big Sur
12 Monterey
13 Ventura
14 Sonoma
15 Sequoia
26 Tahoe
";

/// The release names of the Windows builds, one `{build} {release}` per line.
pub const WINDOWS_VERSIONS: &'static str = "# Windows build release
10240 1507
10586 1511
14393 1607
15063 1703
16299 1709
17134 1803
17763 1809
18362 1903
18363 1909
19041 2004
19042 20H2
19043 21H1
19044 21H2
19045 22H2
22000 21H2
22621 22H2
22631 23H2
26100 24H2
";

/// The value of `key` on a line of a table: lines that start with `#` and
/// empty lines are skipped; a line is the key, a space, then the value.
pub open spec fn table_entry(l: Seq<char>, key: Seq<char>) -> Option<Seq<char>> {
    if (l.len() > 0 && l[0] == '#') || l.len() == 0 {
        None
    } else {
        match text::split_once(l, ' ') {
            Some((k, v)) => if k == key {
                Some(v)
            } else {
                None
            },
            None => None,
        }
    }
}

/// The value of `key` in a table: that of the first line that has it.
pub open spec fn table_value(table: Seq<char>, key: Seq<char>) -> Option<Seq<char>> {
    text::first_some(text::lines(table), |l: Seq<char>| table_entry(l, key))
}

fn table_entry_of(l: &[char], key: &[char]) -> (r: Option<Vec<char>>)
    ensures
        text::opt_chars_view(r) == table_entry(l@, key@),
{
    if (l.len() > 0 && l[0] == '#') || l.len() == 0 {
        return None;
    }
    match text::split_once_chars(l, ' ') {
        Some((k, v)) => if text::eq_chars(k.as_slice(), key) {
            Some(v)
        } else {
            None
        },
        None => None,
    }
}

/// The value of `key` in a table.
pub fn lookup_table(table: &str, key: &[char]) -> (r: Option<Vec<char>>)
    ensures
        text::opt_chars_view(r) == table_value(table@, key@),
{
    let c = text::chars_of(table);
    let ls = text::lines_of(c.as_slice());
    let ghost lv = text::lines(table@);
    let ghost f = |l: Seq<char>| table_entry(l, key@);
    let mut i: usize = 0;
    proof {
        text::lemma_take_all(lv);
    }
    while i < ls.len()
        invariant
            i <= ls@.len(),
            text::views(ls@) == lv,
            lv == text::lines(table@),
            f == (|l: Seq<char>| table_entry(l, key@)),
            text::first_some(lv, f) == text::first_some(lv.skip(i as int), f),
        decreases ls.len() - i,
    {
        assert(ls@[i as int]@ == lv[i as int]);
        proof {
            text::lemma_first_some_step(lv, f, i as int);
        }
        let e = table_entry_of(ls[i].as_slice(), key);
        if e.is_some() {
            return e;
        }
        i = i + 1;
    }
    proof {
        text::lemma_first_some_end(lv, f);
    }
    None
}

/// The key of a macOS version in the table: its major number, or
/// `10.{minor}` when the major number is 10 (none without a minor number).
pub open spec fn macos_key(version: Seq<char>) -> Option<Seq<char>> {
    let parts = text::split(version, '.');
    if parts[0] == "10"@ {
        if parts.len() >= 2 {
            Some("10."@ + parts[1])
        } else {
            None
        }
    } else {
        Some(parts[0])
    }
}

/// The codename of a macOS version.
pub open spec fn macos_codename_of(version: Seq<char>) -> Option<Seq<char>> {
    match macos_key(version) {
        Some(k) => table_value(MACOS_VERSIONS@, k),
        None => None,
    }
}

/// The codename of a macOS version, such as `Sequoia` for `15.4.1`.
pub fn macos_codename(version: &str) -> (r: Option<String>)
    ensures
        text::opt_view(r) == macos_codename_of(version@),
{
    let c = text::chars_of(version);
    let parts = text::split_of(c.as_slice(), '.');
    proof {
        text::lemma_split_nonempty(version@, '.');
    }
    let key = if text::eq_str(parts[0].as_slice(), "10") {
        if parts.len() >= 2 {
            assert(text::views(parts@)[1] == parts@[1]@);
            let prefix = text::chars_of("10.");
            text::concat_chars(prefix.as_slice(), parts[1].as_slice())
        } else {
            return None;
        }
    } else {
        text::slice_chars(parts[0].as_slice(), 0, parts[0].len())
    };
    assert(text::views(parts@)[0] == parts@[0]@);
    assert(macos_key(version@) == Some(key@));
    text::opt_string_of(lookup_table(MACOS_VERSIONS, key.as_slice()))
}

/// The release name of a Windows build.
pub open spec fn windows_codename_of(build: Seq<char>) -> Option<Seq<char>> {
    table_value(WINDOWS_VERSIONS@, build)
}

/// The release name of a Windows build, such as `23H2` for `22631`.
pub fn windows_codename(build: &str) -> (r: Option<String>)
    ensures
        text::opt_view(r) == windows_codename_of(build@),
{
    let c = text::chars_of(build);
    text::opt_string_of(lookup_table(WINDOWS_VERSIONS, c.as_slice()))
}

/// The value of `key` on a line of `/etc/os-release`: the line is `{key}={value}`
/// (split at its first `=`), and the value loses its surrounding double quotes.
pub open spec fn os_release_field(l: Seq<char>, key: Seq<char>) -> Option<Seq<char>> {
    match text::split_once(l, '=') {
        Some((k, v)) => if k == key {
            Some(text::trim_char(v, '"'))
        } else {
            None
        },
        None => None,
    }
}

/// The value of `key` in the lines of `/etc/os-release`: that of the last line that has it.
pub open spec fn os_release_value(ls: Seq<Seq<char>>, key: Seq<char>) -> Option<Seq<char>> {
    text::last_some(ls, |l: Seq<char>| os_release_field(l, key))
}

/// The facts in the lines of `/etc/os-release`.
pub open spec fn os_release_facts(ls: Seq<Seq<char>>) -> OSSpec {
    OSSpec {
        pretty_name: os_release_value(ls, "PRETTY_NAME"@),
        name: os_release_value(ls, "NAME"@),
        version_id: os_release_value(ls, "VERSION_ID"@),
        version: os_release_value(ls, "VERSION"@),
        codename: os_release_value(ls, "VERSION_CODENAME"@),
        id: os_release_value(ls, "ID"@),
    }
}

/// Whether `key` is one of the keys of `/etc/os-release` that the facts read.
pub open spec fn is_os_release_key(key: Seq<char>) -> bool {
    key == "PRETTY_NAME"@ || key == "NAME"@ || key == "VERSION_ID"@ || key == "VERSION"@
        || key == "VERSION_CODENAME"@ || key == "ID"@
}

/// A line of `/etc/os-release` whose key is none of those that the facts
/// read (or that holds no `=`) changes none of the facts, wherever it stands.
pub proof fn lemma_unknown_keys_ignored(ls: Seq<Seq<char>>, k: int, l: Seq<char>)
    requires
        0 <= k <= ls.len(),
        match text::split_once(l, '=') {
            Some((key, _)) => !is_os_release_key(key),
            None => true,
        },
    ensures
        os_release_facts(ls.insert(k, l)) == os_release_facts(ls),
{
    text::lemma_last_some_insert_none(ls, k, l, |l: Seq<char>| os_release_field(l, "PRETTY_NAME"@));
    text::lemma_last_some_insert_none(ls, k, l, |l: Seq<char>| os_release_field(l, "NAME"@));
    text::lemma_last_some_insert_none(ls, k, l, |l: Seq<char>| os_release_field(l, "VERSION_ID"@));
    text::lemma_last_some_insert_none(ls, k, l, |l: Seq<char>| os_release_field(l, "VERSION"@));
    text::lemma_last_some_insert_none(
        ls,
        k,
        l,
        |l: Seq<char>| os_release_field(l, "VERSION_CODENAME"@),
    );
    text::lemma_last_some_insert_none(ls, k, l, |l: Seq<char>| os_release_field(l, "ID"@));
}

/// A fact whose key is on no line of `/etc/os-release` is empty.
pub proof fn lemma_missing_key_empty(ls: Seq<Seq<char>>, key: Seq<char>)
    requires
        forall|i: int|
            0 <= i < ls.len() ==> match text::split_once(#[trigger] ls[i], '=') {
                Some((k, _)) => k != key,
                None => true,
            },
    ensures
        os_release_value(ls, key) is None,
{
    let f = |l: Seq<char>| os_release_field(l, key);
    assert forall|i: int| 0 <= i < ls.len() implies f(#[trigger] ls[i]) is None by {
        assert(match text::split_once(ls[i], '=') {
            Some((k, _)) => k != key,
            None => true,
        });
    }
    text::lemma_last_some_none(ls, f);
}

fn os_release_field_of(l: &[char], key: &str) -> (r: Option<Vec<char>>)
    ensures
        text::opt_chars_view(r) == os_release_field(l@, key@),
{
    match text::split_once_chars(l, '=') {
        Some((k, v)) => if text::eq_str(k.as_slice(), key) {
            Some(text::trim_char_chars(v.as_slice(), '"'))
        } else {
            None
        },
        None => None,
    }
}

fn os_release_value_of(ls: &Vec<String>, key: &str) -> (r: Option<String>)
    ensures
        text::opt_view(r) == os_release_value(text::string_views(ls@), key@),
{
    let ghost lv = text::string_views(ls@);
    let ghost f = |l: Seq<char>| os_release_field(l, key@);
    let mut cur: Option<Vec<char>> = None;
    let mut i: usize = 0;
    assert(lv.take(0) =~= Seq::<Seq<char>>::empty());
    while i < ls.len()
        invariant
            i <= ls@.len(),
            lv == text::string_views(ls@),
            f == (|l: Seq<char>| os_release_field(l, key@)),
            text::opt_chars_view(cur) == text::last_some(lv.take(i as int), f),
        decreases ls.len() - i,
    {
        proof {
            text::lemma_last_some_step(lv, f, i as int);
        }
        let c = text::chars_of(ls[i].as_str());
        assert(c@ == lv[i as int]);
        let e = os_release_field_of(c.as_slice(), key);
        if e.is_some() {
            cur = e;
        }
        i = i + 1;
    }
    assert(lv.take(i as int) =~= lv);
    text::opt_string_of(cur)
}

/// The facts in the lines of `/etc/os-release`, `KEY=value` or `KEY="value"`;
/// unknown keys are ignored and a missing key leaves its fact empty.
pub fn parse_into_facts(lines: Vec<String>) -> (r: Result<OSFacts, OsError>)
    ensures
        r matches Ok(f) && f@ == os_release_facts(text::string_views(lines@)),
{
    let pretty_name = os_release_value_of(&lines, "PRETTY_NAME");
    let name = os_release_value_of(&lines, "NAME");
    let version_id = os_release_value_of(&lines, "VERSION_ID");
    let version = os_release_value_of(&lines, "VERSION");
    let codename = os_release_value_of(&lines, "VERSION_CODENAME");
    let id = os_release_value_of(&lines, "ID");
    Ok(OSFacts { pretty_name, name, version_id, version, codename, id })
}

/// The value of `key` on a line of the output of `sw_vers`: the line is
/// `{key}:{value}`, both trimmed.
pub open spec fn sw_vers_field(l: Seq<char>, key: Seq<char>) -> Option<Seq<char>> {
    match text::split_once(l, ':') {
        Some((k, v)) => if text::trim(k) == key {
            Some(text::trim(v))
        } else {
            None
        },
        None => None,
    }
}

/// The value of `key` in the output of `sw_vers`: that of the last line that has it.
pub open spec fn sw_vers_value(s: Seq<char>, key: Seq<char>) -> Option<Seq<char>> {
    text::last_some(text::lines(s), |l: Seq<char>| sw_vers_field(l, key))
}

/// The facts in the output of `sw_vers`.
pub open spec fn sw_vers_facts(s: Seq<char>) -> OSSpec {
    let name = sw_vers_value(s, "ProductName"@);
    let version = sw_vers_value(s, "ProductVersion"@);
    OSSpec {
        pretty_name: match (name, version) {
            (Some(n), Some(v)) => Some(n + " "@ + v),
            _ => None,
        },
        name,
        version_id: version,
        version,
        codename: match version {
            Some(v) => macos_codename_of(v),
            None => None,
        },
        id: Some("macos"@),
    }
}

fn sw_vers_value_of(ls: &Vec<Vec<char>>, key: &str) -> (r: Option<Vec<char>>)
    ensures
        forall|s: Seq<char>| text::views(ls@) == text::lines(s) ==> text::opt_chars_view(r) == sw_vers_value(s, key@),
{
    let ghost lv = text::views(ls@);
    let ghost f = |l: Seq<char>| sw_vers_field(l, key@);
    let mut cur: Option<Vec<char>> = None;
    let mut i: usize = 0;
    assert(lv.take(0) =~= Seq::<Seq<char>>::empty());
    while i < ls.len()
        invariant
            i <= ls@.len(),
            lv == text::views(ls@),
            f == (|l: Seq<char>| sw_vers_field(l, key@)),
            text::opt_chars_view(cur) == text::last_some(lv.take(i as int), f),
        decreases ls.len() - i,
    {
        proof {
            text::lemma_last_some_step(lv, f, i as int);
        }
        assert(ls@[i as int]@ == lv[i as int]);
        let e = match text::split_once_chars(ls[i].as_slice(), ':') {
            Some((k, v)) => {
                let kt = text::trim_chars(k.as_slice());
                if text::eq_str(kt.as_slice(), key) {
                    Some(text::trim_chars(v.as_slice()))
                } else {
                    None
                }
            },
            None => None,
        };
        assert(text::opt_chars_view(e) == f(lv[i as int]));
        if e.is_some() {
            cur = e;
        }
        i = i + 1;
    }
    assert(lv.take(i as int) =~= lv);
    cur
}

/// The facts in the output of `sw_vers`, such as
/// `ProductName: macOS` and `ProductVersion: 15.4.1` on their own lines.
pub fn parse_sw_vers(s: &str) -> (r: Result<OSFacts, OsError>)
    ensures
        r matches Ok(f) && f@ == sw_vers_facts(s@),
{
    let c = text::chars_of(s);
    let ls = text::lines_of(c.as_slice());
    let name = sw_vers_value_of(&ls, "ProductName");
    let version = sw_vers_value_of(&ls, "ProductVersion");
    let pretty_name = match (&name, &version) {
        (Some(n), Some(v)) => {
            let space = text::chars_of(" ");
            let nv = text::concat_chars(n.as_slice(), space.as_slice());
            Some(text::string_of(text::concat_chars(nv.as_slice(), v.as_slice()).as_slice()))
        },
        _ => None,
    };
    let codename = match &version {
        Some(v) => macos_codename(text::string_of(v.as_slice()).as_str()),
        None => None,
    };
    let name = text::opt_string_of(name);
    let version = text::opt_string_of(version);
    let version_id = match &version {
        Some(v) => Some(v.clone()),
        None => None,
    };
    Ok(
        OSFacts {
            pretty_name,
            name,
            version_id,
            version,
            codename,
            id: Some("macos".to_owned()),
        },
    )
}

/// The facts in the output of the Windows script: caption, version and build
/// number on the first three lines, each trimmed.
pub open spec fn windows_os_facts(s: Seq<char>) -> Result<OSSpec, OsError> {
    let ls = text::lines(s);
    if ls.len() < 1 {
        Err(OsError::MissingCaption)
    } else if ls.len() < 2 {
        Err(OsError::MissingVersion)
    } else if ls.len() < 3 {
        Err(OsError::MissingBuildNumber)
    } else {
        Ok(
            OSSpec {
                pretty_name: Some(text::trim(ls[0])),
                name: Some("Windows"@),
                version: Some(text::trim(ls[1])),
                version_id: Some(text::trim(ls[2])),
                id: Some("windows"@),
                codename: windows_codename_of(text::trim(ls[2])),
            },
        )
    }
}

/// The facts in the output of the Windows script.
pub fn parse_os_facts_windows(s: &str) -> (r: Result<OSFacts, OsError>)
    ensures
        match (r, windows_os_facts(s@)) {
            (Ok(f), Ok(w)) => f@ == w,
            (Err(e), Err(w)) => e == w,
            _ => false,
        },
{
    let c = text::chars_of(s);
    let ls = text::lines_of(c.as_slice());
    if ls.len() < 1 {
        return Err(OsError::MissingCaption);
    }
    let pretty_name = text::string_of(text::trim_chars(ls[0].as_slice()).as_slice());
    if ls.len() < 2 {
        return Err(OsError::MissingVersion);
    }
    let version = text::string_of(text::trim_chars(ls[1].as_slice()).as_slice());
    if ls.len() < 3 {
        return Err(OsError::MissingBuildNumber);
    }
    let version_id = text::string_of(text::trim_chars(ls[2].as_slice()).as_slice());
    let codename = windows_codename(version_id.as_str());
    Ok(
        OSFacts {
            pretty_name: Some(pretty_name),
            name: Some("Windows".to_owned()),
            version: Some(version),
            version_id: Some(version_id),
            id: Some("windows".to_owned()),
            codename,
        },
    )
}

} // verus!
