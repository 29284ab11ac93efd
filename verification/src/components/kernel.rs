//! Kernel facts: type, architecture, release and the versions read from it.
use vstd::prelude::*;
use crate::text;

verus! {

/// The facts about the running kernel.
pub struct KernelFacts {
    pub ostype: String,
    pub arch: String,
    pub release: String,
    pub version: String,
    pub majorversion: String,
}

/// Collects the kernel facts from the files under a root directory.
pub struct KernelComponent {
    fsroot: String,
}

/// Why the kernel facts could not be read from the output of the Windows script.
#[derive(Debug, Clone, Copy, PartialEq, Eq, Structural)]
pub enum KernelError {
    MissingOstype,
    MissingArch,
    MissingRelease,
}

impl KernelComponent {
    /// A component that reads the kernel files under `/`.
    pub fn new() -> (r: Self)
        ensures
            r.root()@ == "/"@,
    {
        KernelComponent { fsroot: "/".to_owned() }
    }

    /// A component that reads the kernel files under `fsroot`.
    pub fn with_root(fsroot: String) -> (r: Self)
        ensures
            r.root()@ == fsroot@,
    {
        KernelComponent { fsroot }
    }

    pub closed spec fn root(&self) -> String {
        self.fsroot
    }

    /// The directory under which the kernel files are read.
    pub fn fsroot(&self) -> (r: &str)
        ensures
            r@ == self.root()@,
    {
        self.fsroot.as_str()
    }
}

/// The version in a release string: what comes before its first `-`.
pub open spec fn version_of(release: Seq<char>) -> Seq<char> {
    match text::split_once(release, '-') {
        Some((v, _)) => v,
        None => release,
    }
}

/// The major version in a release string: the release up to (not including)
/// its second `.`, that is, its first two `.`-separated parts.
pub open spec fn majorversion_of(release: Seq<char>) -> Seq<char> {
    match text::find_char(release, '.') {
        None => release,
        Some(i) => match text::find_char(release.skip(i + 1), '.') {
            None => release,
            Some(j) => release.take(i + 1 + j),
        },
    }
}

/// The version read from a release is a prefix of the release that holds no
/// `-`, so that reading the version of a version gives it back unchanged.
pub proof fn lemma_version_of(release: Seq<char>)
    ensures
        version_of(release).is_prefix_of(release),
        !version_of(release).contains('-'),
        version_of(version_of(release)) == version_of(release),
{
    broadcast use text::lemma_find_char;

    let v = version_of(release);
    assert(v =~= release.subrange(0, v.len() as int));
    assert(forall|k: int| 0 <= k < v.len() ==> v[k] != '-');
    lemma_find_char_absent(v, '-');
}

/// The major version read from a release is a prefix of the release that holds
/// at most one `.`, so that reading it again gives it back unchanged.
pub proof fn lemma_majorversion_of(release: Seq<char>)
    ensures
        majorversion_of(release).is_prefix_of(release),
        majorversion_of(majorversion_of(release)) == majorversion_of(release),
        forall|a: int, b: int|
            0 <= a < b < majorversion_of(release).len() && majorversion_of(release)[a] == '.'
                ==> majorversion_of(release)[b] != '.',
{
    broadcast use text::lemma_find_char;

    let m = majorversion_of(release);
    assert(m =~= release.subrange(0, m.len() as int));
    match text::find_char(release, '.') {
        None => {},
        Some(i) => {
            let rest = release.skip(i + 1);
            match text::find_char(rest, '.') {
                None => {
                    assert forall|a: int, b: int|
                        0 <= a < b < m.len() && m[a] == '.' implies m[b] != '.' by {
                        assert(a >= i);
                        assert(b > i);
                        assert(m[b] == rest[b - i - 1]);
                    }
                },
                Some(j) => {
                    assert forall|a: int, b: int|
                        0 <= a < b < m.len() && m[a] == '.' implies m[b] != '.' by {
                        assert(a >= i);
                        assert(b > i);
                        assert(m[b] == rest[b - i - 1]);
                    }
                    assert(m[i] == '.');
                    assert(forall|k: int| 0 <= k < i ==> m[k] == release[k]);
                    assert(text::find_char(m, '.') == Some(i));
                    assert(m.skip(i + 1) =~= rest.take(j));
                    assert(forall|k: int| 0 <= k < j ==> rest.take(j)[k] != '.');
                    lemma_find_char_absent(m.skip(i + 1), '.');
                },
            }
        },
    }
}

/// `find_char` finds nothing in a sequence that does not hold the character.
proof fn lemma_find_char_absent(s: Seq<char>, c: char)
    requires
        forall|k: int| 0 <= k < s.len() ==> s[k] != c,
    ensures
        text::find_char(s, c) is None,
{
    broadcast use text::lemma_find_char;

}

/// The version in a kernel release, such as `5.15.0` for `5.15.0-48-generic`.
pub fn parse_version(release: &str) -> (r: String)
    ensures
        r@ == version_of(release@),
{
    let c = text::chars_of(release);
    match text::split_once_chars(c.as_slice(), '-') {
        Some((v, _)) => text::string_of(v.as_slice()),
        None => release.to_owned(),
    }
}

/// The major version in a kernel release, such as `5.15` for `5.15.0-48-generic`.
pub fn parse_majorversion(release: &str) -> (r: String)
    ensures
        r@ == majorversion_of(release@),
{
    let c = text::chars_of(release);
    let s = c.as_slice();
    proof {
        text::lemma_take_all(s@);
        text::lemma_find_char(s@, '.');
    }
    match text::find_char_from(s, '.', 0) {
        None => release.to_owned(),
        Some(i) => {
            proof {
                text::lemma_find_char(s@.skip(i + 1), '.');
            }
            match text::find_char_from(s, '.', i + 1) {
                None => release.to_owned(),
                Some(j) => {
                    let m = text::slice_chars(s, 0, j);
                    assert(m@ =~= s@.take(i + 1 + (j - (i + 1))));
                    text::string_of(m.as_slice())
                },
            }
        },
    }
}

/// The kernel facts for a type, an architecture and a release.
pub fn kernel_facts_from(ostype: String, arch: String, release: String) -> (r: KernelFacts)
    ensures
        r.ostype@ == ostype@,
        r.arch@ == arch@,
        r.release@ == release@,
        r.version@ == version_of(release@),
        r.majorversion@ == majorversion_of(release@),
{
    let version = parse_version(release.as_str());
    let majorversion = parse_majorversion(release.as_str());
    KernelFacts { ostype, arch, release, version, majorversion }
}

/// The kernel facts in the output of the Windows script: the type, the
/// architecture and the release on its first three lines, each trimmed.
pub fn parse_kernel_facts_windows(s: &str) -> (r: Result<KernelFacts, KernelError>)
    ensures
        match r {
            Ok(f) => {
                &&& text::lines(s@).len() >= 3
                &&& f.ostype@ == text::trim(text::lines(s@)[0])
                &&& f.arch@ == text::trim(text::lines(s@)[1])
                &&& f.release@ == text::trim(text::lines(s@)[2])
                &&& f.version@ == version_of(f.release@)
                &&& f.majorversion@ == majorversion_of(f.release@)
            },
            Err(e) => e == (if text::lines(s@).len() == 0 {
                KernelError::MissingOstype
            } else if text::lines(s@).len() == 1 {
                KernelError::MissingArch
            } else {
                KernelError::MissingRelease
            }) && text::lines(s@).len() < 3,
        },
{
    let c = text::chars_of(s);
    let ls = text::lines_of(c.as_slice());
    if ls.len() < 1 {
        return Err(KernelError::MissingOstype);
    }
    let ostype = text::string_of(text::trim_chars(ls[0].as_slice()).as_slice());
    if ls.len() < 2 {
        return Err(KernelError::MissingArch);
    }
    let arch = text::string_of(text::trim_chars(ls[1].as_slice()).as_slice());
    if ls.len() < 3 {
        return Err(KernelError::MissingRelease);
    }
    let release = text::string_of(text::trim_chars(ls[2].as_slice()).as_slice());
    Ok(kernel_facts_from(ostype, arch, release))
}

} // verus!
