//! Mount facts: the mounted filesystems, keyed by mount point.
use vstd::prelude::*;
use crate::table::{map_of_pairs, TextMap};
use crate::text;

verus! {

/// A mounted filesystem.
pub struct MountPoint {
    pub location: String,
    pub device: String,
    pub filesystem: String,
    pub options: Vec<String>,
}

/// A mounted filesystem, each text taken by its characters.
pub struct MountSpec {
    pub location: Seq<char>,
    pub device: Seq<char>,
    pub filesystem: Seq<char>,
    pub options: Seq<Seq<char>>,
}

impl View for MountPoint {
    type V = MountSpec;

    open spec fn view(&self) -> MountSpec {
        MountSpec {
            location: self.location@,
            device: self.device@,
            filesystem: self.filesystem@,
            options: text::string_views(self.options@),
        }
    }
}

/// The views of a sequence of mounts.
pub open spec fn mount_views(v: Seq<MountPoint>) -> Seq<MountSpec> {
    v.map_values(|m: MountPoint| m@)
}

/// Collects the mount facts.
pub struct MountComponent;

impl MountComponent {
    /// The component; it holds nothing.
    pub fn new() -> (r: Self)
        ensures
            r == MountComponent,
    {
        MountComponent
    }
}

fn mount_point_of(location: &[char], device: &[char], filesystem: &[char], options: &[Vec<char>]) -> (r: MountPoint)
    ensures
        r@ == (MountSpec {
            location: location@,
            device: device@,
            filesystem: filesystem@,
            options: text::views(options@),
        }),
{
    MountPoint {
        location: text::string_of(location),
        device: text::string_of(device),
        filesystem: text::string_of(filesystem),
        options: text::strings_of(options),
    }
}

/// The mount facts for a list of mounts, keyed by mount point; a later mount
/// at the same point replaces an earlier one.
pub fn build_mount_facts(mounts: Vec<MountPoint>) -> (r: TextMap<MountPoint>)
    ensures
        r@ == map_of_pairs(mounts@.map_values(|m: MountPoint| (m.location@, m))),
{
    let ghost all = mounts@;
    let ghost f = |m: MountPoint| (m.location@, m);
    let mut rest = mounts;
    let mut r: TextMap<MountPoint> = TextMap::new();
    let mut k: usize = 0;
    assert(all.take(0).map_values(f) =~= Seq::<(Seq<char>, MountPoint)>::empty());
    assert(all.skip(0) =~= all);
    assert(all.len() == rest.len());
    while rest.len() > 0
        invariant
            k <= all.len(),
            all.len() <= usize::MAX,
            rest@ == all.skip(k as int),
            f == (|m: MountPoint| (m.location@, m)),
            r@ == map_of_pairs(all.take(k as int).map_values(f)),
        decreases rest.len(),
    {
        let m = rest.remove(0);
        let key = m.location.clone();
        assert(m == all[k as int]);
        proof {
            let p = all.take(k + 1).map_values(f);
            assert(p.drop_last() =~= all.take(k as int).map_values(f));
            assert(p.last() == (key@, m));
        }
        r.insert(key, m);
        assert(rest@ =~= all.skip(k + 1));
        k = k + 1;
    }
    assert(all.take(k as int) =~= all);
    r
}

/// The mount facts hold one entry per mount point of the list and nothing
/// else; the entry of a point is a mount at that point, namely the last one
/// in the list.
pub proof fn lemma_mount_facts(mounts: Seq<MountPoint>)
    ensures
        ({
            let m = map_of_pairs(mounts.map_values(|x: MountPoint| (x.location@, x)));
            &&& forall|k: Seq<char>|
                #[trigger] m.contains_key(k) <==> exists|i: int|
                    0 <= i < mounts.len() && mounts[i].location@ == k
            &&& forall|k: Seq<char>| #[trigger] m.contains_key(k) ==> m[k].location@ == k
            &&& forall|i: int|
                0 <= i < mounts.len() && (forall|j: int|
                    i < j < mounts.len() ==> mounts[j].location@ != mounts[i].location@)
                    ==> #[trigger] m[mounts[i].location@] == mounts[i]
        }),
{
    let p = mounts.map_values(|x: MountPoint| (x.location@, x));
    let m = map_of_pairs(p);
    crate::table::lemma_map_of_pairs_dom(p);
    assert forall|k: Seq<char>|
        #[trigger] m.contains_key(k) <==> exists|i: int|
            0 <= i < mounts.len() && mounts[i].location@ == k by {
        if m.contains_key(k) {
            let i = choose|i: int| 0 <= i < p.len() && p[i].0 == k;
            assert(mounts[i].location@ == k);
        }
        if exists|i: int| 0 <= i < mounts.len() && mounts[i].location@ == k {
            let i = choose|i: int| 0 <= i < mounts.len() && mounts[i].location@ == k;
            assert(p[i].0 == k);
        }
    }
    assert forall|k: Seq<char>| #[trigger] m.contains_key(k) implies m[k].location@ == k by {
        crate::table::lemma_map_of_pairs_from_pair(p, k);
        let i = choose|i: int| 0 <= i < p.len() && p[i].0 == k && p[i].1 == m[k];
        assert(p[i] == (mounts[i].location@, mounts[i]));
    }
    assert forall|i: int|
        0 <= i < mounts.len() && (forall|j: int|
            i < j < mounts.len() ==> mounts[j].location@ != mounts[i].location@)
            implies #[trigger] m[mounts[i].location@] == mounts[i] by {
        assert forall|j: int| i < j < p.len() implies #[trigger] p[j].0 != p[i].0 by {
            assert(p[j].0 == mounts[j].location@);
        }
        crate::table::lemma_map_of_pairs_last(p, i);
    }
}

/// The mount on a line of `/proc/mounts`: device, mount point, filesystem
/// type and comma-separated options are its first four words; a line with
/// fewer words holds no mount.
pub open spec fn mount_of_line(l: Seq<char>) -> Option<MountSpec> {
    let p = text::words(l);
    if p.len() < 4 {
        None
    } else {
        Some(
            MountSpec {
                location: p[1],
                device: p[0],
                filesystem: p[2],
                options: text::split(p[3], ','),
            },
        )
    }
}

/// The mounts in the contents of `/proc/mounts`, one per line that holds one.
pub fn parse_mounts(contents: &str) -> (r: Vec<MountPoint>)
    ensures
        mount_views(r@) == text::lines(contents@).filter_map(|l: Seq<char>| mount_of_line(l)),
{
    let c = text::chars_of(contents);
    let ls = text::lines_of(c.as_slice());
    let ghost lv = text::lines(contents@);
    let ghost f = |l: Seq<char>| mount_of_line(l);
    let mut r: Vec<MountPoint> = Vec::new();
    let mut i: usize = 0;
    proof {
        text::lemma_take_all(lv);
    }
    assert(mount_views(r@) =~= Seq::<MountSpec>::empty());
    while i < ls.len()
        invariant
            i <= ls@.len(),
            text::views(ls@) == lv,
            f == (|l: Seq<char>| mount_of_line(l)),
            mount_views(r@) == lv.take(i as int).filter_map(f),
        decreases ls.len() - i,
    {
        assert(ls@[i as int]@ == lv[i as int]);
        proof {
            text::lemma_filter_map_step(lv, f, i as int);
        }
        let p = text::words_of(ls[i].as_slice());
        if p.len() >= 4 {
            let options = text::split_of(p[3].as_slice(), ',');
            let m = mount_point_of(p[1].as_slice(), p[0].as_slice(), p[2].as_slice(), options.as_slice());
            let ghost old_r = r@;
            r.push(m);
            assert(mount_views(r@) =~= mount_views(old_r) + seq![m@]);
        }
        i = i + 1;
    }
    proof {
        text::lemma_take_all(lv);
    }
    r
}

/// Each mount read from `/proc/mounts` comes from a line with at least four
/// whitespace-separated words: the device is the first, the mount point the
/// second, the filesystem type the third, and the options are the fourth cut
/// at each `,`.
pub proof fn lemma_proc_mount_fields(contents: Seq<char>, k: int)
    requires
        0 <= k < text::lines(contents).filter_map(|l: Seq<char>| mount_of_line(l)).len(),
    ensures
        ({
            let m = text::lines(contents).filter_map(|l: Seq<char>| mount_of_line(l))[k];
            exists|i: int|
                0 <= i < text::lines(contents).len() && ({
                    let w = text::words(#[trigger] text::lines(contents)[i]);
                    &&& w.len() >= 4
                    &&& m.device == w[0]
                    &&& m.location == w[1]
                    &&& m.filesystem == w[2]
                    &&& m.options == text::split(w[3], ',')
                })
        }),
{
    let ls = text::lines(contents);
    let f = |l: Seq<char>| mount_of_line(l);
    text::lemma_filter_map_from(ls, f, k);
    let i = choose|i: int| 0 <= i < ls.len() && f(#[trigger] ls[i]) == Some(ls.filter_map(f)[k]);
    assert(f(ls[i]) is Some);
}

/// The mount on a line of the output of `mount` on macOS,
/// `{device} on {mount point} ({filesystem}, {option}, ...)`.
pub open spec fn macos_mount_of_line(l: Seq<char>) -> Option<MountSpec> {
    match text::split_once_str(l, " on "@) {
        None => None,
        Some((device, rest)) => match text::split_once_str(rest, " ("@) {
            None => None,
            Some((location, opts)) => {
                let parts = text::split_str(text::trim_end_char(opts, ')'), ", "@);
                Some(
                    MountSpec {
                        location,
                        device,
                        filesystem: parts[0],
                        options: parts.drop_first(),
                    },
                )
            },
        },
    }
}

/// The mounts in the output of `mount` on macOS, one per line that holds one.
pub fn parse_mount_output_macos(s: &str) -> (r: Vec<MountPoint>)
    ensures
        mount_views(r@) == text::lines(s@).filter_map(|l: Seq<char>| macos_mount_of_line(l)),
{
    let c = text::chars_of(s);
    let ls = text::lines_of(c.as_slice());
    let on = text::chars_of(" on ");
    let open = text::chars_of(" (");
    let sep = text::chars_of(", ");
    proof {
        reveal_strlit(", ");
    }
    let ghost lv = text::lines(s@);
    let ghost f = |l: Seq<char>| macos_mount_of_line(l);
    let mut r: Vec<MountPoint> = Vec::new();
    let mut i: usize = 0;
    proof {
        text::lemma_take_all(lv);
    }
    assert(mount_views(r@) =~= Seq::<MountSpec>::empty());
    while i < ls.len()
        invariant
            i <= ls@.len(),
            text::views(ls@) == lv,
            on@ == " on "@,
            open@ == " ("@,
            sep@ == ", "@,
            sep@.len() > 0,
            f == (|l: Seq<char>| macos_mount_of_line(l)),
            mount_views(r@) == lv.take(i as int).filter_map(f),
        decreases ls.len() - i,
    {
        assert(ls@[i as int]@ == lv[i as int]);
        proof {
            text::lemma_filter_map_step(lv, f, i as int);
        }
        match text::split_once_str_chars(ls[i].as_slice(), on.as_slice()) {
            None => {},
            Some((device, rest)) => match text::split_once_str_chars(rest.as_slice(), open.as_slice()) {
                None => {},
                Some((location, opts)) => {
                    let inner = text::trim_end_char_chars(opts.as_slice(), ')');
                    let parts = text::split_str_of(inner.as_slice(), sep.as_slice());
                    proof {
                        text::lemma_split_str_nonempty(inner@, sep@);
                    }
                    let rest_parts = text::slice_vecs(parts.as_slice(), 1, parts.len());
                    let m = mount_point_of(
                        location.as_slice(),
                        device.as_slice(),
                        parts[0].as_slice(),
                        rest_parts.as_slice(),
                    );
                    assert(text::views(rest_parts@) =~= text::views(parts@).drop_first());
                    let ghost old_r = r@;
                    r.push(m);
                    assert(mount_views(r@) =~= mount_views(old_r) + seq![m@]);
                },
            },
        }
        i = i + 1;
    }
    proof {
        text::lemma_take_all(lv);
    }
    r
}

/// Each mount read from the output of `mount` on macOS comes from a line that
/// splits at its first ` on ` into a device and a rest, and the rest at its
/// first ` (` into a mount point and the filesystem list: the mount's device is
/// the whole text before ` on ` (spaces included) and its location the whole
/// text between ` on ` and ` (`.
pub proof fn lemma_macos_mount_fields(s: Seq<char>, k: int)
    requires
        0 <= k < text::lines(s).filter_map(|l: Seq<char>| macos_mount_of_line(l)).len(),
    ensures
        ({
            let m = text::lines(s).filter_map(|l: Seq<char>| macos_mount_of_line(l))[k];
            exists|i: int|
                0 <= i < text::lines(s).len() && match text::split_once_str(
                    #[trigger] text::lines(s)[i],
                    " on "@,
                ) {
                    Some((d, x)) => match text::split_once_str(x, " ("@) {
                        Some((p, o)) => {
                            &&& m.device == d
                            &&& m.location == p
                            &&& match text::split_once_str(text::trim_end_char(o, ')'), ", "@) {
                                Some((fs, more)) => m.filesystem == fs && m.options
                                    == text::split_str(more, ", "@),
                                None => m.filesystem == text::trim_end_char(o, ')')
                                    && m.options.len() == 0,
                            }
                        },
                        None => false,
                    },
                    None => false,
                }
        }),
{
    let ls = text::lines(s);
    let f = |l: Seq<char>| macos_mount_of_line(l);
    text::lemma_filter_map_from(ls, f, k);
    let i = choose|i: int| 0 <= i < ls.len() && f(#[trigger] ls[i]) == Some(ls.filter_map(f)[k]);
    assert(f(ls[i]) is Some);
    reveal_strlit(", ");
    let (d, x) = text::split_once_str(ls[i], " on "@)->0;
    let (p, o) = text::split_once_str(x, " ("@)->0;
    let t = text::trim_end_char(o, ')');
    text::lemma_find_str(t, ", "@);
    let parts = text::split_str(t, ", "@);
    match text::find_str(t, ", "@) {
        Some(j) => {
            assert(parts == seq![t.take(j)] + text::split_str(t.skip(j + 2), ", "@));
            assert(parts.drop_first() =~= text::split_str(t.skip(j + 2), ", "@));
        },
        None => {
            assert(parts == seq![t]);
            assert(parts.drop_first().len() == 0);
        },
    }
}

/// The mount on a line of the output of the Windows script,
/// `{device}\t{filesystem}\t{drive type}`: mounted at the device followed by `\`.
pub open spec fn windows_mount_of_line(l: Seq<char>) -> Option<MountSpec> {
    let p = text::splitn(l, 3, '\t');
    if p.len() < 3 {
        None
    } else {
        let id = text::trim(p[0]);
        Some(
            MountSpec {
                location: id + seq!['\\'],
                device: id,
                filesystem: text::trim(p[1]),
                options: seq![text::trim(p[2])],
            },
        )
    }
}

/// Each mount read from the output of the Windows script comes from a line
/// with at least three tab-separated fields: the device is the first
/// (trimmed), the mount point is the device followed by `\`, the filesystem is
/// the second field and the one option is the rest of the line after the
/// second tab, each trimmed.
pub proof fn lemma_windows_mount_fields(s: Seq<char>, k: int)
    requires
        0 <= k < text::lines(s).filter_map(|l: Seq<char>| windows_mount_of_line(l)).len(),
    ensures
        ({
            let m = text::lines(s).filter_map(|l: Seq<char>| windows_mount_of_line(l))[k];
            exists|i: int|
                0 <= i < text::lines(s).len() && ({
                    let p = text::splitn(#[trigger] text::lines(s)[i], 3, '\t');
                    &&& p.len() == 3
                    &&& m.device == text::trim(p[0])
                    &&& m.location == text::trim(p[0]) + seq!['\\']
                    &&& m.filesystem == text::trim(p[1])
                    &&& m.options == seq![text::trim(p[2])]
                })
        }),
{
    let ls = text::lines(s);
    let f = |l: Seq<char>| windows_mount_of_line(l);
    text::lemma_filter_map_from(ls, f, k);
    let i = choose|i: int| 0 <= i < ls.len() && f(#[trigger] ls[i]) == Some(ls.filter_map(f)[k]);
    assert(f(ls[i]) is Some);
    lemma_splitn_at_most(ls[i], 3, '\t');
}

/// `splitn(n, c)` gives at most `n` pieces.
proof fn lemma_splitn_at_most(l: Seq<char>, n: nat, c: char)
    ensures
        text::splitn(l, n, c).len() <= n,
    decreases n,
{
    if n >= 2 {
        match text::find_char(l, c) {
            Some(i) => {
                if 0 <= i < l.len() {
                    lemma_splitn_at_most(l.skip(i + 1), (n - 1) as nat, c);
                }
            },
            None => {},
        }
    }
}

/// The mounts in the output of the Windows script, one per line that holds one.
pub fn parse_mounts_windows(s: &str) -> (r: Vec<MountPoint>)
    ensures
        mount_views(r@) == text::lines(s@).filter_map(|l: Seq<char>| windows_mount_of_line(l)),
{
    let c = text::chars_of(s);
    let ls = text::lines_of(c.as_slice());
    let ghost lv = text::lines(s@);
    let ghost f = |l: Seq<char>| windows_mount_of_line(l);
    let mut r: Vec<MountPoint> = Vec::new();
    let mut i: usize = 0;
    proof {
        text::lemma_take_all(lv);
    }
    assert(mount_views(r@) =~= Seq::<MountSpec>::empty());
    while i < ls.len()
        invariant
            i <= ls@.len(),
            text::views(ls@) == lv,
            f == (|l: Seq<char>| windows_mount_of_line(l)),
            mount_views(r@) == lv.take(i as int).filter_map(f),
        decreases ls.len() - i,
    {
        assert(ls@[i as int]@ == lv[i as int]);
        proof {
            text::lemma_filter_map_step(lv, f, i as int);
        }
        let p = text::splitn_of(ls[i].as_slice(), 3, '\t');
        if p.len() >= 3 {
            let id = text::trim_chars(p[0].as_slice());
            let mut location = text::slice_chars(id.as_slice(), 0, id.len());
            location.push('\\');
            let fs = text::trim_chars(p[1].as_slice());
            let kind = text::trim_chars(p[2].as_slice());
            let mut options: Vec<Vec<char>> = Vec::new();
            options.push(kind);
            let m = mount_point_of(location.as_slice(), id.as_slice(), fs.as_slice(), options.as_slice());
            assert(text::views(options@) =~= seq![text::trim(text::views(p@)[2])]);
            assert(location@ =~= id@ + seq!['\\']);
            let ghost old_r = r@;
            r.push(m);
            assert(mount_views(r@) =~= mount_views(old_r) + seq![m@]);
        }
        i = i + 1;
    }
    proof {
        text::lemma_take_all(lv);
    }
    r
}

} // verus!
