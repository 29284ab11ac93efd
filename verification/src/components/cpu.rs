//! CPU facts: sockets, cores, model names and architecture, read from the
//! contents of `/proc/cpuinfo`.
use vstd::prelude::*;
use crate::text;

verus! {

/// The facts about the processors.
pub struct CPUFacts {
    pub count: u32,
    pub physical_cores: u32,
    pub logical_cores: u32,
    pub model: Vec<String>,
    pub architecture: String,
}

/// Collects the CPU facts.
pub struct CPUComponent;

impl CPUComponent {
    /// The component; it holds nothing.
    pub fn new() -> (r: Self)
        ensures
            r == CPUComponent,
    {
        CPUComponent
    }
}

/// The `physical id` values of `/proc/cpuinfo`, one per line that has one.
pub open spec fn physical_ids(contents: Seq<char>) -> Seq<Seq<char>> {
    text::key_values(contents, "physical id"@)
}

/// The number of sockets: the number of distinct `physical id` values, or 1
/// when there is none (as on ARM).
pub open spec fn cpu_count_of(contents: Seq<char>) -> u32 {
    let ids = physical_ids(contents);
    if ids.len() == 0 {
        1
    } else {
        ids.to_set().len() as u32
    }
}

/// The number of sockets described by the contents of `/proc/cpuinfo`.
pub fn get_cpu_count(contents: &str) -> (r: u32)
    ensures
        r == cpu_count_of(contents@),
{
    let c = text::chars_of(contents);
    let ls = text::lines_of(c.as_slice());
    let ids = text::key_values_of(&ls, "physical id");
    let ghost iv = text::views(ids@);
    assert(iv == physical_ids(contents@));
    if ids.len() == 0 {
        return 1;
    }
    let mut distinct: Vec<Vec<char>> = Vec::new();
    let mut i: usize = 0;
    assert(text::views(distinct@) =~= Seq::<Seq<char>>::empty());
    assert(iv.take(0) =~= Seq::<Seq<char>>::empty());
    assert(iv.take(0).to_set() =~= Set::<Seq<char>>::empty());
    assert(text::views(distinct@).to_set() =~= Set::<Seq<char>>::empty());
    while i < ids.len()
        invariant
            i <= ids@.len(),
            iv == text::views(ids@),
            text::views(distinct@).no_duplicates(),
            text::views(distinct@).to_set() == iv.take(i as int).to_set(),
        decreases ids.len() - i,
    {
        let x = text::slice_chars(ids[i].as_slice(), 0, ids[i].len());
        assert(x@ =~= iv[i as int]);
        text::push_unique(&mut distinct, x);
        proof {
            assert(iv.take(i + 1) =~= iv.take(i as int) + seq![iv[i as int]]);
            text::lemma_to_set_push(iv.take(i as int), iv[i as int]);
        }
        i = i + 1;
    }
    proof {
        assert(iv.take(i as int) =~= iv);
        text::views(distinct@).unique_seq_to_set();
    }
    distinct.len() as u32
}

/// Whether a line of `/proc/cpuinfo` names a logical processor: it starts
/// with `processor` after its leading whitespace, and holds a `:`.
pub open spec fn is_processor_line(l: Seq<char>) -> bool {
    text::starts_with(text::trim_start(l), "processor"@) && text::split_once(l, ':') is Some
}

/// The number of logical processors: the number of `processor` lines.
pub open spec fn logical_count_of(contents: Seq<char>) -> u32 {
    text::lines(contents).filter(|l: Seq<char>| is_processor_line(l)).len() as u32
}

fn is_processor_line_of(l: &[char]) -> (r: bool)
    ensures
        r == is_processor_line(l@),
{
    let i = text::trim_start_index(l);
    let t = text::slice_chars(l, i, l.len());
    assert(t@ =~= l@.skip(i as int));
    let p = text::chars_of("processor");
    text::starts_with_chars(t.as_slice(), p.as_slice()) && text::split_once_chars(l, ':').is_some()
}

/// The number of logical processors described by the contents of `/proc/cpuinfo`.
pub fn get_logical_core_count(contents: &str) -> (r: u32)
    ensures
        r == logical_count_of(contents@),
{
    let c = text::chars_of(contents);
    let ls = text::lines_of(c.as_slice());
    let ghost lv = text::lines(contents@);
    let ghost p = |l: Seq<char>| is_processor_line(l);
    let mut n: usize = 0;
    let mut i: usize = 0;
    proof {
        text::lemma_filter_empty(lv, p);
    }
    while i < ls.len()
        invariant
            i <= ls@.len(),
            text::views(ls@) == lv,
            p == (|l: Seq<char>| is_processor_line(l)),
            n == lv.take(i as int).filter(p).len(),
            n <= i,
        decreases ls.len() - i,
    {
        assert(ls@[i as int]@ == lv[i as int]);
        proof {
            text::lemma_filter_step(lv, p, i as int);
        }
        if is_processor_line_of(ls[i].as_slice()) {
            n = n + 1;
        }
        i = i + 1;
    }
    assert(lv.take(i as int) =~= lv);
    n as u32
}

/// The number of cores per socket: the first `cpu cores` value that is a number.
pub open spec fn cores_per_socket(contents: Seq<char>) -> Option<u32> {
    text::first_some(
        text::lines(contents),
        |l: Seq<char>|
            match text::key_field(l, "cpu cores"@) {
                Some(v) => text::parse_u32(v),
                None => None,
            },
    )
}

/// Whether the number of physical cores fits in a `u32` for `cpu_count` sockets.
pub open spec fn physical_count_fits(contents: Seq<char>, cpu_count: u32) -> bool {
    match cores_per_socket(contents) {
        Some(c) => c * cpu_count <= u32::MAX,
        None => true,
    }
}

/// The number of physical cores: cores per socket times sockets, or the
/// number of logical processors when `/proc/cpuinfo` gives no cores per
/// socket (as on ARM).
pub open spec fn physical_count_of(contents: Seq<char>, cpu_count: u32) -> u32 {
    match cores_per_socket(contents) {
        Some(c) => (c * cpu_count) as u32,
        None => logical_count_of(contents),
    }
}

fn cores_per_socket_of(contents: &str) -> (r: Option<u32>)
    ensures
        r == cores_per_socket(contents@),
{
    let c = text::chars_of(contents);
    let ls = text::lines_of(c.as_slice());
    let ghost lv = text::lines(contents@);
    let ghost f = |l: Seq<char>|
        match text::key_field(l, "cpu cores"@) {
            Some(v) => text::parse_u32(v),
            None => None,
        };
    let mut i: usize = 0;
    proof {
        text::lemma_take_all(lv);
    }
    while i < ls.len()
        invariant
            i <= ls@.len(),
            text::views(ls@) == lv,
            lv == text::lines(contents@),
            f == (|l: Seq<char>|
                match text::key_field(l, "cpu cores"@) {
                    Some(v) => text::parse_u32(v),
                    None => None,
                }),
            text::first_some(lv, f) == text::first_some(lv.skip(i as int), f),
        decreases ls.len() - i,
    {
        assert(ls@[i as int]@ == lv[i as int]);
        proof {
            text::lemma_first_some_step(lv, f, i as int);
        }
        match text::key_field_of(ls[i].as_slice(), "cpu cores") {
            Some(v) => match text::parse_u32_of(v.as_slice()) {
                Some(n) => {
                    return Some(n);
                },
                None => {},
            },
            None => {},
        }
        i = i + 1;
    }
    proof {
        text::lemma_first_some_end(lv, f);
    }
    None
}

/// Whether the number of physical cores for `cpu_count` sockets fits in a
/// `u32`; `get_physical_core_count` needs it.
pub fn physical_core_count_fits(contents: &str, cpu_count: u32) -> (r: bool)
    ensures
        r == physical_count_fits(contents@, cpu_count),
{
    match cores_per_socket_of(contents) {
        Some(c) => {
            if cpu_count == 0 {
                assert(c * cpu_count == 0) by (nonlinear_arith)
                    requires
                        cpu_count == 0,
                ;
                true
            } else {
                assert((c <= u32::MAX / cpu_count) == (c * cpu_count <= u32::MAX)) by (nonlinear_arith)
                    requires
                        cpu_count >= 1,
                ;
                c <= u32::MAX / cpu_count
            }
        },
        None => true,
    }
}

/// There is always at least one socket: without `physical id` lines the
/// count is 1, and otherwise it is the number of distinct ids (as long as
/// that number fits in a `u32`).
pub proof fn lemma_cpu_count_positive(contents: Seq<char>)
    requires
        physical_ids(contents).to_set().len() <= u32::MAX,
    ensures
        cpu_count_of(contents) >= 1,
{
    let ids = physical_ids(contents);
    if ids.len() > 0 {
        assert(ids.to_set().contains(ids[0]));
        vstd::seq_lib::seq_to_set_is_finite(ids);
        vstd::set_lib::lemma_set_empty_equivalency_len(ids.to_set());
    }
}

/// Where no line of `/proc/cpuinfo` gives a `cpu cores` value (as on ARM), the
/// number of physical cores is the number of logical processors, whatever
/// the number of sockets.
pub proof fn lemma_physical_without_cores(contents: Seq<char>, cpu_count: u32)
    requires
        forall|k: int|
            0 <= k < text::lines(contents).len() ==> text::key_field(
                #[trigger] text::lines(contents)[k],
                "cpu cores"@,
            ) is None,
    ensures
        physical_count_of(contents, cpu_count) == logical_count_of(contents),
{
    let f = |l: Seq<char>|
        match text::key_field(l, "cpu cores"@) {
            Some(v) => text::parse_u32(v),
            None => None,
        };
    text::lemma_first_some_none(text::lines(contents), f);
}

/// The number of physical cores described by the contents of `/proc/cpuinfo`
/// for `cpu_count` sockets.
pub fn get_physical_core_count(contents: &str, cpu_count: u32) -> (r: u32)
    requires
        physical_count_fits(contents@, cpu_count),
    ensures
        r == physical_count_of(contents@, cpu_count),
{
    match cores_per_socket_of(contents) {
        Some(cores) => cores * cpu_count,
        None => get_logical_core_count(contents),
    }
}

/// The model name that the device tree gives: the text without its
/// surrounding NUL characters, then trimmed; none if that leaves nothing.
pub open spec fn device_tree_name(dt: Option<Seq<char>>) -> Option<Seq<char>> {
    match dt {
        Some(m) => {
            let t = text::trim(text::trim_char(m, '\0'));
            if t.len() > 0 {
                Some(t)
            } else {
                None
            }
        },
        None => None,
    }
}

/// The model names when `/proc/cpuinfo` gives no `model name`: the device
/// tree model, else a name made of the `CPU implementer` and `CPU part`
/// values, else none.
pub open spec fn cpu_model_fallback(contents: Seq<char>, dt: Option<Seq<char>>) -> Seq<Seq<char>> {
    match device_tree_name(dt) {
        Some(t) => seq![t],
        None => match (
            text::first_key_value(contents, "CPU implementer"@),
            text::first_key_value(contents, "CPU part"@),
        ) {
            (Some(imp), Some(part)) => seq![
                "ARM (implementer="@ + imp + ", part="@ + part + ")"@,
            ],
            _ => seq![],
        },
    }
}

/// The view of an optional string slice.
pub open spec fn opt_str_view(o: Option<&str>) -> Option<Seq<char>> {
    match o {
        Some(s) => Some(s@),
        None => None,
    }
}

/// The model names of the processors. With `model name` lines (x86), they are
/// the distinct values of those lines in increasing order; otherwise they come
/// from the device tree model (the contents of `/proc/device-tree/model`, if
/// it could be read) or from the implementer and part numbers.
pub fn get_cpu_model(contents: &str, device_tree_model: Option<&str>) -> (r: Vec<String>)
    ensures
        ({
            let models = text::key_values(contents@, "model name"@);
            if models.len() > 0 {
                &&& text::strictly_sorted(text::string_views(r@))
                &&& text::string_views(r@).to_set() == models.to_set()
            } else {
                text::string_views(r@) == cpu_model_fallback(
                    contents@,
                    opt_str_view(device_tree_model),
                )
            }
        }),
        text::string_views(r@).no_duplicates(),
{
    let c = text::chars_of(contents);
    let ls = text::lines_of(c.as_slice());
    let models = text::key_values_of(&ls, "model name");
    let ghost mv = text::views(models@);
    if models.len() > 0 {
        let mut sorted: Vec<Vec<char>> = Vec::new();
        let mut i: usize = 0;
        assert(text::views(sorted@) =~= Seq::<Seq<char>>::empty());
        assert(mv.take(0) =~= Seq::<Seq<char>>::empty());
        assert(mv.take(0).to_set() =~= Set::<Seq<char>>::empty());
        assert(text::views(sorted@).to_set() =~= Set::<Seq<char>>::empty());
        while i < models.len()
            invariant
                i <= models@.len(),
                mv == text::views(models@),
                text::strictly_sorted(text::views(sorted@)),
                text::views(sorted@).to_set() == mv.take(i as int).to_set(),
            decreases models.len() - i,
        {
            let x = text::slice_chars(models[i].as_slice(), 0, models[i].len());
            assert(x@ =~= mv[i as int]);
            text::insert_sorted_unique(&mut sorted, x);
            proof {
                assert(mv.take(i + 1) =~= mv.take(i as int) + seq![mv[i as int]]);
                text::lemma_to_set_push(mv.take(i as int), mv[i as int]);
            }
            i = i + 1;
        }
        assert(mv.take(i as int) =~= mv);
        proof {
            text::lemma_strictly_sorted_no_duplicates(text::views(sorted@));
        }
        return text::strings_of(sorted.as_slice());
    }
    let mut r: Vec<String> = Vec::new();
    match device_tree_model {
        Some(m) => {
            let mc = text::chars_of(m);
            let t = text::trim_chars(text::trim_char_chars(mc.as_slice(), '\0').as_slice());
            if t.len() > 0 {
                r.push(text::string_of(t.as_slice()));
                assert(text::string_views(r@) =~= seq![t@]);
                return r;
            }
        },
        None => {},
    }
    let imp = text::first_key_value_of(&ls, "CPU implementer");
    let part = text::first_key_value_of(&ls, "CPU part");
    match (imp, part) {
        (Some(i), Some(p)) => {
            let a = text::chars_of("ARM (implementer=");
            let b = text::chars_of(", part=");
            let e = text::chars_of(")");
            let s1 = text::concat_chars(a.as_slice(), i.as_slice());
            let s2 = text::concat_chars(s1.as_slice(), b.as_slice());
            let s3 = text::concat_chars(s2.as_slice(), p.as_slice());
            let s4 = text::concat_chars(s3.as_slice(), e.as_slice());
            r.push(text::string_of(s4.as_slice()));
            assert(text::string_views(r@) =~= seq![s4@]);
            r
        },
        _ => {
            assert(text::string_views(r@) =~= Seq::<Seq<char>>::empty());
            r
        },
    }
}

/// The architecture that a `{key}:{value}` line of `/proc/cpuinfo` tells: a
/// `flags` line tells `x86_64` when the flags include `lm` and `x86`
/// otherwise; a `CPU architecture` line tells `aarch64` for 8, `armv7l` for 7
/// and `arm_v{value}` for any other value.
pub open spec fn arch_of_line(l: Seq<char>) -> Option<Seq<char>> {
    match text::split_once(l, ':') {
        None => None,
        Some((k, v)) => {
            if text::trim(k) == "flags"@ {
                Some(
                    if text::words(v).contains("lm"@) {
                        "x86_64"@
                    } else {
                        "x86"@
                    },
                )
            } else if text::trim(k) == "CPU architecture"@ {
                let t = text::trim(v);
                Some(
                    if t == "8"@ {
                        "aarch64"@
                    } else if t == "7"@ {
                        "armv7l"@
                    } else {
                        "arm_v"@ + t
                    },
                )
            } else {
                None
            }
        },
    }
}

/// The architecture told by the first line of `/proc/cpuinfo` that tells one,
/// or `unknown`.
pub open spec fn architecture_of(contents: Seq<char>) -> Seq<char> {
    match text::first_some(text::lines(contents), |l: Seq<char>| arch_of_line(l)) {
        Some(a) => a,
        None => "unknown"@,
    }
}

/// Whether a line of `/proc/cpuinfo` says nothing of the architecture: it has
/// no `:`, or its key (trimmed) is neither `flags` nor `CPU architecture`.
pub open spec fn tells_no_architecture(l: Seq<char>) -> bool {
    match text::split_once(l, ':') {
        Some((k, _)) => text::trim(k) != "flags"@ && text::trim(k) != "CPU architecture"@,
        None => true,
    }
}

/// When the first line that tells an architecture is a `flags` line, the
/// architecture is `x86_64` exactly when some whitespace-separated word of its
/// value, at any position, is `lm`, and `x86` otherwise.
pub proof fn lemma_flags_decide_architecture(contents: Seq<char>, k: int)
    requires
        0 <= k < text::lines(contents).len(),
        forall|j: int| 0 <= j < k ==> tells_no_architecture(#[trigger] text::lines(contents)[j]),
        text::split_once(text::lines(contents)[k], ':') matches Some((key, _)) && text::trim(key)
            == "flags"@,
    ensures
        ({
            let v = (text::split_once(text::lines(contents)[k], ':')->0).1;
            architecture_of(contents) == if exists|i: int|
                0 <= i < text::words(v).len() && #[trigger] text::words(v)[i] == "lm"@ {
                "x86_64"@
            } else {
                "x86"@
            }
        }),
{
    let ls = text::lines(contents);
    let f = |l: Seq<char>| arch_of_line(l);
    assert forall|j: int| 0 <= j < k implies f(#[trigger] ls[j]) is None by {
        assert(tells_no_architecture(ls[j]));
    }
    text::lemma_first_some_at(ls, f, k);
}

/// When the first line that tells an architecture is a `CPU architecture`
/// line, its trimmed value `8` gives `aarch64`, `7` gives `armv7l`, and any
/// other value `t` gives `arm_v` followed by `t`.
pub proof fn lemma_cpu_architecture_line_decides(contents: Seq<char>, k: int)
    requires
        0 <= k < text::lines(contents).len(),
        forall|j: int| 0 <= j < k ==> tells_no_architecture(#[trigger] text::lines(contents)[j]),
        text::split_once(text::lines(contents)[k], ':') matches Some((key, _)) && text::trim(key)
            == "CPU architecture"@,
    ensures
        ({
            let t = text::trim((text::split_once(text::lines(contents)[k], ':')->0).1);
            architecture_of(contents) == if t == "8"@ {
                "aarch64"@
            } else if t == "7"@ {
                "armv7l"@
            } else {
                "arm_v"@ + t
            }
        }),
{
    let ls = text::lines(contents);
    let f = |l: Seq<char>| arch_of_line(l);
    assert forall|j: int| 0 <= j < k implies f(#[trigger] ls[j]) is None by {
        assert(tells_no_architecture(ls[j]));
    }
    reveal_strlit("flags");
    reveal_strlit("CPU architecture");
    assert("flags"@ != "CPU architecture"@) by {
        assert("flags"@.len() != "CPU architecture"@.len());
    }
    text::lemma_first_some_at(ls, f, k);
}

fn arch_of_line_of(l: &[char]) -> (r: Option<String>)
    ensures
        text::opt_view(r) == arch_of_line(l@),
{
    match text::split_once_chars(l, ':') {
        None => None,
        Some((k, v)) => {
            let kt = text::trim_chars(k.as_slice());
            if text::eq_str(kt.as_slice(), "flags") {
                let ws = text::words_of(v.as_slice());
                proof {
                    text::lemma_position_of(text::views(ws@), "lm"@);
                }
                match text::position_of_word(&ws, "lm") {
                    Some(k) => {
                        assert(text::views(ws@)[k as int] == "lm"@);
                        Some("x86_64".to_owned())
                    },
                    None => Some("x86".to_owned()),
                }
            } else if text::eq_str(kt.as_slice(), "CPU architecture") {
                let t = text::trim_chars(v.as_slice());
                if text::eq_str(t.as_slice(), "8") {
                    Some("aarch64".to_owned())
                } else if text::eq_str(t.as_slice(), "7") {
                    Some("armv7l".to_owned())
                } else {
                    let p = text::chars_of("arm_v");
                    Some(text::string_of(text::concat_chars(p.as_slice(), t.as_slice()).as_slice()))
                }
            } else {
                None
            }
        },
    }
}

/// The architecture described by the contents of `/proc/cpuinfo`.
pub fn get_architecture(contents: &str) -> (r: String)
    ensures
        r@ == architecture_of(contents@),
{
    let c = text::chars_of(contents);
    let ls = text::lines_of(c.as_slice());
    let ghost lv = text::lines(contents@);
    let ghost f = |l: Seq<char>| arch_of_line(l);
    let mut i: usize = 0;
    proof {
        text::lemma_take_all(lv);
    }
    while i < ls.len()
        invariant
            i <= ls@.len(),
            text::views(ls@) == lv,
            lv == text::lines(contents@),
            f == (|l: Seq<char>| arch_of_line(l)),
            text::first_some(lv, f) == text::first_some(lv.skip(i as int), f),
        decreases ls.len() - i,
    {
        assert(ls@[i as int]@ == lv[i as int]);
        proof {
            text::lemma_first_some_step(lv, f, i as int);
        }
        match arch_of_line_of(ls[i].as_slice()) {
            Some(a) => {
                return a;
            },
            None => {},
        }
        i = i + 1;
    }
    proof {
        text::lemma_first_some_end(lv, f);
    }
    "unknown".to_owned()
}

/// The CPU facts described by the contents of `/proc/cpuinfo` and, where it
/// could be read, the device tree model.
pub fn cpu_facts_from(contents: &str, device_tree_model: Option<&str>) -> (r: CPUFacts)
    requires
        physical_count_fits(contents@, cpu_count_of(contents@)),
    ensures
        r.count == cpu_count_of(contents@),
        r.physical_cores == physical_count_of(contents@, cpu_count_of(contents@)),
        r.logical_cores == logical_count_of(contents@),
        r.architecture@ == architecture_of(contents@),
        ({
            let models = text::key_values(contents@, "model name"@);
            if models.len() > 0 {
                &&& text::strictly_sorted(text::string_views(r.model@))
                &&& text::string_views(r.model@).to_set() == models.to_set()
            } else {
                text::string_views(r.model@) == cpu_model_fallback(
                    contents@,
                    opt_str_view(device_tree_model),
                )
            }
        }),
{
    let count = get_cpu_count(contents);
    let physical_cores = get_physical_core_count(contents, count);
    let logical_cores = get_logical_core_count(contents);
    let architecture = get_architecture(contents);
    let model = get_cpu_model(contents, device_tree_model);
    CPUFacts { count, physical_cores, logical_cores, model, architecture }
}

} // verus!
