//! Memory facts: the total size of real memory and of swap.
use vstd::prelude::*;
use crate::table::{map_of_pairs, TextMap};
use crate::text;

verus! {

/// The size of one kind of memory.
pub struct MemoryType {
    pub total_bytes: u64,
}

/// Collects the memory facts.
pub struct MemoryComponent;

impl MemoryComponent {
    /// The component; it holds nothing.
    pub fn new() -> (r: Self)
        ensures
            r == MemoryComponent,
    {
        MemoryComponent
    }
}

/// Why the memory facts could not be read.
#[derive(Debug, Clone, Copy, PartialEq, Eq, Structural)]
pub enum MemoryError {
    MissingTotalPhysicalMemory,
    InvalidTotalPhysicalMemory,
    MissingTotalPageFile,
    InvalidTotalPageFile,
    /// No value follows `total =` in the swap usage.
    MissingSwapTotal,
}

/// The factor of the unit that follows a value in `/proc/meminfo`: `kB` is
/// 1024, `mB` and `MB` are 1000000, and anything else (or nothing) is 1.
pub open spec fn meminfo_multiplier(ws: Seq<Seq<char>>) -> int {
    if ws.len() >= 2 {
        if ws[1] == "kB"@ {
            1024
        } else if ws[1] == "mB"@ || ws[1] == "MB"@ {
            1000000
        } else {
            1
        }
    } else {
        1
    }
}

/// The label and the value in bytes (as an unbounded number) of a line of
/// `/proc/meminfo`: the text before the first `:`, and the first word after it
/// read as a number and multiplied by the factor of the unit after it.
pub open spec fn meminfo_field(l: Seq<char>) -> Option<(Seq<char>, int)> {
    match text::split_once(l, ':') {
        None => None,
        Some((label, rest)) => {
            let ws = text::words(rest);
            if ws.len() == 0 {
                None
            } else {
                match text::parse_u64(ws[0]) {
                    None => None,
                    Some(v) => Some((label, v * meminfo_multiplier(ws))),
                }
            }
        },
    }
}

/// Whether the value in bytes of a line of `/proc/meminfo` fits in a `u64`.
pub open spec fn meminfo_field_fits(l: Seq<char>) -> bool {
    match meminfo_field(l) {
        Some((_, b)) => b <= u64::MAX,
        None => true,
    }
}

/// Whether every value in bytes in `/proc/meminfo` fits in a `u64`.
pub open spec fn meminfo_fits(contents: Seq<char>) -> bool {
    forall|i: int|
        0 <= i < text::lines(contents).len() ==> #[trigger] meminfo_field_fits(
            text::lines(contents)[i],
        )
}

/// A line of `/proc/meminfo` as a label and a value in bytes.
pub open spec fn meminfo_entry(l: Seq<char>) -> Option<(Seq<char>, u64)> {
    match meminfo_field(l) {
        Some((label, b)) => Some((label, b as u64)),
        None => None,
    }
}

/// The contents of `/proc/meminfo` as a map from label to bytes; a later line
/// with the same label replaces an earlier one.
pub open spec fn meminfo_of(contents: Seq<char>) -> Map<Seq<char>, u64> {
    map_of_pairs(text::lines(contents).filter_map(|l: Seq<char>| meminfo_entry(l)))
}

fn meminfo_field_of(l: &[char]) -> (r: Option<(Vec<char>, u64)>)
    requires
        meminfo_field_fits(l@),
    ensures
        match r {
            Some((label, b)) => meminfo_entry(l@) == Some((label@, b)),
            None => meminfo_entry(l@) is None,
        },
{
    match text::split_once_chars(l, ':') {
        None => None,
        Some((label, rest)) => {
            let ws = text::words_of(rest.as_slice());
            if ws.len() == 0 {
                return None;
            }
            let value = match text::parse_u64_of(ws[0].as_slice()) {
                Some(v) => v,
                None => {
                    return None;
                },
            };
            let multiplier: u64 = if ws.len() >= 2 {
                if text::eq_str(ws[1].as_slice(), "kB") {
                    1024
                } else if text::eq_str(ws[1].as_slice(), "mB") || text::eq_str(
                    ws[1].as_slice(),
                    "MB",
                ) {
                    1000000
                } else {
                    1
                }
            } else {
                1
            };
            assert(multiplier == meminfo_multiplier(text::views(ws@)));
            Some((label, value * multiplier))
        },
    }
}

fn meminfo_field_fits_of(l: &[char]) -> (r: bool)
    ensures
        r == meminfo_field_fits(l@),
{
    match text::split_once_chars(l, ':') {
        None => true,
        Some((_, rest)) => {
            let ws = text::words_of(rest.as_slice());
            if ws.len() == 0 {
                return true;
            }
            match text::parse_u64_of(ws[0].as_slice()) {
                None => true,
                Some(v) => {
                    let m: u64 = if ws.len() >= 2 {
                        if text::eq_str(ws[1].as_slice(), "kB") {
                            1024
                        } else if text::eq_str(ws[1].as_slice(), "mB") || text::eq_str(
                            ws[1].as_slice(),
                            "MB",
                        ) {
                            1000000
                        } else {
                            1
                        }
                    } else {
                        1
                    };
                    assert(m == meminfo_multiplier(text::views(ws@)));
                    assert((v <= u64::MAX / m) == (v * m <= u64::MAX)) by (nonlinear_arith)
                        requires
                            m >= 1,
                    ;
                    v <= u64::MAX / m
                },
            }
        },
    }
}

/// Whether every value in bytes in the contents of `/proc/meminfo` fits in a
/// `u64`; `parse_meminfo` needs it.
pub fn meminfo_values_fit(contents: &str) -> (r: bool)
    ensures
        r == meminfo_fits(contents@),
{
    let c = text::chars_of(contents);
    let ls = text::lines_of(c.as_slice());
    let ghost lv = text::lines(contents@);
    let mut i: usize = 0;
    while i < ls.len()
        invariant
            i <= ls@.len(),
            text::views(ls@) == lv,
            lv == text::lines(contents@),
            forall|j: int| 0 <= j < i ==> #[trigger] meminfo_field_fits(lv[j]),
        decreases ls.len() - i,
    {
        let fits = meminfo_field_fits_of(ls[i].as_slice());
        assert(ls@[i as int]@ == lv[i as int]);
        if !fits {
            assert(!meminfo_field_fits(lv[i as int]));
            return false;
        }
        i = i + 1;
    }
    true
}

/// The contents of `/proc/meminfo` as a map from label to bytes.
pub fn parse_meminfo(contents: &str) -> (r: TextMap<u64>)
    requires
        meminfo_fits(contents@),
    ensures
        r@ == meminfo_of(contents@),
{
    let c = text::chars_of(contents);
    let ls = text::lines_of(c.as_slice());
    let ghost lv = text::lines(contents@);
    let ghost f = |l: Seq<char>| meminfo_entry(l);
    let mut r: TextMap<u64> = TextMap::new();
    let mut i: usize = 0;
    proof {
        text::lemma_take_all(lv);
    }
    while i < ls.len()
        invariant
            i <= ls@.len(),
            text::views(ls@) == lv,
            meminfo_fits(contents@),
            lv == text::lines(contents@),
            f == (|l: Seq<char>| meminfo_entry(l)),
            r@ == map_of_pairs(lv.take(i as int).filter_map(f)),
        decreases ls.len() - i,
    {
        assert(ls@[i as int]@ == lv[i as int]);
        assert(meminfo_field_fits(lv[i as int]));
        proof {
            text::lemma_filter_map_step(lv, f, i as int);
        }
        match meminfo_field_of(ls[i].as_slice()) {
            Some((label, b)) => {
                let ghost pre = lv.take(i as int).filter_map(f);
                let ghost lab = label@;
                assert(f(lv[i as int]) == Some((lab, b)));
                assert(lv.take(i + 1).filter_map(f) == pre + seq![(lab, b)]);
                r.insert(text::string_of(label.as_slice()), b);
                assert((pre + seq![(lab, b)]).drop_last() =~= pre);
                assert((pre + seq![(lab, b)]).last() == (lab, b));
            },
            None => {},
        }
        i = i + 1;
    }
    proof {
        text::lemma_take_all(lv);
    }
    r
}

/// The memory facts for a map from `/proc/meminfo` label to bytes: `real`
/// from `MemTotal` and `swap` from `SwapTotal`, each where present.
pub open spec fn memory_facts_of(m: Map<Seq<char>, u64>) -> Map<Seq<char>, MemoryType> {
    let with_real = if m.contains_key("MemTotal"@) {
        Map::empty().insert("real"@, MemoryType { total_bytes: m["MemTotal"@] })
    } else {
        Map::empty()
    };
    if m.contains_key("SwapTotal"@) {
        with_real.insert("swap"@, MemoryType { total_bytes: m["SwapTotal"@] })
    } else {
        with_real
    }
}

/// The memory facts hold `real` exactly when `MemTotal` is present, with its
/// bytes, `swap` exactly when `SwapTotal` is present, with its bytes, and
/// nothing else.
pub proof fn lemma_memory_facts_keys(m: Map<Seq<char>, u64>)
    ensures
        forall|k: Seq<char>| #[trigger]
            memory_facts_of(m).contains_key(k) ==> k == "real"@ || k == "swap"@,
        memory_facts_of(m).contains_key("real"@) <==> m.contains_key("MemTotal"@),
        memory_facts_of(m).contains_key("swap"@) <==> m.contains_key("SwapTotal"@),
        m.contains_key("MemTotal"@) ==> memory_facts_of(m)["real"@].total_bytes == m["MemTotal"@],
        m.contains_key("SwapTotal"@) ==> memory_facts_of(m)["swap"@].total_bytes
            == m["SwapTotal"@],
{
    reveal_strlit("real");
    reveal_strlit("swap");
    assert("real"@ != "swap"@) by {
        assert("real"@[0] != "swap"@[0]);
    }
}

/// The memory facts for a map from `/proc/meminfo` label to bytes.
pub fn build_memory_facts(meminfo: TextMap<u64>) -> (r: TextMap<MemoryType>)
    ensures
        r@ == memory_facts_of(meminfo@),
{
    let mut r: TextMap<MemoryType> = TextMap::new();
    match meminfo.get("MemTotal") {
        Some(b) => r.insert("real".to_owned(), MemoryType { total_bytes: *b }),
        None => {},
    }
    match meminfo.get("SwapTotal") {
        Some(b) => r.insert("swap".to_owned(), MemoryType { total_bytes: *b }),
        None => {},
    }
    assert(r@ =~= memory_facts_of(meminfo@));
    r
}

/// The two sizes on the first two lines of `s`, each trimmed and read as a number.
pub open spec fn windows_memory_of(s: Seq<char>) -> Result<Map<Seq<char>, MemoryType>, MemoryError> {
    let ls = text::lines(s);
    if ls.len() < 1 {
        Err(MemoryError::MissingTotalPhysicalMemory)
    } else {
        match text::parse_u64(text::trim(ls[0])) {
            None => Err(MemoryError::InvalidTotalPhysicalMemory),
            Some(physical) => if ls.len() < 2 {
                Err(MemoryError::MissingTotalPageFile)
            } else {
                match text::parse_u64(text::trim(ls[1])) {
                    None => Err(MemoryError::InvalidTotalPageFile),
                    Some(swap) => Ok(
                        Map::empty().insert("real"@, MemoryType { total_bytes: physical }).insert(
                            "swap"@,
                            MemoryType { total_bytes: swap },
                        ),
                    ),
                }
            },
        }
    }
}

/// The memory facts in the output of the Windows script: the physical memory
/// and the page file sizes in bytes, one per line.
pub fn parse_memory_facts_windows(s: &str) -> (r: Result<TextMap<MemoryType>, MemoryError>)
    ensures
        match (r, windows_memory_of(s@)) {
            (Ok(m), Ok(w)) => m@ == w,
            (Err(e), Err(w)) => e == w,
            _ => false,
        },
{
    let c = text::chars_of(s);
    let ls = text::lines_of(c.as_slice());
    if ls.len() < 1 {
        return Err(MemoryError::MissingTotalPhysicalMemory);
    }
    let physical = match text::parse_u64_of(text::trim_chars(ls[0].as_slice()).as_slice()) {
        Some(v) => v,
        None => {
            return Err(MemoryError::InvalidTotalPhysicalMemory);
        },
    };
    if ls.len() < 2 {
        return Err(MemoryError::MissingTotalPageFile);
    }
    let swap = match text::parse_u64_of(text::trim_chars(ls[1].as_slice()).as_slice()) {
        Some(v) => v,
        None => {
            return Err(MemoryError::InvalidTotalPageFile);
        },
    };
    let mut m: TextMap<MemoryType> = TextMap::new();
    m.insert("real".to_owned(), MemoryType { total_bytes: physical });
    m.insert("swap".to_owned(), MemoryType { total_bytes: swap });
    Ok(m)
}

/// The value that follows `total =` in the output of `sysctl -n vm.swapusage`:
/// the second word after the first word `total`.
pub open spec fn swapusage_total(s: Seq<char>) -> Option<Seq<char>> {
    let ws = text::words(s);
    match text::position_of(ws, "total"@) {
        Some(k) => if k + 2 < ws.len() {
            Some(ws[k + 2])
        } else {
            None
        },
        None => None,
    }
}

/// Whether the total in the swap usage, if any, ends in a one-byte character,
/// so that it can be split before its last byte.
pub open spec fn swapusage_unit_splits(s: Seq<char>) -> bool {
    match swapusage_total(s) {
        Some(t) => t.len() > 0 && t.last() < '\u{80}',
        None => true,
    }
}

fn swapusage_total_of(s: &str) -> (r: Option<Vec<char>>)
    ensures
        match r {
            Some(t) => swapusage_total(s@) == Some(t@) && t@.len() > 0,
            None => swapusage_total(s@) is None,
        },
{
    let c = text::chars_of(s);
    let ws = text::words_of(c.as_slice());
    proof {
        text::lemma_words_nonempty(s@);
    }
    match text::position_of_word(&ws, "total") {
        Some(k) => {
            if k < ws.len() && ws.len() - k > 2 {
                assert(ws@[k + 2]@ == text::words(s@)[k + 2]);
                Some(text::slice_chars(ws[k + 2].as_slice(), 0, ws[k + 2].len()))
            } else {
                None
            }
        },
        None => None,
    }
}

/// Whether the total in the swap usage can be split before its unit;
/// `swapusage_total_parts` needs it.
pub fn swapusage_unit_splits_check(s: &str) -> (r: bool)
    ensures
        r == swapusage_unit_splits(s@),
{
    match swapusage_total_of(s) {
        Some(t) => t[t.len() - 1] < '\u{80}',
        None => true,
    }
}

/// The total in the output of `sysctl -n vm.swapusage`, such as
/// `total = 2048.00M  used = 0.00M  free = 2048.00M`, split into the number
/// and the one-character unit that ends it.
pub fn swapusage_total_parts(s: &str) -> (r: Result<(String, String), MemoryError>)
    requires
        swapusage_unit_splits(s@),
    ensures
        match r {
            Ok((num, unit)) => swapusage_total(s@) matches Some(t) && num@ == t.drop_last()
                && unit@ == seq![t.last()],
            Err(e) => e == MemoryError::MissingSwapTotal && swapusage_total(s@) is None,
        },
{
    match swapusage_total_of(s) {
        Some(t) => {
            let n = t.len() - 1;
            let num = text::slice_chars(t.as_slice(), 0, n);
            let unit = text::slice_chars(t.as_slice(), n, t.len());
            assert(num@ =~= t@.drop_last());
            assert(unit@ =~= seq![t@.last()]);
            Ok((text::string_of(num.as_slice()), text::string_of(unit.as_slice())))
        },
        None => Err(MemoryError::MissingSwapTotal),
    }
}

/// The factor of a unit of the swap usage: `B`, `K`, `M` and `G` (powers of 1024).
pub open spec fn swap_unit_factor(unit: Seq<char>) -> Option<u64> {
    if unit == "B"@ {
        Some(1)
    } else if unit == "K"@ {
        Some(1024)
    } else if unit == "M"@ {
        Some(1048576)
    } else if unit == "G"@ {
        Some(1073741824)
    } else {
        None
    }
}

/// The factor of a unit of the swap usage; `None` for an unknown unit.
pub fn swap_unit_multiplier(unit: &str) -> (r: Option<u64>)
    ensures
        r == swap_unit_factor(unit@),
{
    let u = text::chars_of(unit);
    if text::eq_str(u.as_slice(), "B") {
        Some(1)
    } else if text::eq_str(u.as_slice(), "K") {
        Some(1024)
    } else if text::eq_str(u.as_slice(), "M") {
        Some(1048576)
    } else if text::eq_str(u.as_slice(), "G") {
        Some(1073741824)
    } else {
        None
    }
}

} // verus!
