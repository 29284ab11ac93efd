//! Text primitives shared by every parser of the crate.
//!
//! Each primitive has a specification over `Seq<char>` that follows the
//! behaviour of the corresponding method of `str` (`lines`, `trim`,
//! `split_once`, `split_whitespace`, `split`, `parse`), and an executable
//! counterpart over `&[char]` that is proved to compute it.
use vstd::prelude::*;

verus! {

// ---------------------------------------------------------------------------
// Conversions between `str`/`String` and sequences of characters
// ---------------------------------------------------------------------------

/// The characters of `s`, in order.
pub fn chars_of(s: &str) -> (v: Vec<char>)
    ensures
        v@ == s@,
{
    let mut v: Vec<char> = Vec::new();
    for c in it: s.chars()
        invariant
            v@ == it.seq().take(it.index() as int),
            it.seq() == s@,
    {
        v.push(c);
    }
    v
}

/// Builds a `String` from a slice of characters.
///
/// Trusted: calls `String::from_iter` (the `FromIterator<&char>` impl of
/// `String`); the contract claims that the string holds exactly the given
/// characters, in order, as its documentation says.
#[verifier::external_body]
pub(crate) fn string_of(v: &[char]) -> (s: String)
    ensures
        s@ == v@,
{
    String::from_iter(v)
}

/// The view of each vector of characters in a sequence.
pub open spec fn views(v: Seq<Vec<char>>) -> Seq<Seq<char>> {
    v.map_values(|x: Vec<char>| x@)
}

/// The view of each string in a sequence.
pub open spec fn string_views(v: Seq<String>) -> Seq<Seq<char>> {
    v.map_values(|x: String| x@)
}

/// Copies `s[a..b]` into a new vector.
pub fn slice_chars(s: &[char], a: usize, b: usize) -> (r: Vec<char>)
    requires
        a <= b <= s@.len(),
    ensures
        r@ == s@.subrange(a as int, b as int),
{
    let mut r: Vec<char> = Vec::new();
    let mut i = a;
    while i < b
        invariant
            a <= i <= b <= s@.len(),
            r@ == s@.subrange(a as int, i as int),
        decreases b - i,
    {
        r.push(s[i]);
        i = i + 1;
    }
    r
}

/// Whether two character slices are equal.
pub fn eq_chars(a: &[char], b: &[char]) -> (r: bool)
    ensures
        r == (a@ == b@),
{
    if a.len() != b.len() {
        return false;
    }
    let mut i: usize = 0;
    while i < a.len()
        invariant
            a@.len() == b@.len(),
            i <= a@.len(),
            forall|j: int| 0 <= j < i ==> a@[j] == b@[j],
        decreases a.len() - i,
    {
        if a[i] != b[i] {
            return false;
        }
        i = i + 1;
    }
    assert(a@ =~= b@);
    true
}

/// Whether a character slice equals a string literal.
pub fn eq_str(a: &[char], lit: &str) -> (r: bool)
    ensures
        r == (a@ == lit@),
{
    let l = chars_of(lit);
    eq_chars(a, l.as_slice())
}

// ---------------------------------------------------------------------------
// Whitespace and trimming
// ---------------------------------------------------------------------------

/// The characters for which `char::is_whitespace` holds (Unicode `White_Space`).
pub open spec fn is_ws(c: char) -> bool {
    ||| c == '\t'
    ||| c == '\n'
    ||| c == '\u{0B}'
    ||| c == '\u{0C}'
    ||| c == '\r'
    ||| c == ' '
    ||| c == '\u{85}'
    ||| c == '\u{A0}'
    ||| c == '\u{1680}'
    ||| ('\u{2000}' <= c && c <= '\u{200A}')
    ||| c == '\u{2028}'
    ||| c == '\u{2029}'
    ||| c == '\u{202F}'
    ||| c == '\u{205F}'
    ||| c == '\u{3000}'
}

pub fn is_ws_char(c: char) -> (b: bool)
    ensures
        b == is_ws(c),
{
    c == '\t' || c == '\n' || c == '\u{0B}' || c == '\u{0C}' || c == '\r' || c == ' ' || c
        == '\u{85}' || c == '\u{A0}' || c == '\u{1680}' || ('\u{2000}' <= c && c <= '\u{200A}')
        || c == '\u{2028}' || c == '\u{2029}' || c == '\u{202F}' || c == '\u{205F}' || c
        == '\u{3000}'
}

/// `str::trim_start`: drops the leading whitespace.
pub open spec fn trim_start(s: Seq<char>) -> Seq<char>
    decreases s.len(),
{
    if s.len() > 0 && is_ws(s[0]) {
        trim_start(s.drop_first())
    } else {
        s
    }
}

/// `str::trim_end`: drops the trailing whitespace.
pub open spec fn trim_end(s: Seq<char>) -> Seq<char>
    decreases s.len(),
{
    if s.len() > 0 && is_ws(s.last()) {
        trim_end(s.drop_last())
    } else {
        s
    }
}

/// `str::trim`: drops the leading and the trailing whitespace.
pub open spec fn trim(s: Seq<char>) -> Seq<char> {
    trim_end(trim_start(s))
}

/// The index from which `trim_start` keeps the characters of `s`.
pub fn trim_start_index(s: &[char]) -> (i: usize)
    ensures
        i <= s@.len(),
        trim_start(s@) == s@.skip(i as int),
{
    let mut i: usize = 0;
    assert(s@.skip(0) =~= s@);
    while i < s.len() && is_ws_char(s[i])
        invariant
            i <= s@.len(),
            trim_start(s@) == trim_start(s@.skip(i as int)),
        decreases s.len() - i,
    {
        assert(s@.skip(i as int).drop_first() =~= s@.skip(i + 1));
        i = i + 1;
    }
    i
}

/// The index up to which `trim_end` keeps the characters of `s[lo..]`.
pub fn trim_end_index(s: &[char], lo: usize) -> (j: usize)
    requires
        lo <= s@.len(),
    ensures
        lo <= j <= s@.len(),
        trim_end(s@.skip(lo as int)) == s@.subrange(lo as int, j as int),
{
    let mut j: usize = s.len();
    assert(s@.skip(lo as int) =~= s@.subrange(lo as int, j as int));
    while j > lo && is_ws_char(s[j - 1])
        invariant
            lo <= j <= s@.len(),
            trim_end(s@.skip(lo as int)) == trim_end(s@.subrange(lo as int, j as int)),
        decreases j,
    {
        assert(s@.subrange(lo as int, j as int).drop_last() =~= s@.subrange(
            lo as int,
            j - 1,
        ));
        j = j - 1;
    }
    j
}

/// The bounds of `trim(s)` inside `s`.
pub fn trim_bounds(s: &[char]) -> (r: (usize, usize))
    ensures
        r.0 <= r.1 <= s@.len(),
        trim(s@) == s@.subrange(r.0 as int, r.1 as int),
{
    let i = trim_start_index(s);
    let j = trim_end_index(s, i);
    (i, j)
}

/// `str::trim`, on characters.
pub fn trim_chars(s: &[char]) -> (r: Vec<char>)
    ensures
        r@ == trim(s@),
{
    let (i, j) = trim_bounds(s);
    slice_chars(s, i, j)
}

// ---------------------------------------------------------------------------
// Searching and splitting on a character
// ---------------------------------------------------------------------------

/// The index of the first occurrence of `c` in `s`.
pub open spec fn find_char(s: Seq<char>, c: char) -> Option<int>
    decreases s.len(),
{
    if s.len() == 0 {
        None
    } else if s[0] == c {
        Some(0)
    } else {
        match find_char(s.drop_first(), c) {
            Some(i) => Some(i + 1),
            None => None,
        }
    }
}

pub broadcast proof fn lemma_find_char(s: Seq<char>, c: char)
    ensures
        match #[trigger] find_char(s, c) {
            Some(i) => 0 <= i < s.len() && s[i] == c && forall|j: int| 0 <= j < i ==> s[j] != c,
            None => forall|j: int| 0 <= j < s.len() ==> s[j] != c,
        },
    decreases s.len(),
{
    if s.len() > 0 && s[0] != c {
        lemma_find_char(s.drop_first(), c);
        match find_char(s.drop_first(), c) {
            Some(i) => {
                assert forall|j: int| 0 <= j < i + 1 implies s[j] != c by {
                    if j > 0 {
                        assert(s[j] == s.drop_first()[j - 1]);
                    }
                }
            },
            None => {
                assert forall|j: int| 0 <= j < s.len() implies s[j] != c by {
                    if j > 0 {
                        assert(s[j] == s.drop_first()[j - 1]);
                    }
                }
            },
        }
    }
}

/// `str::split_once` with a character pattern.
pub open spec fn split_once(s: Seq<char>, c: char) -> Option<(Seq<char>, Seq<char>)> {
    match find_char(s, c) {
        Some(i) => Some((s.take(i), s.skip(i + 1))),
        None => None,
    }
}

/// The index of the first `c` in `s[from..]`, if any, as an index of `s`.
pub fn find_char_from(s: &[char], c: char, from: usize) -> (r: Option<usize>)
    requires
        from <= s@.len(),
    ensures
        match r {
            Some(i) => from <= i < s@.len() && find_char(s@.skip(from as int), c) == Some(i - from),
            None => find_char(s@.skip(from as int), c) is None,
        },
{
    let mut i = from;
    while i < s.len()
        invariant
            from <= i <= s@.len(),
            forall|j: int| from <= j < i ==> s@[j] != c,
        decreases s.len() - i,
    {
        if s[i] == c {
            proof {
                lemma_find_char(s@.skip(from as int), c);
                let t = s@.skip(from as int);
                match find_char(t, c) {
                    Some(k) => {
                        assert(t[i - from] == c);
                        assert(!(k < i - from)) by {
                            if k < i - from {
                                assert(t[k] == s@[from + k]);
                            }
                        }
                    },
                    None => {
                        assert(t[i - from] == c);
                    },
                }
            }
            return Some(i);
        }
        i = i + 1;
    }
    proof {
        lemma_find_char(s@.skip(from as int), c);
        let t = s@.skip(from as int);
        if let Some(k) = find_char(t, c) {
            assert(t[k] == s@[from + k]);
        }
    }
    None
}

/// `str::split_once` on characters.
pub fn split_once_chars(s: &[char], c: char) -> (r: Option<(Vec<char>, Vec<char>)>)
    ensures
        match r {
            Some((a, b)) => split_once(s@, c) == Some((a@, b@)),
            None => split_once(s@, c) is None,
        },
{
    assert(s@.skip(0) =~= s@);
    let found = find_char_from(s, c, 0);
    match found {
        Some(i) => {
            assert(i < s.len());
            let a = slice_chars(s, 0, i);
            let b = slice_chars(s, i + 1, s.len());
            assert(a@ =~= s@.take(i as int));
            assert(b@ =~= s@.skip(i + 1));
            Some((a, b))
        },
        None => None,
    }
}

/// `str::strip_suffix('\r')` that keeps the line when there is no such suffix.
pub open spec fn strip_cr(l: Seq<char>) -> Seq<char> {
    if l.len() > 0 && l.last() == '\r' {
        l.drop_last()
    } else {
        l
    }
}

/// `str::lines`: the text split at each `\n`, with a `\r` just before a `\n`
/// dropped, and no empty line after a final line ending.
pub open spec fn lines(s: Seq<char>) -> Seq<Seq<char>>
    decreases s.len(),
{
    if s.len() == 0 {
        Seq::empty()
    } else {
        match find_char(s, '\n') {
            Some(i) => {
                if 0 <= i < s.len() {
                    seq![strip_cr(s.take(i))] + lines(s.skip(i + 1))
                } else {
                    Seq::empty()
                }
            },
            None => seq![s],
        }
    }
}

/// `str::lines` on characters.
pub fn lines_of(s: &[char]) -> (r: Vec<Vec<char>>)
    ensures
        views(r@) == lines(s@),
{
    let mut r: Vec<Vec<char>> = Vec::new();
    let mut pos: usize = 0;
    assert(s@.skip(0) =~= s@);
    while pos < s.len()
        invariant
            pos <= s@.len(),
            lines(s@) == views(r@) + lines(s@.skip(pos as int)),
        decreases s.len() - pos,
    {
        let ghost t = s@.skip(pos as int);
        proof {
            lemma_find_char(t, '\n');
        }
        match find_char_from(s, '\n', pos) {
            Some(j) => {
                let mut line = slice_chars(s, pos, j);
                if line.len() > 0 && line[line.len() - 1] == '\r' {
                    line.pop();
                }
                assert(line@ =~= strip_cr(t.take(j - pos)));
                assert(t.skip(j - pos + 1) =~= s@.skip(j + 1));
                let ghost old_r = r@;
                r.push(line);
                assert(views(r@) =~= views(old_r) + seq![line@]);
                pos = j + 1;
            },
            None => {
                let line = slice_chars(s, pos, s.len());
                assert(line@ =~= t);
                let ghost old_r = r@;
                r.push(line);
                assert(views(r@) =~= views(old_r) + seq![line@]);
                pos = s.len();
                assert(s@.skip(pos as int) =~= Seq::<char>::empty());
            },
        }
    }
    assert(s@.skip(pos as int) =~= Seq::<char>::empty());
    assert(views(r@) + Seq::<Seq<char>>::empty() =~= views(r@));
    r
}


// ---------------------------------------------------------------------------
// Words: `str::split_whitespace`
// ---------------------------------------------------------------------------

/// The number of leading characters of `s` that are not whitespace.
pub open spec fn word_len(s: Seq<char>) -> nat
    decreases s.len(),
{
    if s.len() > 0 && !is_ws(s[0]) {
        1 + word_len(s.drop_first())
    } else {
        0
    }
}

pub proof fn lemma_trim_start(s: Seq<char>) -> (k: int)
    ensures
        0 <= k <= s.len(),
        trim_start(s) == s.skip(k),
        forall|j: int| 0 <= j < k ==> is_ws(s[j]),
        k < s.len() ==> !is_ws(s[k]),
    decreases s.len(),
{
    if s.len() > 0 && is_ws(s[0]) {
        let k1 = lemma_trim_start(s.drop_first());
        assert(s.drop_first().skip(k1) =~= s.skip(k1 + 1));
        assert forall|j: int| 0 <= j < k1 + 1 implies is_ws(s[j]) by {
            if j > 0 {
                assert(s[j] == s.drop_first()[j - 1]);
            }
        }
        if k1 + 1 < s.len() {
            assert(s[k1 + 1] == s.drop_first()[k1]);
        }
        k1 + 1
    } else {
        assert(s.skip(0) =~= s);
        0
    }
}

pub proof fn lemma_word_len(s: Seq<char>)
    ensures
        word_len(s) <= s.len(),
        forall|j: int| 0 <= j < word_len(s) ==> !is_ws(s[j]),
        word_len(s) < s.len() ==> is_ws(s[word_len(s) as int]),
    decreases s.len(),
{
    if s.len() > 0 && !is_ws(s[0]) {
        lemma_word_len(s.drop_first());
        assert forall|j: int| 0 <= j < word_len(s) implies !is_ws(s[j]) by {
            if j > 0 {
                assert(s[j] == s.drop_first()[j - 1]);
            }
        }
        if word_len(s) < s.len() {
            assert(s[word_len(s) as int] == s.drop_first()[word_len(s) - 1]);
        }
    }
}

/// `str::split_whitespace`: the maximal runs of non-whitespace characters.
pub open spec fn words(s: Seq<char>) -> Seq<Seq<char>>
    decreases s.len(),
{
    let t = trim_start(s);
    if t.len() == 0 {
        Seq::empty()
    } else {
        let n = word_len(t);
        proof {
            let k = lemma_trim_start(s);
            lemma_word_len(t);
        }
        if 0 < n {
            seq![t.take(n as int)] + words(t.skip(n as int))
        } else {
            Seq::empty()
        }
    }
}

/// `str::split_whitespace` on characters.
pub fn words_of(s: &[char]) -> (r: Vec<Vec<char>>)
    ensures
        views(r@) == words(s@),
{
    let mut r: Vec<Vec<char>> = Vec::new();
    let mut pos: usize = 0;
    assert(s@.skip(0) =~= s@);
    assert(views(r@) =~= Seq::<Seq<char>>::empty());
    loop
        invariant
            pos <= s@.len(),
            words(s@) == views(r@) + words(s@.skip(pos as int)),
        decreases s.len() - pos,
    {
        let ghost u = s@.skip(pos as int);
        let mut i = pos;
        while i < s.len() && is_ws_char(s[i])
            invariant
                pos <= i <= s@.len(),
                trim_start(u) == trim_start(s@.skip(i as int)),
            decreases s.len() - i,
        {
            assert(s@.skip(i as int).drop_first() =~= s@.skip(i + 1));
            i = i + 1;
        }
        let ghost t = s@.skip(i as int);
        assert(trim_start(u) == t);
        if i == s.len() {
            assert(t.len() == 0);
            assert(words(u) == Seq::<Seq<char>>::empty());
            assert(views(r@) + Seq::<Seq<char>>::empty() =~= views(r@));
            return r;
        }
        let mut j = i;
        while j < s.len() && !is_ws_char(s[j])
            invariant
                i <= j <= s@.len(),
                word_len(t) == (j - i) + word_len(s@.skip(j as int)),
            decreases s.len() - j,
        {
            assert(s@.skip(j as int).drop_first() =~= s@.skip(j + 1));
            j = j + 1;
        }
        assert(word_len(t) == j - i);
        let w = slice_chars(s, i, j);
        assert(w@ =~= t.take(j - i));
        assert(t.skip(j - i) =~= s@.skip(j as int));
        let ghost old_r = r@;
        r.push(w);
        assert(views(r@) =~= views(old_r) + seq![w@]);
        pos = j;
    }
}

// ---------------------------------------------------------------------------
// Splitting on a character: `str::split` and `str::splitn`
// ---------------------------------------------------------------------------

/// `str::split` with a character pattern: every piece, empty ones included.
pub open spec fn split(s: Seq<char>, c: char) -> Seq<Seq<char>>
    decreases s.len(),
{
    match find_char(s, c) {
        Some(i) => {
            if 0 <= i < s.len() {
                seq![s.take(i)] + split(s.skip(i + 1), c)
            } else {
                Seq::empty()
            }
        },
        None => seq![s],
    }
}

/// `str::splitn(n, c)`: at most `n` pieces, the last one holding the rest.
pub open spec fn splitn(s: Seq<char>, n: nat, c: char) -> Seq<Seq<char>>
    decreases n,
{
    if n == 0 {
        Seq::empty()
    } else if n == 1 {
        seq![s]
    } else {
        match find_char(s, c) {
            Some(i) => {
                if 0 <= i < s.len() {
                    seq![s.take(i)] + splitn(s.skip(i + 1), (n - 1) as nat, c)
                } else {
                    Seq::empty()
                }
            },
            None => seq![s],
        }
    }
}

/// `str::split` with a character pattern, on characters.
pub fn split_of(s: &[char], c: char) -> (r: Vec<Vec<char>>)
    ensures
        views(r@) == split(s@, c),
{
    let mut r: Vec<Vec<char>> = Vec::new();
    let mut pos: usize = 0;
    assert(s@.skip(0) =~= s@);
    assert(views(r@) =~= Seq::<Seq<char>>::empty());
    loop
        invariant
            pos <= s@.len(),
            split(s@, c) == views(r@) + split(s@.skip(pos as int), c),
        decreases s.len() - pos,
    {
        let ghost t = s@.skip(pos as int);
        proof {
            lemma_find_char(t, c);
        }
        let found = find_char_from(s, c, pos);
        match found {
            Some(j) => {
                assert(j < s.len());
                let piece = slice_chars(s, pos, j);
                assert(piece@ =~= t.take(j - pos));
                assert(t.skip(j - pos + 1) =~= s@.skip(j + 1));
                let ghost old_r = r@;
                r.push(piece);
                assert(views(r@) =~= views(old_r) + seq![piece@]);
                pos = j + 1;
            },
            None => {
                let piece = slice_chars(s, pos, s.len());
                assert(piece@ =~= t);
                let ghost old_r = r@;
                r.push(piece);
                assert(views(r@) =~= views(old_r) + seq![piece@]);
                return r;
            },
        }
    }
}

/// `str::splitn(n, c)` on characters.
pub fn splitn_of(s: &[char], n: usize, c: char) -> (r: Vec<Vec<char>>)
    ensures
        views(r@) == splitn(s@, n as nat, c),
{
    let mut r: Vec<Vec<char>> = Vec::new();
    if n == 0 {
        assert(views(r@) =~= Seq::<Seq<char>>::empty());
        return r;
    }
    let mut pos: usize = 0;
    let mut left: usize = n;
    assert(s@.skip(0) =~= s@);
    assert(views(r@) =~= Seq::<Seq<char>>::empty());
    loop
        invariant
            pos <= s@.len(),
            1 <= left <= n,
            splitn(s@, n as nat, c) == views(r@) + splitn(s@.skip(pos as int), left as nat, c),
        decreases left,
    {
        let ghost t = s@.skip(pos as int);
        proof {
            lemma_find_char(t, c);
        }
        if left == 1 {
            let piece = slice_chars(s, pos, s.len());
            assert(piece@ =~= t);
            let ghost old_r = r@;
            r.push(piece);
            assert(views(r@) =~= views(old_r) + seq![piece@]);
            return r;
        }
        let found = find_char_from(s, c, pos);
        match found {
            Some(j) => {
                assert(j < s.len());
                let piece = slice_chars(s, pos, j);
                assert(piece@ =~= t.take(j - pos));
                assert(t.skip(j - pos + 1) =~= s@.skip(j + 1));
                let ghost old_r = r@;
                r.push(piece);
                assert(views(r@) =~= views(old_r) + seq![piece@]);
                pos = j + 1;
                left = left - 1;
            },
            None => {
                let piece = slice_chars(s, pos, s.len());
                assert(piece@ =~= t);
                let ghost old_r = r@;
                r.push(piece);
                assert(views(r@) =~= views(old_r) + seq![piece@]);
                return r;
            },
        }
    }
}


// ---------------------------------------------------------------------------
// Prefixes and trimming of a given character
// ---------------------------------------------------------------------------

/// `str::starts_with` with a string pattern.
pub open spec fn starts_with(s: Seq<char>, p: Seq<char>) -> bool {
    p.len() <= s.len() && s.take(p.len() as int) == p
}

pub fn starts_with_chars(s: &[char], p: &[char]) -> (r: bool)
    ensures
        r == starts_with(s@, p@),
{
    if p.len() > s.len() {
        return false;
    }
    let mut i: usize = 0;
    while i < p.len()
        invariant
            p@.len() <= s@.len(),
            i <= p@.len(),
            forall|j: int| 0 <= j < i ==> s@[j] == p@[j],
        decreases p.len() - i,
    {
        if s[i] != p[i] {
            assert(s@.take(p@.len() as int)[i as int] != p@[i as int]);
            return false;
        }
        i = i + 1;
    }
    assert(s@.take(p@.len() as int) =~= p@);
    true
}

/// `str::trim_start_matches(c)`: drops every leading `c`.
pub open spec fn trim_start_char(s: Seq<char>, c: char) -> Seq<char>
    decreases s.len(),
{
    if s.len() > 0 && s[0] == c {
        trim_start_char(s.drop_first(), c)
    } else {
        s
    }
}

/// `str::trim_end_matches(c)`: drops every trailing `c`.
pub open spec fn trim_end_char(s: Seq<char>, c: char) -> Seq<char>
    decreases s.len(),
{
    if s.len() > 0 && s.last() == c {
        trim_end_char(s.drop_last(), c)
    } else {
        s
    }
}

/// `str::trim_matches(c)`: drops every leading and trailing `c`.
pub open spec fn trim_char(s: Seq<char>, c: char) -> Seq<char> {
    trim_end_char(trim_start_char(s, c), c)
}

pub fn trim_char_chars(s: &[char], c: char) -> (r: Vec<char>)
    ensures
        r@ == trim_char(s@, c),
{
    let mut i: usize = 0;
    assert(s@.skip(0) =~= s@);
    while i < s.len() && s[i] == c
        invariant
            i <= s@.len(),
            trim_start_char(s@, c) == trim_start_char(s@.skip(i as int), c),
        decreases s.len() - i,
    {
        assert(s@.skip(i as int).drop_first() =~= s@.skip(i + 1));
        i = i + 1;
    }
    let mut j: usize = s.len();
    assert(s@.skip(i as int) =~= s@.subrange(i as int, j as int));
    while j > i && s[j - 1] == c
        invariant
            i <= j <= s@.len(),
            trim_start_char(s@, c) == s@.skip(i as int),
            trim_end_char(s@.skip(i as int), c) == trim_end_char(
                s@.subrange(i as int, j as int),
                c,
            ),
        decreases j,
    {
        assert(s@.subrange(i as int, j as int).drop_last() =~= s@.subrange(i as int, j - 1));
        j = j - 1;
    }
    slice_chars(s, i, j)
}

pub fn trim_end_char_chars(s: &[char], c: char) -> (r: Vec<char>)
    ensures
        r@ == trim_end_char(s@, c),
{
    let mut j: usize = s.len();
    assert(s@ =~= s@.subrange(0, j as int));
    while j > 0 && s[j - 1] == c
        invariant
            j <= s@.len(),
            trim_end_char(s@, c) == trim_end_char(s@.subrange(0, j as int), c),
        decreases j,
    {
        assert(s@.subrange(0, j as int).drop_last() =~= s@.subrange(0, j - 1));
        j = j - 1;
    }
    slice_chars(s, 0, j)
}

// ---------------------------------------------------------------------------
// Unsigned integers: `str::parse::<u32>`, `str::parse::<u64>`, `u32::from_str_radix`
// ---------------------------------------------------------------------------

/// The value of `c` as a digit in base `radix` (2 to 36), as `char::to_digit` gives it.
pub open spec fn digit_value(c: char, radix: nat) -> Option<nat> {
    let v: int = if '0' <= c && c <= '9' {
        c as int - '0' as int
    } else if 'a' <= c && c <= 'z' {
        c as int - 'a' as int + 10
    } else if 'A' <= c && c <= 'Z' {
        c as int - 'A' as int + 10
    } else {
        radix as int
    };
    if v < radix {
        Some(v as nat)
    } else {
        None
    }
}

pub fn digit_value_of(c: char, radix: u32) -> (r: Option<u32>)
    requires
        2 <= radix <= 36,
    ensures
        match r {
            Some(v) => digit_value(c, radix as nat) == Some(v as nat),
            None => digit_value(c, radix as nat) is None,
        },
{
    let v: u32 = if '0' <= c && c <= '9' {
        (c as u32) - ('0' as u32)
    } else if 'a' <= c && c <= 'z' {
        (c as u32) - ('a' as u32) + 10
    } else if 'A' <= c && c <= 'Z' {
        (c as u32) - ('A' as u32) + 10
    } else {
        radix
    };
    if v < radix {
        Some(v)
    } else {
        None
    }
}

/// Whether every character of `s` is a digit in base `radix`.
pub open spec fn all_digits(s: Seq<char>, radix: nat) -> bool {
    forall|i: int| 0 <= i < s.len() ==> (#[trigger] digit_value(s[i], radix)) is Some
}

/// The number that the digits `s` denote in base `radix`.
pub open spec fn digits_value(s: Seq<char>, radix: nat) -> nat
    decreases s.len(),
{
    if s.len() == 0 {
        0
    } else {
        digits_value(s.drop_last(), radix) * radix + digit_value(s.last(), radix).unwrap()
    }
}

/// The number that `s` denotes as `FromStr` of an unsigned integer reads it (or
/// `from_str_radix`): an optional `+`, then at least one digit, and nothing else.
pub open spec fn parse_unsigned(s: Seq<char>, radix: nat) -> Option<nat> {
    let d = if s.len() > 0 && s[0] == '+' {
        s.drop_first()
    } else {
        s
    };
    if d.len() > 0 && all_digits(d, radix) {
        Some(digits_value(d, radix))
    } else {
        None
    }
}

/// `str::parse::<u64>`, as an `Option`.
pub open spec fn parse_u64(s: Seq<char>) -> Option<u64> {
    match parse_unsigned(s, 10) {
        Some(v) => if v <= u64::MAX {
            Some(v as u64)
        } else {
            None
        },
        None => None,
    }
}

/// `str::parse::<u32>`, as an `Option`.
pub open spec fn parse_u32(s: Seq<char>) -> Option<u32> {
    match parse_unsigned(s, 10) {
        Some(v) => if v <= u32::MAX {
            Some(v as u32)
        } else {
            None
        },
        None => None,
    }
}

/// `u32::from_str_radix(s, 16)`, as an `Option`.
pub open spec fn parse_hex_u32(s: Seq<char>) -> Option<u32> {
    match parse_unsigned(s, 16) {
        Some(v) => if v <= u32::MAX {
            Some(v as u32)
        } else {
            None
        },
        None => None,
    }
}

proof fn lemma_digits_value_prefix(s: Seq<char>, radix: nat, k: int)
    requires
        radix >= 1,
        0 <= k <= s.len(),
        all_digits(s, radix),
    ensures
        digits_value(s.take(k), radix) <= digits_value(s, radix),
    decreases s.len(),
{
    if k < s.len() {
        let t = s.drop_last();
        assert(all_digits(t, radix)) by {
            assert forall|i: int| 0 <= i < t.len() implies (#[trigger] digit_value(t[i], radix)) is Some by {
                assert(t[i] == s[i]);
            }
        }
        lemma_digits_value_prefix(t, radix, k);
        assert(t.take(k) =~= s.take(k));
        let a = digits_value(t, radix);
        assert(a <= a * radix) by (nonlinear_arith)
            requires
                radix >= 1,
        ;
    } else {
        assert(s.take(k) =~= s);
    }
}

/// Reads `s` in base `radix` as `FromStr`/`from_str_radix` for unsigned integers do,
/// and gives the value if it is at most `max`.
pub fn parse_unsigned_of(s: &[char], radix: u32, max: u64) -> (r: Option<u64>)
    requires
        2 <= radix <= 36,
    ensures
        match r {
            Some(v) => parse_unsigned(s@, radix as nat) == Some(v as nat) && v <= max,
            None => match parse_unsigned(s@, radix as nat) {
                Some(v) => v > max,
                None => true,
            },
        },
{
    let start: usize = if s.len() > 0 && s[0] == '+' {
        1
    } else {
        0
    };
    let ghost d = s@.skip(start as int);
    assert(d =~= (if s@.len() > 0 && s@[0] == '+' {
        s@.drop_first()
    } else {
        s@
    }));
    if start == s.len() {
        return None;
    }
    let mut acc: u64 = 0;
    let mut i = start;
    while i < s.len()
        invariant
            start <= i <= s@.len(),
            d == s@.skip(start as int),
            d == (if s@.len() > 0 && s@[0] == '+' {
                s@.drop_first()
            } else {
                s@
            }),
            2 <= radix <= 36,
            all_digits(d.take(i - start), radix as nat),
            acc as nat == digits_value(d.take(i - start), radix as nat),
            acc <= max,
        decreases s.len() - i,
    {
        let dv = digit_value_of(s[i], radix);
        match dv {
            None => {
                assert(d[i - start] == s@[i as int]);
                assert(digit_value(d[i - start], radix as nat) is None);
                assert(!all_digits(d, radix as nat));
                assert(parse_unsigned(s@, radix as nat) is None);
                return None;
            },
            Some(v) => {
                let ghost p = d.take(i - start + 1);
                assert(p.drop_last() =~= d.take(i - start));
                assert(p.last() == s@[i as int]);
                assert(all_digits(p, radix as nat)) by {
                    assert forall|k: int| 0 <= k < p.len() implies (#[trigger] digit_value(
                        p[k],
                        radix as nat,
                    )) is Some by {
                        if k < p.len() - 1 {
                            assert(p[k] == d.take(i - start)[k]);
                        }
                    }
                }
                if v as u64 > max || acc > (max - v as u64) / (radix as u64) {
                    proof {
                        assert(acc * radix + v > max) by (nonlinear_arith)
                            requires
                                v > max || acc > (max - v) / (radix as int),
                                radix >= 2,
                                acc >= 0,
                                max >= 0,
                        ;
                        if all_digits(d, radix as nat) {
                            lemma_digits_value_prefix(d, radix as nat, i - start + 1);
                            assert(digits_value(p, radix as nat) == acc * radix + v);
                            assert(digits_value(d, radix as nat) > max);
                        }
                    }
                    return None;
                }
                proof {
                    assert(acc * radix + v <= max) by (nonlinear_arith)
                        requires
                            acc <= (max - v) / (radix as int),
                            radix >= 2,
                            v <= max,
                    ;
                }
                acc = acc * (radix as u64) + (v as u64);
                i = i + 1;
            },
        }
    }
    assert(d.take(i - start) =~= d);
    Some(acc)
}

/// `str::parse::<u64>` on characters.
pub fn parse_u64_of(s: &[char]) -> (r: Option<u64>)
    ensures
        r == parse_u64(s@),
{
    parse_unsigned_of(s, 10, u64::MAX)
}

/// `str::parse::<u32>` on characters.
pub fn parse_u32_of(s: &[char]) -> (r: Option<u32>)
    ensures
        r == parse_u32(s@),
{
    match parse_unsigned_of(s, 10, u32::MAX as u64) {
        Some(v) => Some(v as u32),
        None => None,
    }
}

/// `u32::from_str_radix(s, 16)` on characters.
pub fn parse_hex_u32_of(s: &[char]) -> (r: Option<u32>)
    ensures
        r == parse_hex_u32(s@),
{
    match parse_unsigned_of(s, 16, u32::MAX as u64) {
        Some(v) => Some(v as u32),
        None => None,
    }
}


// ---------------------------------------------------------------------------
// Searching and splitting on a string pattern
// ---------------------------------------------------------------------------

/// Whether the pattern `p` occurs in `s` at index `i`.
pub open spec fn match_at(s: Seq<char>, p: Seq<char>, i: int) -> bool {
    0 <= i && i + p.len() <= s.len() && s.subrange(i, i + p.len()) == p
}

/// The index of the first occurrence of the pattern `p` in `s`.
pub open spec fn find_str(s: Seq<char>, p: Seq<char>) -> Option<int>
    decreases s.len(),
{
    if starts_with(s, p) {
        Some(0)
    } else if s.len() == 0 {
        None
    } else {
        match find_str(s.drop_first(), p) {
            Some(i) => Some(i + 1),
            None => None,
        }
    }
}

pub proof fn lemma_find_str(s: Seq<char>, p: Seq<char>)
    ensures
        match find_str(s, p) {
            Some(i) => match_at(s, p, i) && forall|j: int| 0 <= j < i ==> !match_at(s, p, j),
            None => forall|j: int| 0 <= j <= s.len() ==> !match_at(s, p, j),
        },
    decreases s.len(),
{
    if starts_with(s, p) {
        assert(s.subrange(0, p.len() as int) =~= s.take(p.len() as int));
    } else {
        assert(!match_at(s, p, 0)) by {
            if match_at(s, p, 0) {
                assert(s.subrange(0, p.len() as int) =~= s.take(p.len() as int));
            }
        }
        if s.len() > 0 {
            let t = s.drop_first();
            lemma_find_str(t, p);
            assert forall|j: int| 0 <= j < s.len() implies match_at(s, p, j + 1) == match_at(
                t,
                p,
                j,
            ) by {
                if 0 <= j && j + p.len() <= t.len() {
                    assert(s.subrange(j + 1, j + 1 + p.len()) =~= t.subrange(j, j + p.len()));
                }
            }
            match find_str(t, p) {
                Some(i) => {
                    assert forall|j: int| 0 <= j < i + 1 implies !match_at(s, p, j) by {
                        if j > 0 {
                            assert(match_at(s, p, j) == match_at(t, p, j - 1));
                        }
                    }
                },
                None => {
                    assert forall|j: int| 0 <= j <= s.len() implies !match_at(s, p, j) by {
                        if j > 0 {
                            assert(match_at(s, p, j) == match_at(t, p, j - 1));
                        }
                    }
                },
            }
        } else {
            assert forall|j: int| 0 <= j <= s.len() implies !match_at(s, p, j) by {}
        }
    }
}

/// Whether `p` occurs in `s` at index `i`.
pub fn match_at_chars(s: &[char], p: &[char], i: usize) -> (r: bool)
    ensures
        r == match_at(s@, p@, i as int),
{
    if i > s.len() || p.len() > s.len() - i {
        return false;
    }
    let mut k: usize = 0;
    while k < p.len()
        invariant
            i + p.len() <= s.len(),
            k <= p@.len(),
            forall|j: int| 0 <= j < k ==> s@[i + j] == p@[j],
        decreases p.len() - k,
    {
        if s[i + k] != p[k] {
            assert(s@.subrange(i as int, i + p@.len())[k as int] != p@[k as int]);
            return false;
        }
        k = k + 1;
    }
    assert(s@.subrange(i as int, i + p@.len()) =~= p@);
    true
}

/// The index of the first occurrence of `p` in `s[from..]`, as an index of `s`.
pub fn find_str_from(s: &[char], p: &[char], from: usize) -> (r: Option<usize>)
    requires
        from <= s@.len(),
    ensures
        match r {
            Some(i) => from <= i && i + p@.len() <= s@.len() && find_str(s@.skip(from as int), p@)
                == Some(i - from),
            None => find_str(s@.skip(from as int), p@) is None,
        },
{
    let ghost t = s@.skip(from as int);
    proof {
        lemma_find_str(t, p@);
        assert forall|j: int| 0 <= j <= t.len() implies match_at(t, p@, j) == match_at(
            s@,
            p@,
            from + j,
        ) by {
            if j + p@.len() <= t.len() {
                assert(t.subrange(j, j + p@.len()) =~= s@.subrange(from + j, from + j + p@.len()));
            }
        }
    }
    let mut i = from;
    loop
        invariant
            from <= i,
            i <= s@.len(),
            t == s@.skip(from as int),
            forall|j: int| 0 <= j <= t.len() ==> match_at(t, p@, j) == match_at(s@, p@, from + j),
            match find_str(t, p@) {
                Some(i) => match_at(t, p@, i) && forall|j: int| 0 <= j < i ==> !match_at(t, p@, j),
                None => forall|j: int| 0 <= j <= t.len() ==> !match_at(t, p@, j),
            },
            forall|j: int| from <= j < i ==> !match_at(s@, p@, j),
        ensures
            forall|j: int| from <= j <= s@.len() ==> !match_at(s@, p@, j),
        decreases s@.len() - i,
    {
        if match_at_chars(s, p, i) {
            proof {
                match find_str(t, p@) {
                    Some(k) => {
                        assert(match_at(t, p@, i - from));
                        assert(!(k < i - from));
                        assert(!(k > i - from));
                    },
                    None => {
                        assert(match_at(t, p@, i - from));
                    },
                }
            }
            return Some(i);
        }
        if i == s.len() {
            break;
        }
        i = i + 1;
    }
    proof {
        if let Some(k) = find_str(t, p@) {
            assert(match_at(t, p@, k));
            assert(match_at(s@, p@, from + k));
        }
    }
    None
}

/// `str::split_once` with a string pattern.
pub open spec fn split_once_str(s: Seq<char>, p: Seq<char>) -> Option<(Seq<char>, Seq<char>)> {
    match find_str(s, p) {
        Some(i) => Some((s.take(i), s.skip(i + p.len()))),
        None => None,
    }
}

/// `str::split_once` with a string pattern, on characters.
pub fn split_once_str_chars(s: &[char], p: &[char]) -> (r: Option<(Vec<char>, Vec<char>)>)
    ensures
        match r {
            Some((a, b)) => split_once_str(s@, p@) == Some((a@, b@)),
            None => split_once_str(s@, p@) is None,
        },
{
    assert(s@.skip(0) =~= s@);
    let found = find_str_from(s, p, 0);
    match found {
        Some(i) => {
            assert(i + p.len() <= s.len());
            let a = slice_chars(s, 0, i);
            let b = slice_chars(s, i + p.len(), s.len());
            assert(a@ =~= s@.take(i as int));
            assert(b@ =~= s@.skip(i + p@.len()));
            Some((a, b))
        },
        None => None,
    }
}

/// `str::split` with a non-empty string pattern.
pub open spec fn split_str(s: Seq<char>, p: Seq<char>) -> Seq<Seq<char>>
    decreases s.len(),
{
    if p.len() == 0 {
        seq![s]
    } else {
        match find_str(s, p) {
            Some(i) => {
                if 0 <= i && i + p.len() <= s.len() {
                    seq![s.take(i)] + split_str(s.skip(i + p.len()), p)
                } else {
                    Seq::empty()
                }
            },
            None => seq![s],
        }
    }
}

/// `str::split` with a non-empty string pattern, on characters.
pub fn split_str_of(s: &[char], p: &[char]) -> (r: Vec<Vec<char>>)
    requires
        p@.len() > 0,
    ensures
        views(r@) == split_str(s@, p@),
{
    let mut r: Vec<Vec<char>> = Vec::new();
    let mut pos: usize = 0;
    assert(s@.skip(0) =~= s@);
    assert(views(r@) =~= Seq::<Seq<char>>::empty());
    loop
        invariant
            pos <= s@.len(),
            p@.len() > 0,
            split_str(s@, p@) == views(r@) + split_str(s@.skip(pos as int), p@),
        decreases s.len() - pos,
    {
        let ghost t = s@.skip(pos as int);
        let found = find_str_from(s, p, pos);
        match found {
            Some(j) => {
                assert(j + p.len() <= s.len());
                let piece = slice_chars(s, pos, j);
                assert(piece@ =~= t.take(j - pos));
                assert(t.skip(j - pos + p@.len()) =~= s@.skip(j + p@.len()));
                let ghost old_r = r@;
                r.push(piece);
                assert(views(r@) =~= views(old_r) + seq![piece@]);
                pos = j + p.len();
            },
            None => {
                let piece = slice_chars(s, pos, s.len());
                assert(piece@ =~= t);
                let ghost old_r = r@;
                r.push(piece);
                assert(views(r@) =~= views(old_r) + seq![piece@]);
                return r;
            },
        }
    }
}

/// `str::trim_start_matches` with a string pattern: drops every leading copy of `p`.
pub open spec fn trim_start_str(s: Seq<char>, p: Seq<char>) -> Seq<char>
    decreases s.len(),
{
    if p.len() > 0 && starts_with(s, p) {
        trim_start_str(s.skip(p.len() as int), p)
    } else {
        s
    }
}

/// `str::trim_start_matches` with a string pattern, on characters.
pub fn trim_start_str_chars(s: &[char], p: &[char]) -> (r: Vec<char>)
    ensures
        r@ == trim_start_str(s@, p@),
{
    let mut i: usize = 0;
    assert(s@.skip(0) =~= s@);
    while p.len() > 0 && match_at_chars(s, p, i)
        invariant
            i <= s@.len(),
            trim_start_str(s@, p@) == trim_start_str(s@.skip(i as int), p@),
        decreases s@.len() - i,
    {
        assert(s@.skip(i as int).take(p@.len() as int) =~= s@.subrange(i as int, i + p@.len()));
        assert(s@.skip(i as int).skip(p@.len() as int) =~= s@.skip(i + p@.len()));
        assert(i + p.len() <= s.len());
        i = i + p.len();
    }
    proof {
        if p@.len() > 0 && starts_with(s@.skip(i as int), p@) {
            assert(s@.skip(i as int).take(p@.len() as int) =~= s@.subrange(
                i as int,
                i + p@.len(),
            ));
        }
    }
    slice_chars(s, i, s.len())
}

// ---------------------------------------------------------------------------
// First and last matches in a sequence
// ---------------------------------------------------------------------------

/// `Iterator::find_map`: the first `Some` that `f` gives on the elements of `s`.
pub open spec fn first_some<A, B>(s: Seq<A>, f: spec_fn(A) -> Option<B>) -> Option<B>
    decreases s.len(),
{
    if s.len() == 0 {
        None
    } else {
        match f(s[0]) {
            Some(b) => Some(b),
            None => first_some(s.drop_first(), f),
        }
    }
}

pub proof fn lemma_first_some_step<A, B>(s: Seq<A>, f: spec_fn(A) -> Option<B>, i: int)
    requires
        0 <= i < s.len(),
    ensures
        first_some(s.skip(i), f) == match f(s[i]) {
            Some(b) => Some(b),
            None => first_some(s.skip(i + 1), f),
        },
{
    assert(s.skip(i)[0] == s[i]);
    assert(s.skip(i).drop_first() =~= s.skip(i + 1));
}

pub proof fn lemma_first_some_end<A, B>(s: Seq<A>, f: spec_fn(A) -> Option<B>)
    ensures
        first_some(s.skip(s.len() as int), f) is None,
{
    assert(s.skip(s.len() as int) =~= Seq::<A>::empty());
}

/// `first_some` gives nothing where `f` gives nothing on every element.
pub proof fn lemma_first_some_none<A, B>(s: Seq<A>, f: spec_fn(A) -> Option<B>)
    requires
        forall|i: int| 0 <= i < s.len() ==> f(#[trigger] s[i]) is None,
    ensures
        first_some(s, f) is None,
    decreases s.len(),
{
    if s.len() > 0 {
        assert forall|i: int| 0 <= i < s.drop_first().len() implies f(
            #[trigger] s.drop_first()[i],
        ) is None by {
            assert(s.drop_first()[i] == s[i + 1]);
        }
        lemma_first_some_none(s.drop_first(), f);
        assert(f(s[0]) is None);
    }
}

/// Where `f` gives nothing before the element at `k` and something on it,
/// `first_some` gives that.
pub proof fn lemma_first_some_at<A, B>(s: Seq<A>, f: spec_fn(A) -> Option<B>, k: int)
    requires
        0 <= k < s.len(),
        f(s[k]) is Some,
        forall|j: int| 0 <= j < k ==> f(#[trigger] s[j]) is None,
    ensures
        first_some(s, f) == f(s[k]),
    decreases k,
{
    if k > 0 {
        let t = s.drop_first();
        assert(f(s[0]) is None);
        assert(t[k - 1] == s[k]);
        assert forall|j: int| 0 <= j < k - 1 implies f(#[trigger] t[j]) is None by {
            assert(t[j] == s[j + 1]);
        }
        lemma_first_some_at(t, f, k - 1);
    }
}

/// What `first_some` gives is what `f` gives on some element, before which
/// `f` gives nothing; when it gives nothing, `f` gives nothing anywhere.
pub proof fn lemma_first_some_found<A, B>(s: Seq<A>, f: spec_fn(A) -> Option<B>)
    ensures
        match first_some(s, f) {
            Some(b) => exists|i: int|
                0 <= i < s.len() && f(#[trigger] s[i]) == Some(b) && forall|j: int|
                    0 <= j < i ==> f(#[trigger] s[j]) is None,
            None => forall|i: int| 0 <= i < s.len() ==> f(#[trigger] s[i]) is None,
        },
    decreases s.len(),
{
    if s.len() > 0 {
        let t = s.drop_first();
        lemma_first_some_found(t, f);
        match f(s[0]) {
            Some(b) => {
                assert(f(s[0]) == Some(b));
            },
            None => match first_some(t, f) {
                Some(b) => {
                    let i = choose|i: int|
                        0 <= i < t.len() && f(#[trigger] t[i]) == Some(b) && forall|j: int|
                            0 <= j < i ==> f(#[trigger] t[j]) is None;
                    assert(s[i + 1] == t[i]);
                    assert forall|j: int| 0 <= j < i + 1 implies f(#[trigger] s[j]) is None by {
                        if j > 0 {
                            assert(s[j] == t[j - 1]);
                        }
                    }
                },
                None => {
                    assert forall|i: int| 0 <= i < s.len() implies f(#[trigger] s[i]) is None by {
                        if i > 0 {
                            assert(s[i] == t[i - 1]);
                        }
                    }
                },
            },
        }
    }
}

/// The last `Some` that `f` gives on the elements of `s`.
pub open spec fn last_some<A, B>(s: Seq<A>, f: spec_fn(A) -> Option<B>) -> Option<B>
    decreases s.len(),
{
    if s.len() == 0 {
        None
    } else {
        match f(s.last()) {
            Some(b) => Some(b),
            None => last_some(s.drop_last(), f),
        }
    }
}

pub proof fn lemma_last_some_step<A, B>(s: Seq<A>, f: spec_fn(A) -> Option<B>, i: int)
    requires
        0 <= i < s.len(),
    ensures
        last_some(s.take(i + 1), f) == match f(s[i]) {
            Some(b) => Some(b),
            None => last_some(s.take(i), f),
        },
{
    assert(s.take(i + 1).drop_last() =~= s.take(i));
    assert(s.take(i + 1).last() == s[i]);
}

/// An element on which `f` gives nothing changes no `last_some`, wherever it
/// is inserted.
pub proof fn lemma_last_some_insert_none<A, B>(s: Seq<A>, k: int, x: A, f: spec_fn(A) -> Option<B>)
    requires
        0 <= k <= s.len(),
        f(x) is None,
    ensures
        last_some(s.insert(k, x), f) == last_some(s, f),
    decreases s.len(),
{
    let t = s.insert(k, x);
    if k == s.len() {
        assert(t.drop_last() =~= s);
    } else {
        assert(t.last() == s.last());
        assert(t.drop_last() =~= s.drop_last().insert(k, x));
        lemma_last_some_insert_none(s.drop_last(), k, x, f);
    }
}

/// `last_some` gives nothing where `f` gives nothing on every element.
pub proof fn lemma_last_some_none<A, B>(s: Seq<A>, f: spec_fn(A) -> Option<B>)
    requires
        forall|i: int| 0 <= i < s.len() ==> f(#[trigger] s[i]) is None,
    ensures
        last_some(s, f) is None,
    decreases s.len(),
{
    if s.len() > 0 {
        assert(f(s[s.len() - 1]) is None);
        assert forall|i: int| 0 <= i < s.drop_last().len() implies f(
            #[trigger] s.drop_last()[i],
        ) is None by {
            assert(s.drop_last()[i] == s[i]);
        }
        lemma_last_some_none(s.drop_last(), f);
    }
}

/// Each element of `s.filter_map(f)` is what `f` gives on some element of `s`.
pub proof fn lemma_filter_map_from<A, B>(s: Seq<A>, f: spec_fn(A) -> Option<B>, k: int)
    requires
        0 <= k < s.filter_map(f).len(),
    ensures
        exists|i: int| 0 <= i < s.len() && f(#[trigger] s[i]) == Some(s.filter_map(f)[k]),
    decreases s.len(),
{
    let t = s.drop_last();
    match f(s.last()) {
        Some(b) => {
            if k == t.filter_map(f).len() {
                assert(f(s[s.len() - 1]) == Some(s.filter_map(f)[k]));
            } else {
                lemma_filter_map_from(t, f, k);
                let i = choose|i: int| 0 <= i < t.len() && f(#[trigger] t[i]) == Some(t.filter_map(f)[k]);
                assert(s[i] == t[i]);
            }
        },
        None => {
            lemma_filter_map_from(t, f, k);
            let i = choose|i: int| 0 <= i < t.len() && f(#[trigger] t[i]) == Some(t.filter_map(f)[k]);
            assert(s[i] == t[i]);
        },
    }
}

/// What `last_some` gives is what `f` gives on some element, after which `f`
/// gives nothing; when it gives nothing, `f` gives nothing anywhere.
pub proof fn lemma_last_some_found<A, B>(s: Seq<A>, f: spec_fn(A) -> Option<B>)
    ensures
        match last_some(s, f) {
            Some(b) => exists|i: int|
                0 <= i < s.len() && f(#[trigger] s[i]) == Some(b) && forall|j: int|
                    i < j < s.len() ==> f(#[trigger] s[j]) is None,
            None => forall|i: int| 0 <= i < s.len() ==> f(#[trigger] s[i]) is None,
        },
    decreases s.len(),
{
    if s.len() > 0 {
        let t = s.drop_last();
        lemma_last_some_found(t, f);
        match f(s.last()) {
            Some(b) => {
                assert(f(s[s.len() - 1]) == Some(b));
            },
            None => match last_some(t, f) {
                Some(b) => {
                    let i = choose|i: int|
                        0 <= i < t.len() && f(#[trigger] t[i]) == Some(b) && forall|j: int|
                            i < j < t.len() ==> f(#[trigger] t[j]) is None;
                    assert(s[i] == t[i]);
                    assert forall|j: int| i < j < s.len() implies f(#[trigger] s[j]) is None by {
                        if j < s.len() - 1 {
                            assert(s[j] == t[j]);
                        }
                    }
                },
                None => {
                    assert forall|i: int| 0 <= i < s.len() implies f(#[trigger] s[i]) is None by {
                        if i < s.len() - 1 {
                            assert(s[i] == t[i]);
                        }
                    }
                },
            },
        }
    }
}

pub proof fn lemma_filter_map_step<A, B>(s: Seq<A>, f: spec_fn(A) -> Option<B>, i: int)
    requires
        0 <= i < s.len(),
    ensures
        s.take(i + 1).filter_map(f) == match f(s[i]) {
            Some(b) => s.take(i).filter_map(f) + seq![b],
            None => s.take(i).filter_map(f),
        },
{
    assert(s.take(i + 1).drop_last() =~= s.take(i));
    assert(s.take(i + 1).last() == s[i]);
}

pub proof fn lemma_take_all<A>(s: Seq<A>)
    ensures
        s.take(s.len() as int) == s,
        s.skip(0) == s,
        s.take(0) == Seq::<A>::empty(),
{
    assert(s.take(s.len() as int) =~= s);
    assert(s.skip(0) =~= s);
    assert(s.take(0) =~= Seq::<A>::empty());
}


// ---------------------------------------------------------------------------
// Order of strings and sets of strings
// ---------------------------------------------------------------------------

/// The order of `str` and `String`: lexicographic over the characters, each
/// compared by its code point (which is also the order of their UTF-8 bytes).
pub open spec fn lex_lt(a: Seq<char>, b: Seq<char>) -> bool
    decreases a.len(),
{
    if a.len() == 0 {
        b.len() > 0
    } else if b.len() == 0 {
        false
    } else if a[0] < b[0] {
        true
    } else if a[0] == b[0] {
        lex_lt(a.drop_first(), b.drop_first())
    } else {
        false
    }
}

pub proof fn lemma_lex_irreflexive(a: Seq<char>)
    ensures
        !lex_lt(a, a),
    decreases a.len(),
{
    if a.len() > 0 {
        lemma_lex_irreflexive(a.drop_first());
    }
}

pub proof fn lemma_lex_total(a: Seq<char>, b: Seq<char>)
    ensures
        a != b ==> (lex_lt(a, b) || lex_lt(b, a)),
        !(lex_lt(a, b) && lex_lt(b, a)),
    decreases a.len(),
{
    if a.len() > 0 && b.len() > 0 {
        lemma_lex_total(a.drop_first(), b.drop_first());
        if a[0] == b[0] && a.drop_first() == b.drop_first() {
            assert(a =~= seq![a[0]] + a.drop_first());
            assert(b =~= seq![b[0]] + b.drop_first());
        }
    } else if a.len() == 0 && b.len() == 0 {
        assert(a =~= b);
    }
}

pub proof fn lemma_lex_transitive(a: Seq<char>, b: Seq<char>, c: Seq<char>)
    requires
        lex_lt(a, b),
        lex_lt(b, c),
    ensures
        lex_lt(a, c),
    decreases a.len(),
{
    if a.len() > 0 && b.len() > 0 && c.len() > 0 {
        if a[0] == b[0] && b[0] == c[0] {
            lemma_lex_transitive(a.drop_first(), b.drop_first(), c.drop_first());
        }
    }
}

/// `str` comparison `a < b` on characters.
pub fn lex_lt_chars(a: &[char], b: &[char]) -> (r: bool)
    ensures
        r == lex_lt(a@, b@),
{
    let mut i: usize = 0;
    assert(a@.skip(0) =~= a@);
    assert(b@.skip(0) =~= b@);
    loop
        invariant
            i <= a@.len(),
            i <= b@.len(),
            lex_lt(a@, b@) == lex_lt(a@.skip(i as int), b@.skip(i as int)),
        decreases a@.len() - i,
    {
        if i == a.len() {
            return i < b.len();
        }
        if i == b.len() {
            return false;
        }
        if a[i] < b[i] {
            return true;
        }
        if a[i] != b[i] {
            return false;
        }
        assert(a@.skip(i as int).drop_first() =~= a@.skip(i + 1));
        assert(b@.skip(i as int).drop_first() =~= b@.skip(i + 1));
        i = i + 1;
    }
}

/// Whether `s` is strictly increasing in the order of strings.
pub open spec fn strictly_sorted(s: Seq<Seq<char>>) -> bool {
    forall|i: int, j: int| 0 <= i < j < s.len() ==> lex_lt(s[i], s[j])
}

/// A strictly increasing sequence of strings holds no string twice.
pub proof fn lemma_strictly_sorted_no_duplicates(s: Seq<Seq<char>>)
    requires
        strictly_sorted(s),
    ensures
        s.no_duplicates(),
{
    assert forall|i: int, j: int| 0 <= i < s.len() && 0 <= j < s.len() && i != j implies s[i]
        != s[j] by {
        if i < j {
            lemma_lex_irreflexive(s[i]);
        } else {
            lemma_lex_irreflexive(s[j]);
        }
    }
}

/// Inserts `x` into the strictly increasing `r`, unless it is there already.
pub fn insert_sorted_unique(r: &mut Vec<Vec<char>>, x: Vec<char>)
    requires
        strictly_sorted(views(old(r)@)),
    ensures
        strictly_sorted(views(final(r)@)),
        views(final(r)@).to_set() == views(old(r)@).to_set().insert(x@),
{
    let ghost old_v = views(r@);
    let mut p: usize = 0;
    while p < r.len() && lex_lt_chars(r[p].as_slice(), x.as_slice())
        invariant
            p <= r@.len(),
            old_v == views(r@),
            strictly_sorted(old_v),
            forall|j: int| 0 <= j < p ==> lex_lt(old_v[j], x@),
        decreases r.len() - p,
    {
        p = p + 1;
    }
    if p < r.len() && eq_chars(r[p].as_slice(), x.as_slice()) {
        assert(old_v[p as int] == x@);
        assert(old_v.to_set().insert(x@) =~= old_v.to_set());
        return;
    }
    let ghost xv = x@;
    proof {
        if p < old_v.len() {
            lemma_lex_total(old_v[p as int], xv);
            assert forall|j: int| p <= j < old_v.len() implies lex_lt(xv, old_v[j]) by {
                if j > p {
                    lemma_lex_transitive(xv, old_v[p as int], old_v[j]);
                }
            }
        }
    }
    r.insert(p, x);
    proof {
        let nv = views(r@);
        assert(nv =~= old_v.insert(p as int, xv));
        assert forall|i: int, j: int| 0 <= i < j < nv.len() implies lex_lt(nv[i], nv[j]) by {
            if j < p {
            } else if j == p {
            } else if i < p {
                lemma_lex_transitive(nv[i], xv, nv[j]);
            } else if i == p {
            } else {
            }
        }
        assert forall|y: Seq<char>| nv.to_set().contains(y) <==> old_v.to_set().insert(xv).contains(
            y,
        ) by {
            if nv.contains(y) {
                let k = choose|k: int| 0 <= k < nv.len() && nv[k] == y;
                if k < p {
                    assert(old_v[k] == y);
                } else if k > p {
                    assert(old_v[k - 1] == y);
                }
            }
            if old_v.contains(y) {
                let k = choose|k: int| 0 <= k < old_v.len() && old_v[k] == y;
                if k < p {
                    assert(nv[k] == y);
                } else {
                    assert(nv[k + 1] == y);
                }
            }
            if y == xv {
                assert(nv[p as int] == y);
            }
        }
        assert(nv.to_set() =~= old_v.to_set().insert(xv));
    }
}

/// Appends `x` to `r` unless it is there already.
pub fn push_unique(r: &mut Vec<Vec<char>>, x: Vec<char>)
    requires
        views(old(r)@).no_duplicates(),
    ensures
        views(final(r)@).no_duplicates(),
        views(final(r)@).to_set() == views(old(r)@).to_set().insert(x@),
{
    let ghost old_v = views(r@);
    let mut i: usize = 0;
    while i < r.len()
        invariant
            i <= r@.len(),
            old_v == views(r@),
            old_v.no_duplicates(),
            forall|j: int| 0 <= j < i ==> old_v[j] != x@,
        decreases r.len() - i,
    {
        if eq_chars(r[i].as_slice(), x.as_slice()) {
            assert(old_v[i as int] == x@);
            assert(old_v.to_set().insert(x@) =~= old_v.to_set());
            return;
        }
        i = i + 1;
    }
    let ghost xv = x@;
    r.push(x);
    proof {
        let nv = views(r@);
        assert(nv =~= old_v.push(xv));
        assert forall|y: Seq<char>| nv.to_set().contains(y) <==> old_v.to_set().insert(xv).contains(
            y,
        ) by {
            if nv.contains(y) {
                let k = choose|k: int| 0 <= k < nv.len() && nv[k] == y;
                if k < old_v.len() {
                    assert(old_v[k] == y);
                }
            }
            if old_v.contains(y) {
                let k = choose|k: int| 0 <= k < old_v.len() && old_v[k] == y;
                assert(nv[k] == y);
            }
            if y == xv {
                assert(nv[old_v.len() as int] == y);
            }
        }
        assert(nv.to_set() =~= old_v.to_set().insert(xv));
    }
}


// ---------------------------------------------------------------------------
// Small derived operations
// ---------------------------------------------------------------------------

/// What comes before the first `c` in `s` (all of `s` when there is none): the
/// first piece of `str::split(c)`.
pub open spec fn before_first(s: Seq<char>, c: char) -> Seq<char> {
    match split_once(s, c) {
        Some((a, _)) => a,
        None => s,
    }
}

pub fn before_first_chars(s: &[char], c: char) -> (r: Vec<char>)
    ensures
        r@ == before_first(s@, c),
{
    match split_once_chars(s, c) {
        Some((a, _)) => a,
        None => slice_chars(s, 0, s.len()),
    }
}

/// The index of the first element of `s` equal to `x`.
pub open spec fn position_of<A>(s: Seq<A>, x: A) -> Option<int>
    decreases s.len(),
{
    if s.len() == 0 {
        None
    } else if s[0] == x {
        Some(0)
    } else {
        match position_of(s.drop_first(), x) {
            Some(i) => Some(i + 1),
            None => None,
        }
    }
}

pub proof fn lemma_position_of<A>(s: Seq<A>, x: A)
    ensures
        match position_of(s, x) {
            Some(i) => 0 <= i < s.len() && s[i] == x && forall|j: int| 0 <= j < i ==> s[j] != x,
            None => forall|j: int| 0 <= j < s.len() ==> s[j] != x,
        },
    decreases s.len(),
{
    if s.len() > 0 && s[0] != x {
        lemma_position_of(s.drop_first(), x);
        assert forall|j: int| 0 < j < s.len() implies s[j] == s.drop_first()[j - 1] by {}
    }
}

/// The index of the first word of `ws` that equals `w`.
pub fn position_of_word(ws: &Vec<Vec<char>>, w: &str) -> (r: Option<usize>)
    ensures
        match r {
            Some(i) => position_of(views(ws@), w@) == Some(i as int),
            None => position_of(views(ws@), w@) is None,
        },
{
    let ghost v = views(ws@);
    proof {
        lemma_position_of(v, w@);
    }
    let mut i: usize = 0;
    while i < ws.len()
        invariant
            i <= ws@.len(),
            v == views(ws@),
            match position_of(v, w@) {
                Some(k) => 0 <= k < v.len() && v[k] == w@ && forall|j: int| 0 <= j < k ==> v[j] != w@,
                None => forall|j: int| 0 <= j < v.len() ==> v[j] != w@,
            },
            forall|j: int| 0 <= j < i ==> v[j] != w@,
        decreases ws.len() - i,
    {
        if eq_str(ws[i].as_slice(), w) {
            assert(v[i as int] == w@);
            return Some(i);
        }
        i = i + 1;
    }
    None
}


pub proof fn lemma_words_nonempty(s: Seq<char>)
    ensures
        forall|i: int| 0 <= i < words(s).len() ==> (#[trigger] words(s)[i]).len() > 0,
    decreases s.len(),
{
    let t = trim_start(s);
    let k = lemma_trim_start(s);
    if t.len() > 0 {
        lemma_word_len(t);
        let n = word_len(t);
        lemma_words_nonempty(t.skip(n as int));
        assert forall|i: int| 0 <= i < words(s).len() implies (#[trigger] words(s)[i]).len() > 0 by {
            if i > 0 {
                assert(words(s)[i] == words(t.skip(n as int))[i - 1]);
            }
        }
    }
}


/// The strings for a sequence of character vectors.
pub fn strings_of(v: &[Vec<char>]) -> (r: Vec<String>)
    ensures
        string_views(r@) == views(v@),
{
    let mut r: Vec<String> = Vec::new();
    let mut i: usize = 0;
    while i < v.len()
        invariant
            i <= v@.len(),
            string_views(r@) == views(v@.take(i as int)),
        decreases v.len() - i,
    {
        let ghost old_r = r@;
        let x = string_of(v[i].as_slice());
        r.push(x);
        assert(string_views(r@) =~= string_views(old_r) + seq![x@]);
        assert(views(v@.take(i + 1)) =~= views(v@.take(i as int)) + seq![v@[i as int]@]);
        assert(string_views(r@) =~= views(v@.take(i + 1)));
        i = i + 1;
    }
    assert(v@.take(i as int) =~= v@);
    r
}

pub proof fn lemma_split_nonempty(s: Seq<char>, c: char)
    ensures
        split(s, c).len() >= 1,
    decreases s.len(),
{
    lemma_find_char(s, c);
    if let Some(i) = find_char(s, c) {
        lemma_split_nonempty(s.skip(i + 1), c);
    }
}

pub proof fn lemma_split_str_nonempty(s: Seq<char>, p: Seq<char>)
    ensures
        split_str(s, p).len() >= 1,
    decreases s.len(),
{
    lemma_find_str(s, p);
    if p.len() > 0 {
        if let Some(i) = find_str(s, p) {
            lemma_split_str_nonempty(s.skip(i + p.len()), p);
        }
    }
}


/// Copies `v[a..b]` (vectors of characters) into a new vector.
pub fn slice_vecs(v: &[Vec<char>], a: usize, b: usize) -> (r: Vec<Vec<char>>)
    requires
        a <= b <= v@.len(),
    ensures
        views(r@) == views(v@).subrange(a as int, b as int),
{
    let mut r: Vec<Vec<char>> = Vec::new();
    let mut i = a;
    while i < b
        invariant
            a <= i <= b <= v@.len(),
            views(r@) == views(v@).subrange(a as int, i as int),
        decreases b - i,
    {
        let x = slice_chars(v[i].as_slice(), 0, v[i].len());
        assert(x@ =~= v@[i as int]@);
        let ghost old_r = r@;
        r.push(x);
        assert(views(r@) =~= views(old_r) + seq![x@]);
        assert(views(v@).subrange(a as int, i + 1) =~= views(v@).subrange(a as int, i as int) + seq![v@[i as int]@]);
        assert(views(r@) =~= views(v@).subrange(a as int, i + 1));
        i = i + 1;
    }
    r
}


/// The view of an optional string.
pub open spec fn opt_view(o: Option<String>) -> Option<Seq<char>> {
    match o {
        Some(s) => Some(s@),
        None => None,
    }
}

/// The view of an optional vector of characters.
pub open spec fn opt_chars_view(o: Option<Vec<char>>) -> Option<Seq<char>> {
    match o {
        Some(s) => Some(s@),
        None => None,
    }
}

/// The optional string for an optional vector of characters.
pub fn opt_string_of(o: Option<Vec<char>>) -> (r: Option<String>)
    ensures
        opt_view(r) == opt_chars_view(o),
{
    match o {
        Some(v) => Some(string_of(v.as_slice())),
        None => None,
    }
}

/// The concatenation of two character slices.
pub fn concat_chars(a: &[char], b: &[char]) -> (r: Vec<char>)
    ensures
        r@ == a@ + b@,
{
    let mut r = slice_chars(a, 0, a.len());
    let mut i: usize = 0;
    while i < b.len()
        invariant
            i <= b@.len(),
            r@ == a@ + b@.take(i as int),
        decreases b.len() - i,
    {
        r.push(b[i]);
        assert(a@ + b@.take(i + 1) =~= (a@ + b@.take(i as int)).push(b@[i as int]));
        i = i + 1;
    }
    assert(b@.take(i as int) =~= b@);
    assert(a@.subrange(0, a@.len() as int) =~= a@);
    r
}


/// The value on a `{key}:{value}` line when its key, trimmed, is `key`: the
/// text after the first `:`, trimmed.
pub open spec fn key_field(l: Seq<char>, key: Seq<char>) -> Option<Seq<char>> {
    match split_once(l, ':') {
        Some((k, v)) => if trim(k) == key {
            Some(trim(v))
        } else {
            None
        },
        None => None,
    }
}

pub fn key_field_of(l: &[char], key: &str) -> (r: Option<Vec<char>>)
    ensures
        opt_chars_view(r) == key_field(l@, key@),
{
    match split_once_chars(l, ':') {
        Some((k, v)) => {
            let kt = trim_chars(k.as_slice());
            if eq_str(kt.as_slice(), key) {
                Some(trim_chars(v.as_slice()))
            } else {
                None
            }
        },
        None => None,
    }
}

/// The values of `key` on the `{key}:{value}` lines of `s`, in order.
pub open spec fn key_values(s: Seq<char>, key: Seq<char>) -> Seq<Seq<char>> {
    lines(s).filter_map(|l: Seq<char>| key_field(l, key))
}

/// The value of `key` on the first `{key}:{value}` line of `s`.
pub open spec fn first_key_value(s: Seq<char>, key: Seq<char>) -> Option<Seq<char>> {
    first_some(lines(s), |l: Seq<char>| key_field(l, key))
}

/// The values of `key` on the `{key}:{value}` lines of the text whose lines are `ls`.
pub fn key_values_of(ls: &Vec<Vec<char>>, key: &str) -> (r: Vec<Vec<char>>)
    ensures
        views(r@) == views(ls@).filter_map(|l: Seq<char>| key_field(l, key@)),
{
    let ghost lv = views(ls@);
    let ghost f = |l: Seq<char>| key_field(l, key@);
    let mut r: Vec<Vec<char>> = Vec::new();
    let mut i: usize = 0;
    proof {
        lemma_take_all(lv);
    }
    assert(views(r@) =~= Seq::<Seq<char>>::empty());
    while i < ls.len()
        invariant
            i <= ls@.len(),
            lv == views(ls@),
            f == (|l: Seq<char>| key_field(l, key@)),
            views(r@) == lv.take(i as int).filter_map(f),
        decreases ls.len() - i,
    {
        assert(ls@[i as int]@ == lv[i as int]);
        proof {
            lemma_filter_map_step(lv, f, i as int);
        }
        match key_field_of(ls[i].as_slice(), key) {
            Some(v) => {
                let ghost old_r = r@;
                r.push(v);
                assert(views(r@) =~= views(old_r) + seq![v@]);
            },
            None => {},
        }
        i = i + 1;
    }
    proof {
        lemma_take_all(lv);
    }
    r
}

/// The value of `key` on the first `{key}:{value}` line of the text whose lines are `ls`.
pub fn first_key_value_of(ls: &Vec<Vec<char>>, key: &str) -> (r: Option<Vec<char>>)
    ensures
        opt_chars_view(r) == first_some(views(ls@), |l: Seq<char>| key_field(l, key@)),
{
    let ghost lv = views(ls@);
    let ghost f = |l: Seq<char>| key_field(l, key@);
    let mut i: usize = 0;
    proof {
        lemma_take_all(lv);
    }
    while i < ls.len()
        invariant
            i <= ls@.len(),
            lv == views(ls@),
            f == (|l: Seq<char>| key_field(l, key@)),
            first_some(lv, f) == first_some(lv.skip(i as int), f),
        decreases ls.len() - i,
    {
        assert(ls@[i as int]@ == lv[i as int]);
        proof {
            lemma_first_some_step(lv, f, i as int);
        }
        let e = key_field_of(ls[i].as_slice(), key);
        if e.is_some() {
            return e;
        }
        i = i + 1;
    }
    proof {
        lemma_first_some_end(lv, f);
    }
    None
}

pub proof fn lemma_to_set_push<A>(s: Seq<A>, x: A)
    ensures
        (s + seq![x]).to_set() == s.to_set().insert(x),
{
    let t = s + seq![x];
    assert forall|y: A| t.to_set().contains(y) <==> s.to_set().insert(x).contains(y) by {
        if t.contains(y) {
            let k = choose|k: int| 0 <= k < t.len() && t[k] == y;
            if k < s.len() {
                assert(s[k] == y);
            }
        }
        if s.contains(y) {
            let k = choose|k: int| 0 <= k < s.len() && s[k] == y;
            assert(t[k] == y);
        }
        if y == x {
            assert(t[s.len() as int] == y);
        }
    }
    assert(t.to_set() =~= s.to_set().insert(x));
}


pub proof fn lemma_filter_step<A>(s: Seq<A>, p: spec_fn(A) -> bool, i: int)
    requires
        0 <= i < s.len(),
    ensures
        s.take(i + 1).filter(p) == if p(s[i]) {
            s.take(i).filter(p).push(s[i])
        } else {
            s.take(i).filter(p)
        },
{
    reveal(Seq::filter);
    assert(s.take(i + 1).drop_last() =~= s.take(i));
    assert(s.take(i + 1).last() == s[i]);
}

pub proof fn lemma_filter_empty<A>(s: Seq<A>, p: spec_fn(A) -> bool)
    ensures
        s.take(0).filter(p) == Seq::<A>::empty(),
{
    reveal(Seq::filter);
    assert(s.take(0) =~= Seq::<A>::empty());
}

} // verus!
