//! Character-level helpers shared by the parsers and rewriters.
//!
//! Everything here works on the characters of a string (`Seq<char>` in
//! specifications, `&[char]` / `Vec<char>` in code); `String` values are
//! only built at the edges of the public functions.

use vstd::prelude::*;

verus! {

// ─── Building and reading strings ───────────────────────────────────────────

/// Appends one character to a `String` (std `String::push`).
#[verifier::external_body]
fn push_char(s: &mut String, c: char)
    ensures
        final(s)@ == old(s)@.push(c),
{
    s.push(c);
}

/// The characters of a string slice, in order.
pub fn chars_of(s: &str) -> (v: Vec<char>)
    ensures
        v@ == s@,
{
    let mut v: Vec<char> = Vec::new();
    for c in it: s.chars()
        invariant
            v@ == it.seq().take(it.index()),
    {
        v.push(c);
    }
    v
}

/// Builds a `String` holding exactly the given characters.
pub fn string_of(cs: &[char]) -> (s: String)
    ensures
        s@ == cs@,
{
    let mut s = String::new();
    let n = cs.len();
    for i in 0..n
        invariant
            n == cs@.len(),
            s@ == cs@.take(i as int),
    {
        push_char(&mut s, cs[i]);
        assert(cs@.take(i + 1) == cs@.take(i as int).push(cs@[i as int]));
    }
    assert(cs@.take(n as int) == cs@);
    s
}

/// Appends a slice of characters to a vector.
pub fn push_all(out: &mut Vec<char>, cs: &[char])
    ensures
        final(out)@ == old(out)@ + cs@,
{
    let n = cs.len();
    for i in 0..n
        invariant
            n == cs@.len(),
            out@ == old(out)@ + cs@.take(i as int),
    {
        out.push(cs[i]);
        assert(cs@.take(i + 1) == cs@.take(i as int).push(cs@[i as int]));
    }
    assert(cs@.take(n as int) == cs@);
}

/// Appends the characters of a string slice to a vector.
pub fn push_str(out: &mut Vec<char>, s: &str)
    ensures
        final(out)@ == old(out)@ + s@,
{
    let cs = chars_of(s);
    push_all(out, cs.as_slice());
}

// ─── Whitespace and trimming ────────────────────────────────────────────────

/// Unicode `White_Space`, the property behind `char::is_whitespace`
/// and the `\s` class of regular expressions.
pub open spec fn is_ws(c: char) -> bool {
    ||| ('\u{9}' <= c && c <= '\u{d}')
    ||| c == ' '
    ||| c == '\u{85}'
    ||| c == '\u{a0}'
    ||| c == '\u{1680}'
    ||| ('\u{2000}' <= c && c <= '\u{200a}')
    ||| c == '\u{2028}'
    ||| c == '\u{2029}'
    ||| c == '\u{202f}'
    ||| c == '\u{205f}'
    ||| c == '\u{3000}'
}

pub fn is_whitespace(c: char) -> (b: bool)
    ensures
        b == is_ws(c),
{
    ('\u{9}' <= c && c <= '\u{d}') || c == ' ' || c == '\u{85}' || c == '\u{a0}'
        || c == '\u{1680}' || ('\u{2000}' <= c && c <= '\u{200a}') || c == '\u{2028}'
        || c == '\u{2029}' || c == '\u{202f}' || c == '\u{205f}' || c == '\u{3000}'
}

/// `s` without its leading whitespace.
pub open spec fn trim_start(s: Seq<char>) -> Seq<char>
    decreases s.len(),
{
    if s.len() > 0 && is_ws(s[0]) {
        trim_start(s.drop_first())
    } else {
        s
    }
}

/// `s` without its trailing whitespace.
pub open spec fn trim_end(s: Seq<char>) -> Seq<char>
    decreases s.len(),
{
    if s.len() > 0 && is_ws(s.last()) {
        trim_end(s.drop_last())
    } else {
        s
    }
}

/// `s` without leading and trailing whitespace (`str::trim`).
pub open spec fn trim(s: Seq<char>) -> Seq<char> {
    trim_end(trim_start(s))
}

/// `s` without any leading or trailing occurrence of `c` (`str::trim_matches`).
pub open spec fn strip_char(s: Seq<char>, c: char) -> Seq<char> {
    strip_char_end(strip_char_start(s, c), c)
}

pub open spec fn strip_char_start(s: Seq<char>, c: char) -> Seq<char>
    decreases s.len(),
{
    if s.len() > 0 && s[0] == c {
        strip_char_start(s.drop_first(), c)
    } else {
        s
    }
}

pub open spec fn strip_char_end(s: Seq<char>, c: char) -> Seq<char>
    decreases s.len(),
{
    if s.len() > 0 && s.last() == c {
        strip_char_end(s.drop_last(), c)
    } else {
        s
    }
}

/// The bounds of `trim(cs[lo..hi])` inside `cs`.
pub fn trim_bounds(cs: &[char], lo: usize, hi: usize) -> (r: (usize, usize))
    requires
        lo <= hi <= cs@.len(),
    ensures
        lo <= r.0 <= r.1 <= hi,
        cs@.subrange(r.0 as int, r.1 as int) == trim(cs@.subrange(lo as int, hi as int)),
{
    let mut a = lo;
    while a < hi && is_whitespace(cs[a])
        invariant
            lo <= a <= hi <= cs@.len(),
            trim_start(cs@.subrange(lo as int, hi as int)) == trim_start(
                cs@.subrange(a as int, hi as int),
            ),
        decreases hi - a,
    {
        assert(cs@.subrange(a as int, hi as int).drop_first() == cs@.subrange(a + 1, hi as int));
        a = a + 1;
    }
    let mut b = hi;
    while b > a && is_whitespace(cs[b - 1])
        invariant
            lo <= a <= b <= hi <= cs@.len(),
            trim_end(cs@.subrange(a as int, hi as int)) == trim_end(
                cs@.subrange(a as int, b as int),
            ),
        decreases b - a,
    {
        assert(cs@.subrange(a as int, b as int).drop_last() == cs@.subrange(a as int, b - 1));
        b = b - 1;
    }
    (a, b)
}

/// The bounds of `strip_char(cs[lo..hi], c)` inside `cs`.
pub fn strip_char_bounds(cs: &[char], lo: usize, hi: usize, c: char) -> (r: (usize, usize))
    requires
        lo <= hi <= cs@.len(),
    ensures
        lo <= r.0 <= r.1 <= hi,
        cs@.subrange(r.0 as int, r.1 as int) == strip_char(cs@.subrange(lo as int, hi as int), c),
{
    let mut a = lo;
    while a < hi && cs[a] == c
        invariant
            lo <= a <= hi <= cs@.len(),
            strip_char_start(cs@.subrange(lo as int, hi as int), c) == strip_char_start(
                cs@.subrange(a as int, hi as int),
                c,
            ),
        decreases hi - a,
    {
        assert(cs@.subrange(a as int, hi as int).drop_first() == cs@.subrange(a + 1, hi as int));
        a = a + 1;
    }
    let mut b = hi;
    while b > a && cs[b - 1] == c
        invariant
            lo <= a <= b <= hi <= cs@.len(),
            strip_char_end(cs@.subrange(a as int, hi as int), c) == strip_char_end(
                cs@.subrange(a as int, b as int),
                c,
            ),
        decreases b - a,
    {
        assert(cs@.subrange(a as int, b as int).drop_last() == cs@.subrange(a as int, b - 1));
        b = b - 1;
    }
    (a, b)
}

// ─── ASCII case ─────────────────────────────────────────────────────────────

/// ASCII lowercase of a character (`char::to_ascii_lowercase`).
pub open spec fn ascii_lower(c: char) -> char {
    if 'A' <= c && c <= 'Z' {
        ((c as u32) + 32) as char
    } else {
        c
    }
}

/// ASCII lowercase of a text.
pub open spec fn ascii_lower_seq(s: Seq<char>) -> Seq<char> {
    s.map_values(|c: char| ascii_lower(c))
}

/// An index found by code, compared with one described by a specification.
pub open spec fn same_pos(r: Option<usize>, o: Option<int>) -> bool {
    match r {
        Some(i) => o == Some(i as int),
        None => o is None,
    }
}

// ─── Matching ───────────────────────────────────────────────────────────────

/// `pat` occurs in `s` at position `p`.
pub open spec fn has_at(s: Seq<char>, p: int, pat: Seq<char>) -> bool {
    0 <= p && p + pat.len() <= s.len() && s.subrange(p, p + pat.len()) == pat
}

pub open spec fn has_prefix(s: Seq<char>, pat: Seq<char>) -> bool {
    has_at(s, 0, pat)
}

pub open spec fn has_suffix(s: Seq<char>, pat: Seq<char>) -> bool {
    has_at(s, s.len() - pat.len(), pat)
}

/// `pat` occurs somewhere in `s` (`str::contains`).
pub open spec fn contains(s: Seq<char>, pat: Seq<char>) -> bool {
    exists|i: int| has_at(s, i, pat)
}

/// The first position at or after `from` where `pat` occurs.
pub open spec fn find_from(s: Seq<char>, pat: Seq<char>, from: int) -> Option<int>
    decreases s.len() + 1 - from,
{
    if from < 0 || from + pat.len() > s.len() {
        None
    } else if has_at(s, from, pat) {
        Some(from)
    } else {
        find_from(s, pat, from + 1)
    }
}

/// The first position at or after `from` holding `c`.
pub open spec fn find_char_from(s: Seq<char>, c: char, from: int) -> Option<int>
    decreases s.len() - from,
{
    if from < 0 || from >= s.len() {
        None
    } else if s[from] == c {
        Some(from)
    } else {
        find_char_from(s, c, from + 1)
    }
}

/// The last position holding `c` (`str::rfind`).
pub open spec fn rfind_char(s: Seq<char>, c: char) -> Option<int>
    decreases s.len(),
{
    if s.len() == 0 {
        None
    } else if s.last() == c {
        Some(s.len() - 1)
    } else {
        rfind_char(s.drop_last(), c)
    }
}

pub fn matches_at(cs: &[char], p: usize, pat: &[char]) -> (b: bool)
    ensures
        b == has_at(cs@, p as int, pat@),
        b ==> p + pat@.len() <= cs.len(),
{
    if p > cs.len() || pat.len() > cs.len() - p {
        return false;
    }
    let n = pat.len();
    for i in 0..n
        invariant
            n == pat@.len(),
            p + n <= cs.len(),
            forall|j: int| 0 <= j < i ==> cs@[p + j] == pat@[j],
    {
        assert(p + i < cs@.len());
        if cs[p + i] != pat[i] {
            assert(cs@.subrange(p as int, p + n)[i as int] != pat@[i as int]);
            return false;
        }
    }
    assert(cs@.subrange(p as int, p + n) == pat@);
    true
}

pub fn find_char(cs: &[char], c: char, from: usize) -> (r: Option<usize>)
    requires
        from <= cs@.len(),
    ensures
        match r {
            Some(i) => find_char_from(cs@, c, from as int) == Some(i as int) && from <= i
                < cs.len() && cs@[i as int] == c,
            None => find_char_from(cs@, c, from as int) is None,
        },
{
    proof {
        lemma_find_char_from(cs@, c, from as int);
    }
    let mut i = from;
    while i < cs.len()
        invariant
            from <= i <= cs@.len(),
            find_char_from(cs@, c, from as int) == find_char_from(cs@, c, i as int),
        decreases cs@.len() - i,
    {
        if cs[i] == c {
            return Some(i);
        }
        i = i + 1;
    }
    None
}

pub fn find_seq(cs: &[char], pat: &[char], from: usize) -> (r: Option<usize>)
    requires
        from <= cs@.len(),
    ensures
        match r {
            Some(i) => find_from(cs@, pat@, from as int) == Some(i as int) && from <= i
                && has_at(cs@, i as int, pat@) && i + pat@.len() <= cs.len(),
            None => find_from(cs@, pat@, from as int) is None,
        },
{
    proof {
        lemma_find_from(cs@, pat@, from as int);
    }
    if pat.len() == 0 {
        assert(cs@.subrange(from as int, from as int) == pat@);
        return Some(from);
    }
    let mut i = from;
    while pat.len() <= cs.len() - i
        invariant
            from <= i <= cs@.len(),
            pat@.len() > 0,
            find_from(cs@, pat@, from as int) == find_from(cs@, pat@, i as int),
        decreases cs@.len() - i,
    {
        if matches_at(cs, i, pat) {
            return Some(i);
        }
        i = i + 1;
    }
    None
}

pub fn rfind(cs: &[char], c: char) -> (r: Option<usize>)
    ensures
        match r {
            Some(i) => rfind_char(cs@, c) == Some(i as int) && i < cs.len(),
            None => rfind_char(cs@, c) is None,
        },
{
    let mut i = cs.len();
    assert(cs@.take(i as int) == cs@);
    while i > 0
        invariant
            i <= cs@.len(),
            rfind_char(cs@, c) == rfind_char(cs@.take(i as int), c),
        decreases i,
    {
        assert(cs@.take(i as int).drop_last() == cs@.take(i - 1));
        if cs[i - 1] == c {
            return Some(i - 1);
        }
        i = i - 1;
    }
    None
}

/// A found position is an occurrence, and nothing occurs before it.
pub proof fn lemma_find_from(s: Seq<char>, pat: Seq<char>, from: int)
    requires
        0 <= from,
    ensures
        match find_from(s, pat, from) {
            Some(i) => from <= i && has_at(s, i, pat)
                && forall|j: int| from <= j < i ==> !has_at(s, j, pat),
            None => forall|j: int| from <= j ==> !has_at(s, j, pat),
        },
    decreases s.len() + 1 - from,
{
    if from + pat.len() > s.len() {
    } else if has_at(s, from, pat) {
    } else {
        lemma_find_from(s, pat, from + 1);
    }
}

/// A found position holds `c`, and nothing before it does.
pub proof fn lemma_find_char_from(s: Seq<char>, c: char, from: int)
    requires
        0 <= from,
    ensures
        match find_char_from(s, c, from) {
            Some(i) => from <= i < s.len() && s[i] == c
                && forall|j: int| from <= j < i ==> s[j] != c,
            None => forall|j: int| from <= j < s.len() ==> s[j] != c,
        },
    decreases s.len() - from,
{
    if from >= s.len() {
    } else if s[from] == c {
    } else {
        lemma_find_char_from(s, c, from + 1);
    }
}

pub fn contains_seq(cs: &[char], pat: &[char]) -> (b: bool)
    ensures
        b == contains(cs@, pat@),
{
    let r = find_seq(cs, pat, 0);
    proof {
        lemma_find_from(cs@, pat@, 0);
    }
    r.is_some()
}


// ─── Splitting ──────────────────────────────────────────────────────────────

/// The pieces of `s.take(n)` between the positions `i` with `cut(i)`
/// (the characters at those positions are dropped). There is always at
/// least one piece; the last one is the text after the last cut.
pub open spec fn split_segments(s: Seq<char>, cut: spec_fn(int) -> bool, n: int) -> Seq<Seq<char>>
    decreases n,
{
    if n <= 0 {
        seq![Seq::empty()]
    } else {
        let r = split_segments(s, cut, n - 1);
        if cut(n - 1) {
            r.push(Seq::empty())
        } else {
            r.update(r.len() - 1, r.last().push(s[n - 1]))
        }
    }
}

pub proof fn lemma_split_segments_len(s: Seq<char>, cut: spec_fn(int) -> bool, n: int)
    ensures
        split_segments(s, cut, n).len() >= 1,
    decreases n,
{
    if n > 0 {
        lemma_split_segments_len(s, cut, n - 1);
    }
}

pub open spec fn newline_at(s: Seq<char>) -> spec_fn(int) -> bool {
    |i: int| s[i] == '\n'
}

/// A line without the `\r` of its `\r\n` ending.
pub open spec fn strip_cr(l: Seq<char>) -> Seq<char> {
    if l.len() > 0 && l.last() == '\r' {
        l.drop_last()
    } else {
        l
    }
}

/// The lines of `s` (`str::lines`): the text is split at `\n`, a `\r`
/// directly before a `\n` belongs to the line ending, and a final line
/// ending does not start another line.
pub open spec fn lines_of(s: Seq<char>) -> Seq<Seq<char>> {
    let p = split_segments(s, newline_at(s), s.len() as int);
    let ended = p.drop_last().map_values(|l: Seq<char>| strip_cr(l));
    if p.last().len() == 0 {
        ended
    } else {
        ended.push(p.last())
    }
}

/// `r` gives, in order, the positions in `s` of the pieces `parts`.
pub open spec fn ranges_match(s: Seq<char>, r: Seq<(usize, usize)>, parts: Seq<Seq<char>>) -> bool {
    &&& r.len() == parts.len()
    &&& forall|j: int|
        0 <= j < r.len() ==> #[trigger] r[j].0 <= r[j].1 <= s.len() && s.subrange(
            r[j].0 as int,
            r[j].1 as int,
        ) == parts[j]
}

/// The positions in `cs` of the lines of `cs`.
pub fn line_ranges(cs: &[char]) -> (r: Vec<(usize, usize)>)
    ensures
        ranges_match(cs@, r@, lines_of(cs@)),
{
    let ghost s = cs@;
    let ghost cut = newline_at(s);
    let mut r: Vec<(usize, usize)> = Vec::new();
    let mut st: usize = 0;
    let mut i: usize = 0;
    let ghost mut segs = split_segments(s, cut, 0);
    while i < cs.len()
        invariant
            s == cs@,
            cut == newline_at(s),
            st <= i <= cs@.len(),
            segs == split_segments(s, cut, i as int),
            segs.len() >= 1,
            segs.last() == s.subrange(st as int, i as int),
            r@.len() == segs.len() - 1,
            forall|j: int|
                0 <= j < r@.len() ==> #[trigger] r@[j].0 <= r@[j].1 <= s.len()
                    && s.subrange(r@[j].0 as int, r@[j].1 as int) == strip_cr(segs[j]),
        decreases cs@.len() - i,
    {
        let ghost prev = segs;
        if cs[i] == '\n' {
            let e = if i > st && cs[i - 1] == '\r' {
                i - 1
            } else {
                i
            };
            assert(s.subrange(st as int, e as int) == strip_cr(prev.last()));
            r.push((st, e));
            st = i + 1;
            proof {
                segs = prev.push(Seq::empty());
            }
        } else {
            assert(s.subrange(st as int, i + 1) == prev.last().push(s[i as int]));
            proof {
                segs = prev.update(prev.len() - 1, prev.last().push(s[i as int]));
            }
            assert(forall|j: int| 0 <= j < prev.len() - 1 ==> segs[j] == prev[j]);
        }
        assert(segs == split_segments(s, cut, i + 1));
        i = i + 1;
    }
    let ghost ended = segs.drop_last().map_values(|l: Seq<char>| strip_cr(l));
    assert(lines_of(s) == if segs.last().len() == 0 {
        ended
    } else {
        ended.push(segs.last())
    });
    assert(forall|j: int| 0 <= j < segs.len() - 1 ==> #[trigger] lines_of(s)[j] == strip_cr(segs[j]));
    let ghost r0 = r@;
    if st < cs.len() {
        r.push((st, cs.len()));
        assert(lines_of(s)[segs.len() - 1] == segs.last());
    }
    assert forall|j: int| 0 <= j < r@.len() implies #[trigger] r@[j].0 <= r@[j].1 <= cs@.len()
        && cs@.subrange(r@[j].0 as int, r@[j].1 as int) == lines_of(cs@)[j] by {
        if j < r0.len() {
            assert(r@[j] == r0[j]);
        }
    }
    assert(ranges_match(cs@, r@, lines_of(cs@)));
    r
}

// ─── Numbers ────────────────────────────────────────────────────────────────

pub open spec fn digit_char(d: int) -> char {
    ((d + 48) as u8) as char
}

/// The decimal text of `n` (as `{}` formats an unsigned integer).
pub open spec fn decimal(n: nat) -> Seq<char>
    decreases n,
{
    if n < 10 {
        seq![digit_char(n as int)]
    } else {
        decimal(n / 10).push(digit_char((n % 10) as int))
    }
}

/// Appends the decimal text of `n`.
pub fn push_decimal(out: &mut Vec<char>, n: usize)
    ensures
        final(out)@ == old(out)@ + decimal(n as nat),
    decreases n,
{
    if n >= 10 {
        push_decimal(out, n / 10);
    }
    let d = (n % 10) as u8;
    out.push((d + 48) as char);
    assert(((d + 48) as u8) as char == digit_char((n % 10) as int));
}

} // verus!
