//! How the parameter block of a stream line is split into tokens.

use vstd::prelude::*;
use crate::clearkey::strings_view;
use crate::playlist::{param_cut, param_tokens, starts_with_key, token_ranges};
use crate::text::{chars_of, has_prefix, split_segments, string_of};
use crate::unicode::{lemma_lower_seq_concat, lower_char, lower_seq};

verus! {

/// Pieces joined with `&` between them.
pub open spec fn join_with_amp(ps: Seq<Seq<char>>) -> Seq<char>
    decreases ps.len(),
{
    if ps.len() == 0 {
        Seq::empty()
    } else if ps.len() == 1 {
        ps[0]
    } else {
        join_with_amp(ps.drop_last()) + seq!['&'] + ps.last()
    }
}

/// `segs[k]` is the piece of `s[..n]` that starts after the cut at `i` and
/// runs to the next cut (or, for the last piece, to `n`).
pub open spec fn piece_from(
    s: Seq<char>,
    cut: spec_fn(int) -> bool,
    n: int,
    segs: Seq<Seq<char>>,
    k: int,
    i: int,
) -> bool {
    let seg = segs[k];
    let last = k == segs.len() - 1;
    &&& 0 <= i < n
    &&& cut(i)
    &&& i + 1 + seg.len() <= n
    &&& seg == s.subrange(i + 1, i + 1 + seg.len())
    &&& if last {
        i + 1 + seg.len() == n
    } else {
        i + 1 + seg.len() < n && cut(i + 1 + seg.len())
    }
}

/// `segs[k]` is a piece that starts after some cut.
pub open spec fn piece_exists(
    s: Seq<char>,
    cut: spec_fn(int) -> bool,
    n: int,
    segs: Seq<Seq<char>>,
    k: int,
) -> bool {
    exists|i: int| #[trigger] piece_from(s, cut, n, segs, k, i)
}

proof fn lemma_split_pieces(s: Seq<char>, cut: spec_fn(int) -> bool, n: int)
    requires
        0 <= n <= s.len(),
        forall|i: int| 0 <= i < s.len() && #[trigger] cut(i) ==> s[i] == '&',
    ensures
        split_segments(s, cut, n).len() >= 1,
        join_with_amp(split_segments(s, cut, n)) == s.take(n),
        forall|k: int|
            1 <= k < split_segments(s, cut, n).len() ==> #[trigger] piece_exists(
                s,
                cut,
                n,
                split_segments(s, cut, n),
                k,
            ),
    decreases n,
{
    if n == 0 {
        assert(s.take(0) == Seq::<char>::empty());
    } else {
        lemma_split_pieces(s, cut, n - 1);
        let prev = split_segments(s, cut, n - 1);
        let segs = split_segments(s, cut, n);
        assert(s.take(n) == s.take(n - 1).push(s[n - 1]));
        if cut(n - 1) {
            assert(segs == prev.push(Seq::empty()));
            assert(segs.drop_last() == prev);
            assert(s[n - 1] == '&');
            assert(join_with_amp(segs) == join_with_amp(prev) + seq!['&'] + Seq::<char>::empty());
            assert forall|k: int| 1 <= k < segs.len() implies #[trigger] piece_exists(
                s,
                cut,
                n,
                segs,
                k,
            ) by {
                if k < prev.len() {
                    assert(piece_exists(s, cut, n - 1, prev, k));
                    let i = choose|i: int| #[trigger] piece_from(s, cut, n - 1, prev, k, i);
                    assert(segs[k] == prev[k]);
                    assert(piece_from(s, cut, n, segs, k, i));
                } else {
                    assert(segs[k] == Seq::<char>::empty());
                    assert(s.subrange(n, n) == Seq::<char>::empty());
                    assert(piece_from(s, cut, n, segs, k, n - 1));
                }
            }
        } else {
            let l = prev.last().push(s[n - 1]);
            assert(segs == prev.update(prev.len() - 1, l));
            if prev.len() == 1 {
                assert(join_with_amp(segs) == segs[0]);
            } else {
                assert(segs.drop_last() == prev.drop_last());
                assert(join_with_amp(segs) == join_with_amp(prev.drop_last()) + seq!['&'] + l);
            }
            assert forall|k: int| 1 <= k < segs.len() implies #[trigger] piece_exists(
                s,
                cut,
                n,
                segs,
                k,
            ) by {
                assert(piece_exists(s, cut, n - 1, prev, k));
                let i = choose|i: int| #[trigger] piece_from(s, cut, n - 1, prev, k, i);
                if k < prev.len() - 1 {
                    assert(segs[k] == prev[k]);
                    assert(piece_from(s, cut, n, segs, k, i));
                } else {
                    assert(segs[k] == l);
                    assert(l == s.subrange(i + 1, n));
                    assert(piece_from(s, cut, n, segs, k, i));
                }
            }
        }
    }
}

proof fn lemma_keys_have_no_amp(l: Seq<char>, m: int)
    requires
        starts_with_key(l),
        0 <= m < l.len(),
        l[m] == '&',
    ensures
        m >= 8,
        has_prefix(l, "user-agent="@) ==> m >= 11,
        has_prefix(l, "referer="@) ==> m >= 8,
        has_prefix(l, "referrer="@) ==> m >= 9,
        has_prefix(l, "license_type="@) ==> m >= 13,
        has_prefix(l, "license_key="@) ==> m >= 12,
{
    reveal_strlit("user-agent=");
    reveal_strlit("referer=");
    reveal_strlit("referrer=");
    reveal_strlit("license_type=");
    reveal_strlit("license_key=");
    if has_prefix(l, "user-agent="@) && m < 11 {
        assert(l.subrange(0, 11)[m] == l[m]);
    }
    if has_prefix(l, "referer="@) && m < 8 {
        assert(l.subrange(0, 8)[m] == l[m]);
    }
    if has_prefix(l, "referrer="@) && m < 9 {
        assert(l.subrange(0, 9)[m] == l[m]);
    }
    if has_prefix(l, "license_type="@) && m < 13 {
        assert(l.subrange(0, 13)[m] == l[m]);
    }
    if has_prefix(l, "license_key="@) && m < 12 {
        assert(l.subrange(0, 12)[m] == l[m]);
    }
}

/// The key test sees only the text before the next `&`.
proof fn lemma_key_before_amp(a: Seq<char>, b: Seq<char>)
    requires
        starts_with_key(a + seq!['&'] + b),
    ensures
        starts_with_key(a),
{
    reveal_strlit("user-agent=");
    reveal_strlit("referer=");
    reveal_strlit("referrer=");
    reveal_strlit("license_type=");
    reveal_strlit("license_key=");
    let l = a + seq!['&'] + b;
    assert(l[a.len() as int] == '&');
    lemma_keys_have_no_amp(l, a.len() as int);
    let keys = seq!["user-agent="@, "referer="@, "referrer="@, "license_type="@, "license_key="@];
    assert forall|j: int| 0 <= j < 5 && has_prefix(l, #[trigger] keys[j]) implies has_prefix(a, keys[j]) by {
        let k = keys[j];
        assert(l.subrange(0, k.len() as int) == a.subrange(0, k.len() as int));
    }
    assert(keys[0] == "user-agent="@);
    assert(keys[1] == "referer="@);
    assert(keys[2] == "referrer="@);
    assert(keys[3] == "license_type="@);
    assert(keys[4] == "license_key="@);
}

/// How the parameter block is split: there is at least one token, joining
/// the tokens with `&` gives the block back, and every token after the
/// first starts, without regard to case, with a known key.
pub proof fn law_param_split(s: Seq<char>)
    ensures
        param_tokens(s).len() >= 1,
        join_with_amp(param_tokens(s)) == s,
        forall|k: int|
            1 <= k < param_tokens(s).len() ==> starts_with_key(lower_seq(#[trigger] param_tokens(s)[k])),
{
    let cut = param_cut(s);
    let n = s.len() as int;
    lemma_split_pieces(s, cut, n);
    assert(s.take(n) == s);
    let ts = param_tokens(s);
    assert forall|k: int| 1 <= k < ts.len() implies starts_with_key(lower_seq(#[trigger] ts[k])) by {
        assert(piece_exists(s, cut, n, ts, k));
        let i = choose|i: int| #[trigger] piece_from(s, cut, n, ts, k, i);
        let piece = ts[k];
        let e = i + 1 + piece.len();
        assert(starts_with_key(lower_seq(s.skip(i + 1))));
        if e == n {
            assert(s.skip(i + 1) == piece);
        } else {
            assert(s[e] == '&');
            assert(s.skip(i + 1) == piece + seq!['&'] + s.skip(e + 1));
            lemma_lower_seq_concat(piece + seq!['&'], s.skip(e + 1));
            lemma_lower_seq_concat(piece, seq!['&']);
            assert(seq!['&'].drop_last() == Seq::<char>::empty());
            assert(lower_seq(seq!['&']) == lower_seq(Seq::<char>::empty()) + lower_char('&'));
            assert(lower_seq(seq!['&']) == seq!['&']);
            lemma_key_before_amp(lower_seq(piece), lower_seq(s.skip(e + 1)));
        }
    }
}


/// Split `s` at `&` only when the text after `&` starts with one of the
/// parameter keys (case-insensitive). There is always at least one piece,
/// the pieces joined with `&` give `s` back, and every piece after the
/// first starts with a key.
pub fn smart_split(s: &str) -> (r: Vec<String>)
    ensures
        strings_view(r@) == param_tokens(s@),
        r@.len() >= 1,
        join_with_amp(strings_view(r@)) == s@,
        forall|k: int| 1 <= k < r@.len() ==> starts_with_key(lower_seq(#[trigger] strings_view(r@)[k])),
{
    let cs = chars_of(s);
    let ranges = token_ranges(cs.as_slice());
    let ghost ts = param_tokens(s@);
    let mut out: Vec<String> = Vec::new();
    let n = ranges.len();
    for j in 0..n
        invariant
            n == ranges@.len(),
            cs@ == s@,
            ts == param_tokens(s@),
            crate::text::ranges_match(cs@, ranges@, ts),
            strings_view(out@) == ts.take(j as int),
    {
        let (lo, hi) = ranges[j];
        assert(ranges@[j as int].0 <= ranges@[j as int].1);
        let piece = string_of(&cs[lo..hi]);
        let ghost before = out@;
        out.push(piece);
        assert(ts.take(j + 1) == ts.take(j as int).push(ts[j as int]));
        assert(strings_view(out@) == strings_view(before).push(piece@));
    }
    assert(ts.take(n as int) == ts);
    proof {
        law_param_split(s@);
    }
    out
}

} // verus!
