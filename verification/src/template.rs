//! DASH segment templates: the identifiers a player substitutes, and
//! how a template is percent-encoded without them.

use vstd::prelude::*;
use vstd::utf8::encode_utf8;
use crate::codec::percent_encode;
use crate::text::{chars_of, has_at, has_prefix, matches_at};

verus! {

/// The number of ASCII decimal digits that `s` starts with.
pub open spec fn digits_len(s: Seq<char>) -> nat
    decreases s.len(),
{
    if s.len() > 0 && '0' <= s[0] && s[0] <= '9' {
        1 + digits_len(s.drop_first())
    } else {
        0
    }
}

/// The length of the format tag `%0<width>d` and the closing `$` that `t`
/// starts with (the width being one or more decimal digits), or 0.
pub open spec fn format_tag_len(t: Seq<char>) -> nat {
    if has_prefix(t, "%0"@) {
        let d = digits_len(t.skip("%0"@.len() as int));
        if d > 0 && has_at(t, ("%0"@.len() + d) as int, "d$"@) {
            ("%0"@.len() + d + "d$"@.len()) as nat
        } else {
            0
        }
    } else {
        0
    }
}

/// The length of the identifier `name` (such as `$Number`) closed by `$`,
/// or by a format tag and `$`, that `s` starts with, or 0.
pub open spec fn named_ident_len(s: Seq<char>, name: Seq<char>) -> nat {
    if has_prefix(s, name) {
        let t = s.skip(name.len() as int);
        if has_prefix(t, "$"@) {
            name.len() + "$"@.len()
        } else if format_tag_len(t) > 0 {
            name.len() + format_tag_len(t)
        } else {
            0
        }
    } else {
        0
    }
}

/// The length of the DASH template identifier that `s` starts with, or 0:
/// `$$`, `$RepresentationID$`, and `$Number$`, `$Time$`, `$Bandwidth$`
/// with or without a format tag (as in `$Number%05d$`).
pub open spec fn template_ident_len(s: Seq<char>) -> nat {
    if has_prefix(s, "$$"@) {
        "$$"@.len()
    } else if named_ident_len(s, "$Number"@) > 0 {
        named_ident_len(s, "$Number"@)
    } else if named_ident_len(s, "$Time"@) > 0 {
        named_ident_len(s, "$Time"@)
    } else if has_prefix(s, "$RepresentationID$"@) {
        "$RepresentationID$"@.len()
    } else if named_ident_len(s, "$Bandwidth"@) > 0 {
        named_ident_len(s, "$Bandwidth"@)
    } else {
        0
    }
}

/// A segment template percent-encoded for a query value, with its
/// template identifiers left as they are, so that the player can still
/// substitute them in the proxy URL.
pub open spec fn template_encode(s: Seq<char>) -> Seq<char>
    decreases s.len(),
{
    if s.len() == 0 {
        Seq::empty()
    } else if template_ident_len(s) > 0 {
        s.take(template_ident_len(s) as int) + template_encode(s.skip(template_ident_len(s) as int))
    } else {
        percent_encode(encode_utf8(seq![s[0]])) + template_encode(s.drop_first())
    }
}

/// The proxy segment URL for the upstream segment template `raw`.
pub open spec fn proxy_template_url_spec(
    raw: Seq<char>,
    proxy_base: Seq<char>,
    ctx: Seq<char>,
) -> Seq<char> {
    proxy_base + "/"@ + "segment"@ + "?ctx="@ + ctx + "&url="@ + template_encode(raw)
}

proof fn lemma_prefix_skip(s: Seq<char>, i: int, pat: Seq<char>)
    requires
        0 <= i <= s.len(),
    ensures
        has_prefix(s.skip(i), pat) == has_at(s, i, pat),
{
    if has_at(s, i, pat) {
        assert(s.skip(i).subrange(0, pat.len() as int) == s.subrange(i, i + pat.len()));
    }
    if has_prefix(s.skip(i), pat) {
        assert(s.skip(i).subrange(0, pat.len() as int) == s.subrange(i, i + pat.len()));
    }
}

proof fn lemma_at_skip(s: Seq<char>, i: int, j: int, pat: Seq<char>)
    requires
        0 <= i <= s.len(),
        0 <= j,
    ensures
        has_at(s.skip(i), j, pat) == has_at(s, i + j, pat),
{
    if has_at(s, i + j, pat) {
        assert(s.skip(i).subrange(j, j + pat.len()) == s.subrange(i + j, i + j + pat.len()));
    }
    if has_at(s.skip(i), j, pat) {
        assert(s.skip(i).subrange(j, j + pat.len()) == s.subrange(i + j, i + j + pat.len()));
    }
}

/// The number of decimal digits at `p` in `raw`.
fn digits_at(raw: &[char], p: usize) -> (d: usize)
    requires
        p <= raw@.len(),
    ensures
        d == digits_len(raw@.skip(p as int)),
        p + d <= raw@.len(),
{
    let mut q = p;
    while q < raw.len() && '0' <= raw[q] && raw[q] <= '9'
        invariant
            p <= q <= raw@.len(),
            digits_len(raw@.skip(p as int)) == (q - p) + digits_len(raw@.skip(q as int)),
        decreases raw@.len() - q,
    {
        assert(raw@.skip(q as int).drop_first() == raw@.skip(q + 1));
        q = q + 1;
    }
    q - p
}

/// The length of the format tag and closing `$` at `p` in `raw`, or 0.
fn format_len_at(raw: &[char], p: usize) -> (n: usize)
    requires
        p <= raw@.len(),
    ensures
        n == format_tag_len(raw@.skip(p as int)),
        p + n <= raw@.len(),
{
    let pct = chars_of("%0");
    let close = chars_of("d$");
    proof {
        lemma_prefix_skip(raw@, p as int, "%0"@);
    }
    if !matches_at(raw, p, pct.as_slice()) {
        return 0;
    }
    let d = digits_at(raw, p + pct.len());
    proof {
        assert(raw@.skip(p as int).skip("%0"@.len() as int) == raw@.skip(p + "%0"@.len()));
        lemma_at_skip(raw@, p as int, ("%0"@.len() + d) as int, "d$"@);
    }
    if d > 0 && matches_at(raw, p + pct.len() + d, close.as_slice()) {
        pct.len() + d + close.len()
    } else {
        0
    }
}

/// The length of the identifier `name` closed by `$` or by a format tag
/// and `$` at `i` in `raw`, or 0.
fn named_len_at(raw: &[char], i: usize, name: &[char]) -> (n: usize)
    requires
        i <= raw@.len(),
    ensures
        n == named_ident_len(raw@.skip(i as int), name@),
        i + n <= raw@.len(),
{
    proof {
        lemma_prefix_skip(raw@, i as int, name@);
    }
    if !matches_at(raw, i, name) {
        return 0;
    }
    let j = i + name.len();
    let dollar = chars_of("$");
    proof {
        assert(raw@.skip(i as int).skip(name@.len() as int) == raw@.skip(j as int));
        lemma_prefix_skip(raw@, j as int, "$"@);
    }
    if matches_at(raw, j, dollar.as_slice()) {
        name.len() + dollar.len()
    } else {
        let f = format_len_at(raw, j);
        if f > 0 {
            name.len() + f
        } else {
            0
        }
    }
}

/// The length of the template identifier at `i` in `raw`, or 0.
pub(crate) fn ident_len_at(raw: &[char], i: usize) -> (n: usize)
    requires
        i <= raw@.len(),
    ensures
        n == template_ident_len(raw@.skip(i as int)),
        i + n <= raw@.len(),
{
    let dd = chars_of("$$");
    let number = chars_of("$Number");
    let time = chars_of("$Time");
    let rep = chars_of("$RepresentationID$");
    let bw = chars_of("$Bandwidth");
    proof {
        lemma_prefix_skip(raw@, i as int, "$$"@);
        lemma_prefix_skip(raw@, i as int, "$RepresentationID$"@);
    }
    if matches_at(raw, i, dd.as_slice()) {
        return dd.len();
    }
    let k = named_len_at(raw, i, number.as_slice());
    if k > 0 {
        return k;
    }
    let k = named_len_at(raw, i, time.as_slice());
    if k > 0 {
        return k;
    }
    if matches_at(raw, i, rep.as_slice()) {
        return rep.len();
    }
    named_len_at(raw, i, bw.as_slice())
}

proof fn lemma_ident_kept(k: Seq<char>, rest: Seq<char>)
    requires
        k.len() > 0,
        template_ident_len(k + rest) == k.len(),
    ensures
        template_encode(k + rest) == k + template_encode(rest),
{
    assert((k + rest).take(k.len() as int) == k);
    assert((k + rest).skip(k.len() as int) == rest);
}

proof fn lemma_digits_len(w: Seq<char>, x: Seq<char>)
    requires
        forall|i: int| 0 <= i < w.len() ==> '0' <= #[trigger] w[i] && w[i] <= '9',
    ensures
        digits_len(w + x) == w.len() + digits_len(x),
    decreases w.len(),
{
    if w.len() > 0 {
        assert((w + x)[0] == w[0]);
        assert((w + x).drop_first() == w.drop_first() + x);
        assert forall|i: int| 0 <= i < w.drop_first().len() implies '0' <= #[trigger] w.drop_first()[i]
            && w.drop_first()[i] <= '9' by {
            assert(w.drop_first()[i] == w[i + 1]);
        }
        lemma_digits_len(w.drop_first(), x);
    } else {
        assert(w + x == x);
    }
}

/// `name` closed by `$`, and `name` closed by a format tag and `$`, are
/// whole identifiers.
proof fn lemma_named(name: Seq<char>, width: Seq<char>, rest: Seq<char>)
    requires
        width.len() > 0,
        forall|i: int| 0 <= i < width.len() ==> '0' <= #[trigger] width[i] && width[i] <= '9',
    ensures
        named_ident_len(name + "$"@ + rest, name) == name.len() + "$"@.len(),
        named_ident_len(name + ("%0"@ + width + "d$"@) + rest, name) == name.len() + ("%0"@ + width
            + "d$"@).len(),
{
    reveal_strlit("$");
    reveal_strlit("%0");
    reveal_strlit("d$");
    let s1 = name + "$"@ + rest;
    assert(s1.subrange(0, name.len() as int) == name);
    assert(s1.skip(name.len() as int) == "$"@ + rest);
    assert(("$"@ + rest).subrange(0, 1) == "$"@);
    let tag = "%0"@ + width + "d$"@;
    let s2 = name + tag + rest;
    let t = tag + rest;
    assert(s2.subrange(0, name.len() as int) == name);
    assert(s2.skip(name.len() as int) == t);
    assert(t[0] == '%');
    if has_prefix(t, "$"@) {
        assert(t.subrange(0, 1)[0] == t[0]);
    }
    assert(t.subrange(0, 2) == "%0"@);
    assert(t.skip(2) == width + ("d$"@ + rest));
    lemma_digits_len(width, "d$"@ + rest);
    assert(("d$"@ + rest)[0] == 'd');
    assert(digits_len("d$"@ + rest) == 0);
    assert(t.subrange(2 + width.len() as int, 2 + width.len() as int + 2) == "d$"@);
}

/// DASH segment templates stay templates: in the `url=` value of a
/// rewritten `media` attribute, each template identifier (`$$`,
/// `$Number$`, `$Time$`, `$RepresentationID$`, `$Bandwidth$`, and
/// `$Number`, `$Time`, `$Bandwidth` with a format tag `%0<width>d`) is kept
/// literally, so the player can still substitute it.
pub proof fn law_template_identifiers_kept(rest: Seq<char>, width: Seq<char>)
    requires
        width.len() > 0,
        forall|i: int| 0 <= i < width.len() ==> '0' <= #[trigger] width[i] && width[i] <= '9',
    ensures
        template_encode("$$"@ + rest) == "$$"@ + template_encode(rest),
        template_encode("$Number$"@ + rest) == "$Number$"@ + template_encode(rest),
        template_encode("$Time$"@ + rest) == "$Time$"@ + template_encode(rest),
        template_encode("$RepresentationID$"@ + rest) == "$RepresentationID$"@ + template_encode(
            rest,
        ),
        template_encode("$Bandwidth$"@ + rest) == "$Bandwidth$"@ + template_encode(rest),
        ({
            let tag = "%0"@ + width + "d$"@;
            &&& template_encode("$Number"@ + tag + rest) == "$Number"@ + tag + template_encode(rest)
            &&& template_encode("$Time"@ + tag + rest) == "$Time"@ + tag + template_encode(rest)
            &&& template_encode("$Bandwidth"@ + tag + rest) == "$Bandwidth"@ + tag
                + template_encode(rest)
        }),
{
    reveal_strlit("$$");
    reveal_strlit("$");
    reveal_strlit("$Number");
    reveal_strlit("$Time");
    reveal_strlit("$Bandwidth");
    reveal_strlit("$Number$");
    reveal_strlit("$Time$");
    reveal_strlit("$RepresentationID$");
    reveal_strlit("$Bandwidth$");
    let tag = "%0"@ + width + "d$"@;
    lemma_named("$Number"@, width, rest);
    lemma_named("$Time"@, width, rest);
    lemma_named("$Bandwidth"@, width, rest);
    assert("$Number$"@ == "$Number"@ + "$"@);
    assert("$Time$"@ == "$Time"@ + "$"@);
    assert("$Bandwidth$"@ == "$Bandwidth"@ + "$"@);
    // the identifiers, each with the character after its `$`
    let ids = seq![
        "$$"@,
        "$Number$"@,
        "$Time$"@,
        "$RepresentationID$"@,
        "$Bandwidth$"@,
        "$Number"@ + tag,
        "$Time"@ + tag,
        "$Bandwidth"@ + tag,
    ];
    let second = seq!['$', 'N', 'T', 'R', 'B', 'N', 'T', 'B'];
    assert forall|j: int| 0 <= j < 8 implies template_encode(#[trigger] ids[j] + rest) == ids[j]
        + template_encode(rest) by {
        let k = ids[j];
        let t = k + rest;
        assert(k[1] == second[j]);
        assert(t[1] == k[1]);
        if j == 1 || j == 2 || j == 4 {
            assert(k + rest == (k.take(k.len() - 1)) + "$"@ + rest);
        }
        if j >= 5 {
            assert(k + rest == k.take(k.len() - tag.len()) + tag + rest);
        }
        if second[j] != '$' {
            if has_prefix(t, "$$"@) {
                assert(t.subrange(0, 2)[1] == t[1]);
            }
        }
        if second[j] != 'N' {
            if has_prefix(t, "$Number"@) {
                assert(t.subrange(0, 7)[1] == t[1]);
            }
        }
        if second[j] != 'T' {
            if has_prefix(t, "$Time"@) {
                assert(t.subrange(0, 5)[1] == t[1]);
            }
        }
        if second[j] != 'R' {
            if has_prefix(t, "$RepresentationID$"@) {
                assert(t.subrange(0, 18)[1] == t[1]);
            }
        }
        if j == 3 {
            assert(t.subrange(0, k.len() as int) == k);
        }
        if j == 0 {
            assert(t.subrange(0, 2) == k);
        }
        assert(template_ident_len(t) == k.len());
        lemma_ident_kept(k, rest);
    }
    assert(ids[0] == "$$"@);
    assert(ids[1] == "$Number$"@);
    assert(ids[2] == "$Time$"@);
    assert(ids[3] == "$RepresentationID$"@);
    assert(ids[4] == "$Bandwidth$"@);
    assert(ids[5] == "$Number"@ + tag);
    assert(ids[6] == "$Time"@ + tag);
    assert(ids[7] == "$Bandwidth"@ + tag);
    assert(ids[5] + rest == "$Number"@ + tag + rest);
    assert(ids[6] + rest == "$Time"@ + tag + rest);
    assert(ids[7] + rest == "$Bandwidth"@ + tag + rest);
}

} // verus!
