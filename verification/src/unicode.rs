//! Lowercasing (`char::to_lowercase`) and a few UTF-8 facts used by the
//! playlist format's case-insensitive keys.

use vstd::prelude::*;
use vstd::utf8::encode_utf8;
use crate::text::{ascii_lower, ascii_lower_seq, matches_at, push_all};

verus! {

/// The lowercase mapping of a character outside ASCII: the one or more
/// characters that `char::to_lowercase` yields.
pub uninterp spec fn char_lower(c: char) -> Seq<char>;

/// The lowercase mapping of a character (`char::to_lowercase`): ASCII
/// letters map to their ASCII lowercase, other ASCII characters to
/// themselves, and the rest as the Unicode Character Database says.
pub open spec fn lower_char(c: char) -> Seq<char> {
    if (c as u32) < 128 {
        seq![ascii_lower(c)]
    } else {
        char_lower(c)
    }
}

/// `char::to_lowercase`, collected into characters. Its documentation
/// gives the Unicode lowercase mapping (UnicodeData.txt, or
/// SpecialCasing.txt where one character becomes several); on ASCII that
/// mapping is `A`–`Z` to `a`–`z` and the identity elsewhere. Beyond ASCII
/// nothing is stated but that the result is `char_lower(c)`.
#[verifier::external_body]
fn char_to_lowercase(c: char) -> (r: Vec<char>)
    ensures
        (c as u32) < 128 ==> r@ == seq![ascii_lower(c)],
        (c as u32) >= 128 ==> r@ == char_lower(c),
{
    c.to_lowercase().collect()
}

/// The lowercase of a text, character by character (as `str::to_lowercase`;
/// its one context rule, a final capital sigma, picks between two
/// non-ASCII letters of the same UTF-8 length).
pub open spec fn lower_seq(s: Seq<char>) -> Seq<char>
    decreases s.len(),
{
    if s.len() == 0 {
        Seq::empty()
    } else {
        lower_seq(s.drop_last()) + lower_char(s.last())
    }
}

/// The lowercase of some characters.
pub fn lowercase(cs: &[char]) -> (v: Vec<char>)
    ensures
        v@ == lower_seq(cs@),
{
    let mut v: Vec<char> = Vec::new();
    let n = cs.len();
    for i in 0..n
        invariant
            n == cs@.len(),
            v@ == lower_seq(cs@.take(i as int)),
    {
        let l = char_to_lowercase(cs[i]);
        assert(cs@.take(i + 1).drop_last() == cs@.take(i as int));
        push_all(&mut v, l.as_slice());
    }
    assert(cs@.take(n as int) == cs@);
    v
}

pub proof fn lemma_lower_seq_concat(a: Seq<char>, b: Seq<char>)
    ensures
        lower_seq(a + b) == lower_seq(a) + lower_seq(b),
    decreases b.len(),
{
    if b.len() == 0 {
        assert(a + b == a);
    } else {
        lemma_lower_seq_concat(a, b.drop_last());
        assert((a + b).drop_last() == a + b.drop_last());
    }
}

/// On ASCII text, lowercasing is ASCII lowercasing.
pub proof fn lemma_lower_seq_ascii(s: Seq<char>)
    requires
        forall|i: int| 0 <= i < s.len() ==> (#[trigger] s[i] as u32) < 128,
    ensures
        lower_seq(s) == ascii_lower_seq(s),
    decreases s.len(),
{
    if s.len() > 0 {
        let d = s.drop_last();
        assert forall|i: int| 0 <= i < d.len() implies (#[trigger] d[i] as u32) < 128 by {
            assert(d[i] == s[i]);
        }
        lemma_lower_seq_ascii(d);
        assert((s[s.len() - 1] as u32) < 128);
        assert(ascii_lower_seq(s) == ascii_lower_seq(d).push(ascii_lower(s.last())));
    }
}

// ─── UTF-8 ──────────────────────────────────────────────────────────────────

pub proof fn lemma_encode_utf8_concat(a: Seq<char>, b: Seq<char>)
    ensures
        encode_utf8(a + b) == encode_utf8(a) + encode_utf8(b),
    decreases a.len(),
{
    if a.len() == 0 {
        assert(a + b == b);
    } else {
        lemma_encode_utf8_concat(a.drop_first(), b);
        assert((a + b).drop_first() == a.drop_first() + b);
        assert((a + b)[0] == a[0]);
    }
}

/// Two character slices are equal.
pub fn chars_eq(a: &[char], b: &[char]) -> (r: bool)
    ensures
        r == (a@ == b@),
{
    if a.len() != b.len() {
        return false;
    }
    let r = matches_at(a, 0, b);
    proof {
        if r {
            assert(a@.subrange(0, a@.len() as int) == a@);
        } else {
            assert(a@.subrange(0, b@.len() as int) == a@);
        }
    }
    r
}

} // verus!
