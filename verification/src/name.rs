//! Problem names: the identifier under which a problem's test cases are
//! stored, derived from a contest problem's title or a source file's stem.
use vstd::prelude::*;
use crate::text::{chars_of, copy_range, is_ws, string_of, trim, trim_chars, trim_end, trim_start};

verus! {

/// An ASCII letter or digit.
pub open spec fn is_alnum(c: char) -> bool {
    let u = c as u32;
    ||| 48 <= u <= 57
    ||| 65 <= u <= 90
    ||| 97 <= u <= 122
}

/// Whether `c` is an ASCII letter or digit.
pub fn is_ascii_alnum(c: char) -> (b: bool)
    ensures
        b == is_alnum(c),
{
    let u = c as u32;
    (48 <= u && u <= 57) || (65 <= u && u <= 90) || (97 <= u && u <= 122)
}

/// `t` with every maximal run of characters that are not ASCII letters or
/// digits replaced by a single `_`.
pub open spec fn squeeze(t: Seq<char>) -> Seq<char>
    decreases t.len(),
{
    if t.len() == 0 {
        seq![]
    } else {
        let prev = squeeze(t.drop_last());
        let c = t.last();
        if is_alnum(c) {
            prev.push(c)
        } else if t.len() >= 2 && !is_alnum(t[t.len() - 2]) {
            prev
        } else {
            prev.push('_')
        }
    }
}

/// `s` without leading underscores.
pub open spec fn strip_us_start(s: Seq<char>) -> Seq<char>
    decreases s.len(),
{
    if s.len() > 0 && s[0] == '_' {
        strip_us_start(s.drop_first())
    } else {
        s
    }
}

/// `s` without trailing underscores.
pub open spec fn strip_us_end(s: Seq<char>) -> Seq<char>
    decreases s.len(),
{
    if s.len() > 0 && s.last() == '_' {
        strip_us_end(s.drop_last())
    } else {
        s
    }
}

/// The problem identifier made from `s`: `s` trimmed, each run of
/// characters other than ASCII letters and digits made one `_`, and
/// underscores at either end removed.
pub open spec fn sanitized(s: Seq<char>) -> Seq<char> {
    strip_us_end(strip_us_start(squeeze(trim(s))))
}

/// The problem identifier made from `s` (see [`sanitized`]).
pub fn sanitize(s: &str) -> (r: String)
    ensures
        r@ == sanitized(s@),
{
    let v = chars_of(s);
    let t = trim_chars(&v);
    let mut out: Vec<char> = Vec::new();
    let mut last_was_underscore = false;
    let mut i: usize = 0;
    assert(t@.take(0) == Seq::<char>::empty());
    while i < t.len()
        invariant
            i <= t@.len(),
            out@ == squeeze(t@.take(i as int)),
            last_was_underscore == (i > 0 && !is_alnum(t@[i - 1])),
        decreases t.len() - i,
    {
        let c = t[i];
        let ghost p = t@.take(i + 1);
        assert(p.drop_last() == t@.take(i as int));
        assert(p.last() == c);
        assert(i >= 1 ==> p[p.len() - 2] == t@[i - 1]);
        if is_ascii_alnum(c) {
            out.push(c);
            last_was_underscore = false;
        } else if !last_was_underscore {
            out.push('_');
            last_was_underscore = true;
        }
        i = i + 1;
    }
    assert(t@.take(t.len() as int) == t@);
    let n = out.len();
    let mut lo: usize = 0;
    assert(out@.subrange(0, n as int) == out@);
    while lo < n && out[lo] == '_'
        invariant
            lo <= n == out@.len(),
            strip_us_start(out@.subrange(lo as int, n as int)) == strip_us_start(out@),
        decreases n - lo,
    {
        assert(out@.subrange(lo as int, n as int).drop_first() == out@.subrange(lo + 1, n as int));
        lo = lo + 1;
    }
    let mut hi: usize = n;
    while hi > lo && out[hi - 1] == '_'
        invariant
            lo <= hi <= n == out@.len(),
            strip_us_end(out@.subrange(lo as int, hi as int)) == strip_us_end(
                out@.subrange(lo as int, n as int),
            ),
        decreases hi,
    {
        assert(out@.subrange(lo as int, hi as int).drop_last() == out@.subrange(lo as int, hi - 1));
        hi = hi - 1;
    }
    let r = copy_range(&out, lo, hi);
    string_of(&r)
}

// ---------------------------------------------------------------------------
// What a problem identifier looks like
// ---------------------------------------------------------------------------

/// Only ASCII letters, digits and underscores; no underscore at either end
/// and never two in a row.
pub open spec fn is_identifier(s: Seq<char>) -> bool {
    &&& forall|i: int| 0 <= i < s.len() ==> is_alnum(#[trigger] s[i]) || s[i] == '_'
    &&& forall|i: int| 0 <= i < s.len() - 1 ==> !(#[trigger] s[i] == '_' && s[i + 1] == '_')
    &&& s.len() > 0 ==> s[0] != '_' && s.last() != '_'
}

proof fn lemma_squeeze_shape(t: Seq<char>)
    ensures
        forall|i: int| 0 <= i < squeeze(t).len() ==> is_alnum(#[trigger] squeeze(t)[i]) || squeeze(t)[i] == '_',
        forall|i: int| 0 <= i < squeeze(t).len() - 1 ==> !(#[trigger] squeeze(t)[i] == '_' && squeeze(t)[i + 1] == '_'),
        t.len() > 0 && is_alnum(t.last()) ==> squeeze(t).len() > 0 && squeeze(t).last() == t.last(),
        t.len() > 0 ==> squeeze(t).len() > 0,
    decreases t.len(),
{
    if t.len() > 0 {
        let prev = squeeze(t.drop_last());
        lemma_squeeze_shape(t.drop_last());
        let q = squeeze(t);
        if t.len() >= 2 {
            assert(t.drop_last().last() == t[t.len() - 2]);
        }
        assert forall|i: int| 0 <= i < q.len() implies is_alnum(#[trigger] q[i]) || q[i] == '_' by {
            if i < prev.len() {
                assert(q[i] == prev[i]);
            }
        }
        assert forall|i: int| 0 <= i < q.len() - 1 implies !(#[trigger] q[i] == '_' && q[i + 1] == '_') by {
            if i + 1 < prev.len() {
                assert(q[i] == prev[i]);
                assert(q[i + 1] == prev[i + 1]);
            } else if q.len() > prev.len() {
                assert(q[i] == prev[i]);
                assert(q[i] == prev.last());
            }
        }
    }
}

proof fn lemma_strip_start_shape(s: Seq<char>)
    ensures
        exists|k: int| 0 <= k <= s.len() && strip_us_start(s) == #[trigger] s.skip(k),
        strip_us_start(s).len() > 0 ==> strip_us_start(s)[0] != '_',
    decreases s.len(),
{
    if s.len() > 0 && s[0] == '_' {
        lemma_strip_start_shape(s.drop_first());
        let k = choose|k: int| 0 <= k <= s.drop_first().len() && strip_us_start(s.drop_first()) == #[trigger] s.drop_first().skip(k);
        assert(s.drop_first().skip(k) == s.skip(k + 1));
    } else {
        assert(s.skip(0) == s);
    }
}

proof fn lemma_strip_end_shape(s: Seq<char>)
    ensures
        exists|k: int| 0 <= k <= s.len() && strip_us_end(s) == #[trigger] s.take(k),
        strip_us_end(s).len() > 0 ==> strip_us_end(s).last() != '_',
    decreases s.len(),
{
    if s.len() > 0 && s.last() == '_' {
        lemma_strip_end_shape(s.drop_last());
        let k = choose|k: int| 0 <= k <= s.drop_last().len() && strip_us_end(s.drop_last()) == #[trigger] s.drop_last().take(k);
        assert(s.drop_last().take(k) == s.take(k));
    } else {
        assert(s.take(s.len() as int) == s);
    }
}

/// A problem identifier consists of ASCII letters, digits and single
/// underscores between them.
pub proof fn lemma_sanitized_is_identifier(s: Seq<char>)
    ensures
        is_identifier(sanitized(s)),
{
    let q = squeeze(trim(s));
    lemma_squeeze_shape(trim(s));
    lemma_strip_start_shape(q);
    let a = strip_us_start(q);
    let k1 = choose|k: int| 0 <= k <= q.len() && a == #[trigger] q.skip(k);
    lemma_strip_end_shape(a);
    let r = strip_us_end(a);
    let k2 = choose|k: int| 0 <= k <= a.len() && r == #[trigger] a.take(k);
    assert forall|i: int| 0 <= i < r.len() implies r[i] == q[i + k1] by {
        assert(r[i] == a[i]);
        assert(a[i] == q[i + k1]);
    }
    assert forall|i: int| 0 <= i < r.len() implies is_alnum(#[trigger] r[i]) || r[i] == '_' by {
        assert(r[i] == q[i + k1]);
    }
    assert forall|i: int| 0 <= i < r.len() - 1 implies !(#[trigger] r[i] == '_' && r[i + 1] == '_') by {
        assert(r[i] == q[i + k1]);
        assert(r[i + 1] == q[i + 1 + k1]);
    }
    if r.len() > 0 {
        assert(r[0] == a[0]);
    }
}

proof fn lemma_identifier_fixed(s: Seq<char>)
    requires
        is_identifier(s),
    ensures
        trim_end(s) == s,
        trim_start(s) == s,
        squeeze(s) == s,
        strip_us_start(s) == s,
        strip_us_end(s) == s,
    decreases s.len(),
{
    if s.len() > 0 {
        let p = s.drop_last();
        assert(is_identifier(p) || (p.len() > 0 && p.last() == '_')) by {
            assert forall|i: int| 0 <= i < p.len() implies is_alnum(#[trigger] p[i]) || p[i] == '_' by {
                assert(p[i] == s[i]);
            }
            assert forall|i: int| 0 <= i < p.len() - 1 implies !(#[trigger] p[i] == '_' && p[i + 1] == '_') by {
                assert(p[i] == s[i]);
                assert(p[i + 1] == s[i + 1]);
            }
        }
        assert(!is_ws(s.last()));
        assert(!is_ws(s[0]));
        lemma_squeeze_prefix(s, s.len() as int);
        assert(s.take(s.len() as int) == s);
    }
}

/// Every prefix of an identifier-shaped text (no two underscores in a row,
/// only letters, digits and underscores) is left unchanged by [`squeeze`].
proof fn lemma_squeeze_prefix(s: Seq<char>, n: int)
    requires
        0 <= n <= s.len(),
        forall|i: int| 0 <= i < s.len() ==> is_alnum(#[trigger] s[i]) || s[i] == '_',
        forall|i: int| 0 <= i < s.len() - 1 ==> !(#[trigger] s[i] == '_' && s[i + 1] == '_'),
        s.len() > 0 ==> s[0] != '_',
    ensures
        squeeze(s.take(n)) == s.take(n),
    decreases n,
{
    if n > 0 {
        lemma_squeeze_prefix(s, n - 1);
        let t = s.take(n);
        assert(t.drop_last() == s.take(n - 1));
        assert(t.last() == s[n - 1]);
        if !is_alnum(s[n - 1]) {
            assert(s[n - 1] == '_');
            if n >= 2 {
                assert(t[n - 2] == s[n - 2]);
                assert(!(s[n - 2] == '_' && s[n - 1] == '_'));
            }
        }
        assert(s.take(n - 1).push(s[n - 1]) == t);
    }
}

/// Making an identifier of an identifier changes nothing, so sanitising
/// twice is sanitising once.
pub proof fn lemma_sanitize_idempotent(s: Seq<char>)
    ensures
        sanitized(sanitized(s)) == sanitized(s),
{
    let r = sanitized(s);
    lemma_sanitized_is_identifier(s);
    lemma_identifier_fixed(r);
}

// ---------------------------------------------------------------------------
// Titles that sanitising keeps
// ---------------------------------------------------------------------------

/// An ASCII digit or an ASCII letter, upper or lower case.
pub open spec fn ascii_letter_or_digit(c: char) -> bool {
    ||| '0' <= c && c <= '9'
    ||| 'A' <= c && c <= 'Z'
    ||| 'a' <= c && c <= 'z'
}

/// The letters and digits that identifiers keep are exactly the ASCII
/// digits and letters, from `0` to `9`, `A` to `Z` and `a` to `z`.
pub proof fn lemma_kept_characters(c: char)
    ensures
        is_alnum(c) <==> ascii_letter_or_digit(c),
{
}

/// A title of ASCII letters and digits with single spaces between words.
pub open spec fn plain_title(s: Seq<char>) -> bool {
    &&& forall|i: int| 0 <= i < s.len() ==> ascii_letter_or_digit(#[trigger] s[i]) || s[i] == ' '
    &&& forall|i: int| 0 <= i < s.len() - 1 ==> !(#[trigger] s[i] == ' ' && s[i + 1] == ' ')
    &&& s.len() > 0 ==> ascii_letter_or_digit(s[0]) && ascii_letter_or_digit(s.last())
}

/// `s` with each space made an underscore.
pub open spec fn spaces_to_underscores(s: Seq<char>) -> Seq<char> {
    s.map_values(|c: char| if c == ' ' { '_' } else { c })
}

proof fn lemma_squeeze_plain_prefix(s: Seq<char>, n: int)
    requires
        plain_title(s),
        0 <= n <= s.len(),
    ensures
        squeeze(s.take(n)) == spaces_to_underscores(s).take(n),
    decreases n,
{
    let m = spaces_to_underscores(s);
    if n == 0 {
        assert(m.take(0) == Seq::<char>::empty());
    } else {
        lemma_squeeze_plain_prefix(s, n - 1);
        let t = s.take(n);
        assert(t.drop_last() == s.take(n - 1));
        assert(t.last() == s[n - 1]);
        assert(m.take(n) == m.take(n - 1).push(m[n - 1]));
        let c = s[n - 1];
        lemma_kept_characters(c);
        if c == ' ' {
            assert(n >= 2) by {
                if n == 1 {
                    assert(ascii_letter_or_digit(s[0]));
                }
            }
            let d = s[n - 2];
            assert(t[n - 2] == d);
            assert(!(s[n - 2] == ' ' && s[n - 1] == ' '));
            assert(ascii_letter_or_digit(d) || d == ' ');
            lemma_kept_characters(d);
        }
    }
}

/// Sanitising a title of ASCII letters and digits with single spaces
/// between words keeps every letter and digit and makes each space an
/// underscore: "A Pizza" becomes "A_Pizza".
pub proof fn lemma_sanitize_plain_title(s: Seq<char>)
    requires
        plain_title(s),
    ensures
        sanitized(s) == spaces_to_underscores(s),
        sanitized(s).len() == s.len(),
        forall|i: int| 0 <= i < s.len() && s[i] != ' ' ==> #[trigger] sanitized(s)[i] == s[i],
{
    let m = spaces_to_underscores(s);
    if s.len() > 0 {
        lemma_kept_characters(s[0]);
        lemma_kept_characters(s.last());
        assert(!is_ws(s.last()));
        assert(!is_ws(s[0]));
    }
    assert(trim_end(s) == s);
    assert(trim_start(s) == s);
    assert(trim(s) == s);
    lemma_squeeze_plain_prefix(s, s.len() as int);
    assert(s.take(s.len() as int) == s);
    assert(m.take(s.len() as int) == m);
    if s.len() > 0 {
        assert(m[0] == s[0]);
        assert(m.last() == s.last());
    }
    assert(strip_us_start(m) == m);
    assert(strip_us_end(m) == m);
}

} // verus!
