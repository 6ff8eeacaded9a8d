//! Verified character-sequence utilities.
//!
//! Station identifiers and display names are Unicode text; the routines here
//! work on `Vec<char>` with contracts over the corresponding `Seq<char>`
//! views, so that the identifier grammar and the resolver's matching rules
//! can be stated exactly.

use vstd::prelude::*;

verus! {

/// Collects the characters of a string slice into a vector.
pub fn chars_vec(s: &str) -> (r: Vec<char>)
    ensures
        r@ == s@,
{
    let n = s.unicode_len();
    let mut r: Vec<char> = Vec::new();
    let mut i: usize = 0;
    while i < n
        invariant
            n == s@.len(),
            i <= n,
            r@ == s@.take(i as int),
        decreases n - i,
    {
        r.push(s.get_char(i));
        i = i + 1;
        proof {
            assert(r@ =~= s@.take(i as int));
        }
    }
    proof {
        assert(s@.take(n as int) =~= s@);
    }
    r
}

/// Builds a `String` from a vector of characters.
///
/// Relies on `String`'s `FromIterator<char>` implementation: collecting an
/// iterator of characters yields the string of exactly those characters.
#[verifier::external_body]
pub(crate) fn string_from_chars(v: &Vec<char>) -> (r: String)
    ensures
        r@ == v@,
{
    v.iter().collect()
}

/// Equality of two character vectors.
pub fn chars_eq(a: &Vec<char>, b: &Vec<char>) -> (r: bool)
    ensures
        r == (a@ == b@),
{
    if a.len() != b.len() {
        return false;
    }
    let mut i: usize = 0;
    while i < a.len()
        invariant
            a@.len() == b@.len(),
            i <= a@.len(),
            forall|j: int| 0 <= j < i ==> a@[j] == b@[j],
        decreases a@.len() - i,
    {
        if a[i] != b[i] {
            return false;
        }
        i = i + 1;
    }
    proof {
        assert(a@ =~= b@);
    }
    true
}

/// Equality of two string slices.
pub fn str_eq(a: &str, b: &str) -> (r: bool)
    ensures
        r == (a@ == b@),
{
    let av = chars_vec(a);
    let bv = chars_vec(b);
    chars_eq(&av, &bv)
}

/// The Unicode lowercase mapping of one character: what
/// `char::to_lowercase` yields, one or more characters, a function of the
/// character alone.
pub uninterp spec fn spec_unicode_lower(c: char) -> Seq<char>;

/// The lower-case form of a text: each character replaced by its Unicode
/// lowercase mapping, in order.
pub open spec fn spec_lower(s: Seq<char>) -> Seq<char>
    decreases s.len(),
{
    if s.len() == 0 {
        Seq::empty()
    } else {
        spec_unicode_lower(s.first()) + spec_lower(s.drop_first())
    }
}

/// Lower-cases one character.
///
/// Relies on char::to_lowercase: the Unicode lowercase mapping of the
/// character, one or more characters, depending on the character alone.
/// Among ASCII it folds exactly the letters A to Z; the macron vowels that
/// station romanizations use lower to their single lower-case forms, which
/// in turn stay as they are.
#[verifier::external_body]
fn lower_char(c: char) -> (r: Vec<char>)
    ensures
        r@ == spec_unicode_lower(c),
        ('A' <= c && c <= 'Z') ==> r@ == seq![(((c as u8) + 32) as char)],
        ((c as u32) < 128 && !('A' <= c && c <= 'Z')) ==> r@ == seq![c],
        c == '\u{100}' ==> r@ == seq!['\u{101}'],
        c == '\u{112}' ==> r@ == seq!['\u{113}'],
        c == '\u{12a}' ==> r@ == seq!['\u{12b}'],
        c == '\u{14c}' ==> r@ == seq!['\u{14d}'],
        c == '\u{16a}' ==> r@ == seq!['\u{16b}'],
        c == '\u{101}' ==> r@ == seq!['\u{101}'],
        c == '\u{113}' ==> r@ == seq!['\u{113}'],
        c == '\u{12b}' ==> r@ == seq!['\u{12b}'],
        c == '\u{14d}' ==> r@ == seq!['\u{14d}'],
        c == '\u{16b}' ==> r@ == seq!['\u{16b}'],
{
    c.to_lowercase().collect()
}

/// Lowering distributes over appending one character.
proof fn lemma_lower_push(s: Seq<char>, c: char)
    ensures
        spec_lower(s.push(c)) == spec_lower(s) + spec_unicode_lower(c),
    decreases s.len(),
{
    if s.len() == 0 {
        assert(s.push(c).first() == c);
        assert(s.push(c).drop_first() =~= Seq::<char>::empty());
        assert(spec_lower(Seq::<char>::empty()) == Seq::<char>::empty());
        assert(spec_lower(s.push(c)) == spec_unicode_lower(c) + Seq::<char>::empty());
        assert(spec_unicode_lower(c) + Seq::<char>::empty() =~= spec_unicode_lower(c));
        assert(spec_lower(s) == Seq::<char>::empty());
        assert(Seq::<char>::empty() + spec_unicode_lower(c) =~= spec_unicode_lower(c));
    } else {
        assert(s.push(c).first() == s.first());
        assert(s.push(c).drop_first() =~= s.drop_first().push(c));
        lemma_lower_push(s.drop_first(), c);
        assert(spec_lower(s.push(c)) == spec_unicode_lower(s.first()) + spec_lower(
            s.drop_first().push(c),
        ));
        assert(spec_lower(s) == spec_unicode_lower(s.first()) + spec_lower(s.drop_first()));
        assert(spec_unicode_lower(s.first()) + (spec_lower(s.drop_first()) + spec_unicode_lower(c))
            =~= (spec_unicode_lower(s.first()) + spec_lower(s.drop_first()))
            + spec_unicode_lower(c));
    }
}

/// Lower-cases a text.
pub fn lower_chars(v: &Vec<char>) -> (r: Vec<char>)
    ensures
        r@ == spec_lower(v@),
{
    let mut r: Vec<char> = Vec::new();
    let mut i: usize = 0;
    proof {
        assert(v@.take(0) =~= Seq::<char>::empty());
    }
    while i < v.len()
        invariant
            i <= v@.len(),
            r@ == spec_lower(v@.take(i as int)),
        decreases v@.len() - i,
    {
        let piece = lower_char(v[i]);
        r.extend_from_slice(piece.as_slice());
        i = i + 1;
        proof {
            lemma_lower_push(v@.take(i - 1), v@[i - 1]);
            assert(v@.take(i as int) =~= v@.take(i - 1).push(v@[i - 1]));
        }
    }
    proof {
        assert(v@.take(v@.len() as int) =~= v@);
    }
    r
}

/// Whether a character is blank by Unicode's White_Space property: what
/// `char::is_whitespace` returns, a function of the character alone.
pub uninterp spec fn spec_is_space(c: char) -> bool;

/// Whether a character is blank.
///
/// Relies on char::is_whitespace: true exactly for Unicode's White_Space
/// characters, which among ASCII are the space, tab, line feed, carriage
/// return, and the vertical-tab and form-feed controls, and nothing else.
#[verifier::external_body]
pub fn is_space(c: char) -> (r: bool)
    ensures
        r == spec_is_space(c),
        (c == ' ' || c == '\t' || c == '\n' || c == '\r') ==> r,
        ((c as u32) < 128 && !(c == ' ' || c == '\t' || c == '\n' || c == '\r' || c == '\u{b}'
            || c == '\u{c}')) ==> !r,
{
    c.is_whitespace()
}

/// A text with its leading blanks removed.
pub open spec fn spec_trim_start(s: Seq<char>) -> Seq<char>
    decreases s.len(),
{
    if s.len() > 0 && spec_is_space(s.first()) {
        spec_trim_start(s.drop_first())
    } else {
        s
    }
}

/// A text with its trailing blanks removed.
pub open spec fn spec_trim_end(s: Seq<char>) -> Seq<char>
    decreases s.len(),
{
    if s.len() > 0 && spec_is_space(s.last()) {
        spec_trim_end(s.drop_last())
    } else {
        s
    }
}

/// A text with leading and trailing blanks removed.
pub open spec fn spec_trim(s: Seq<char>) -> Seq<char> {
    spec_trim_end(spec_trim_start(s))
}

/// Trims leading and trailing blanks.
pub fn trim_chars(v: &Vec<char>) -> (r: Vec<char>)
    ensures
        r@ == spec_trim(v@),
{
    proof {
        assert(v@.skip(0) =~= v@);
    }
    let mut start: usize = 0;
    while start < v.len() && is_space(v[start])
        invariant
            start <= v@.len(),
            spec_trim_start(v@) == spec_trim_start(v@.skip(start as int)),
        decreases v@.len() - start,
    {
        proof {
            assert(v@.skip(start as int).drop_first() =~= v@.skip(start as int + 1));
        }
        start = start + 1;
    }
    proof {
        assert(spec_trim_start(v@) == v@.skip(start as int));
    }
    let mut end: usize = v.len();
    proof {
        assert(v@.skip(start as int).take(end - start) =~= v@.skip(start as int));
    }
    while end > start && is_space(v[end - 1])
        invariant
            start <= end <= v@.len(),
            spec_trim_start(v@) == v@.skip(start as int),
            spec_trim_end(v@.skip(start as int)) == spec_trim_end(
                v@.skip(start as int).take(end - start),
            ),
        decreases end,
    {
        proof {
            let cur = v@.skip(start as int).take(end - start);
            assert(cur.last() == v@[end - 1]);
            assert(cur.drop_last() =~= v@.skip(start as int).take(end - 1 - start));
        }
        end = end - 1;
    }
    proof {
        let cur = v@.skip(start as int).take(end - start);
        if end > start {
            assert(cur.last() == v@[end - 1]);
        }
        assert(spec_trim_end(cur) == cur);
    }
    let mut r: Vec<char> = Vec::new();
    let mut i: usize = start;
    while i < end
        invariant
            start <= i <= end <= v@.len(),
            r@ == v@.subrange(start as int, i as int),
        decreases end - i,
    {
        r.push(v[i]);
        i = i + 1;
        proof {
            assert(r@ =~= v@.subrange(start as int, i as int));
        }
    }
    proof {
        assert(v@.subrange(start as int, end as int) =~= v@.skip(start as int).take(end - start));
    }
    r
}

/// Whether `p` is a prefix of `s`.
pub open spec fn spec_starts_with(s: Seq<char>, p: Seq<char>) -> bool {
    p.len() <= s.len() && s.take(p.len() as int) == p
}

/// Whether `p` is a suffix of `s`.
pub open spec fn spec_ends_with(s: Seq<char>, p: Seq<char>) -> bool {
    p.len() <= s.len() && s.skip(s.len() - p.len()) == p
}

/// Tests whether `s` starts with `p`.
pub fn starts_with_chars(s: &Vec<char>, p: &Vec<char>) -> (r: bool)
    ensures
        r == spec_starts_with(s@, p@),
{
    if p.len() > s.len() {
        return false;
    }
    let mut i: usize = 0;
    while i < p.len()
        invariant
            p@.len() <= s@.len(),
            i <= p@.len(),
            forall|j: int| 0 <= j < i ==> s@[j] == p@[j],
        decreases p@.len() - i,
    {
        if s[i] != p[i] {
            proof {
                assert(s@.take(p@.len() as int)[i as int] != p@[i as int]);
            }
            return false;
        }
        i = i + 1;
    }
    proof {
        assert(s@.take(p@.len() as int) =~= p@);
    }
    true
}

/// Tests whether `s` ends with `p`.
pub fn ends_with_chars(s: &Vec<char>, p: &Vec<char>) -> (r: bool)
    ensures
        r == spec_ends_with(s@, p@),
{
    if p.len() > s.len() {
        return false;
    }
    let slen: usize = s.len();
    let off: usize = slen - p.len();
    let mut i: usize = 0;
    while i < p.len()
        invariant
            p@.len() <= s@.len(),
            slen == s@.len(),
            off == s@.len() - p@.len(),
            i <= p@.len(),
            forall|j: int| 0 <= j < i ==> s@[off + j] == p@[j],
        decreases p@.len() - i,
    {
        if s[off + i] != p[i] {
            proof {
                assert(s@.skip(off as int)[i as int] != p@[i as int]);
            }
            return false;
        }
        i = i + 1;
    }
    proof {
        assert(s@.skip(off as int) =~= p@);
    }
    true
}

/// Whether `n` occurs in `h` as a contiguous run.
pub open spec fn spec_contains(h: Seq<char>, n: Seq<char>) -> bool {
    exists|i: int| 0 <= i <= h.len() - n.len() && #[trigger] h.subrange(i, i + n.len()) == n
}

/// Tests whether `n` occurs in `h`.
pub fn contains_chars(h: &Vec<char>, n: &Vec<char>) -> (r: bool)
    ensures
        r == spec_contains(h@, n@),
{
    if n.len() > h.len() {
        return false;
    }
    let hlen: usize = h.len();
    let nlen: usize = n.len();
    if nlen == 0 {
        proof {
            assert(h@.subrange(0, 0 + n@.len() as int) =~= n@);
        }
        return true;
    }
    let mut i: usize = 0;
    while i <= hlen - nlen
        invariant
            hlen == h@.len(),
            nlen == n@.len(),
            1 <= n@.len() <= h@.len(),
            i <= h@.len() - n@.len() + 1,
            forall|k: int| 0 <= k < i ==> #[trigger] h@.subrange(k, k + n@.len()) != n@,
        decreases h@.len() - i,
    {
        let mut j: usize = 0;
        let mut hit = true;
        while j < nlen
            invariant
                hlen == h@.len(),
                nlen == n@.len(),
                i + n@.len() <= h@.len(),
                j <= n@.len(),
                hit == (forall|t: int| 0 <= t < j ==> h@[i + t] == n@[t]),
            decreases n@.len() - j,
        {
            if h[i + j] != n[j] {
                hit = false;
                proof {
                    assert(h@[i + j] != n@[j as int]);
                }
                j = nlen;
            } else {
                j = j + 1;
            }
        }
        if hit {
            proof {
                assert(h@.subrange(i as int, i + n@.len()) =~= n@);
            }
            return true;
        }
        proof {
            if h@.subrange(i as int, i + n@.len()) == n@ {
                assert(forall|t: int|
                    0 <= t < n@.len() ==> h@[i + t] == #[trigger] h@.subrange(
                        i as int,
                        i + n@.len(),
                    )[t]);
            }
        }
        i = i + 1;
    }
    false
}

/// Index of the first occurrence of `sep` in `s`, or -1 if there is none.
pub open spec fn spec_find(s: Seq<char>, sep: char) -> int
    decreases s.len(),
{
    if s.len() == 0 {
        -1
    } else if s[0] == sep {
        0
    } else {
        let r = spec_find(s.drop_first(), sep);
        if r < 0 {
            -1
        } else {
            r + 1
        }
    }
}

pub proof fn lemma_find_bounds(s: Seq<char>, sep: char)
    ensures
        spec_find(s, sep) == -1 || (0 <= spec_find(s, sep) < s.len() && s[spec_find(s, sep)]
            == sep),
        spec_find(s, sep) == -1 ==> forall|j: int| 0 <= j < s.len() ==> s[j] != sep,
        forall|j: int| 0 <= j < spec_find(s, sep) ==> s[j] != sep,
    decreases s.len(),
{
    if s.len() > 0 && s[0] != sep {
        lemma_find_bounds(s.drop_first(), sep);
        assert(forall|j: int| 1 <= j < s.len() ==> s[j] == s.drop_first()[j - 1]);
    }
}

/// `s` without a first occurrence: if `a` is free of `sep`, the first
/// occurrence of `sep` in `a + [sep] + b` is at `a.len()`.
pub proof fn lemma_find_at(a: Seq<char>, b: Seq<char>, sep: char)
    requires
        forall|j: int| 0 <= j < a.len() ==> a[j] != sep,
    ensures
        spec_find(a + seq![sep] + b, sep) == a.len(),
    decreases a.len(),
{
    let s = a + seq![sep] + b;
    if a.len() == 0 {
        assert(s[0] == sep);
    } else {
        assert(s[0] == a[0]);
        lemma_find_at(a.drop_first(), b, sep);
        assert(s.drop_first() =~= a.drop_first() + seq![sep] + b);
    }
}

/// If `a` is free of `sep`, there is no occurrence at all.
pub proof fn lemma_find_free(a: Seq<char>, sep: char)
    requires
        forall|j: int| 0 <= j < a.len() ==> a[j] != sep,
    ensures
        spec_find(a, sep) == -1,
    decreases a.len(),
{
    if a.len() > 0 {
        lemma_find_free(a.drop_first(), sep);
    }
}

/// The pieces of `s` between occurrences of `sep`, in order; an empty text
/// yields one empty piece, and adjacent separators yield empty pieces.
pub open spec fn spec_split(s: Seq<char>, sep: char) -> Seq<Seq<char>>
    decreases s.len(),
{
    let i = spec_find(s, sep);
    if i < 0 || i >= s.len() {
        seq![s]
    } else {
        seq![s.take(i)] + spec_split(s.skip(i + 1), sep)
    }
}

/// Splits `s` at every occurrence of `sep`.
pub fn split_chars(s: &Vec<char>, sep: char) -> (r: Vec<Vec<char>>)
    ensures
        r.deep_view() == spec_split(s@, sep),
        r.len() >= 1,
{
    let mut r: Vec<Vec<char>> = Vec::new();
    let mut cur: Vec<char> = Vec::new();
    let mut i: usize = 0;
    proof {
        assert(cur@ + s@.skip(0) =~= s@);
    }
    while i < s.len()
        invariant
            i <= s@.len(),
            forall|j: int| 0 <= j < cur@.len() ==> cur@[j] != sep,
            spec_split(s@, sep) == r.deep_view() + spec_split(cur@ + s@.skip(i as int), sep),
        decreases s@.len() - i,
    {
        let c = s[i];
        if c == sep {
            proof {
                lemma_find_at(cur@, s@.skip(i as int + 1), sep);
                assert(cur@ + s@.skip(i as int) =~= cur@ + seq![sep] + s@.skip(i as int + 1));
                let w = cur@ + seq![sep] + s@.skip(i as int + 1);
                assert(w.take(cur@.len() as int) =~= cur@);
                assert(w.skip(cur@.len() as int + 1) =~= s@.skip(i as int + 1));
                assert(Seq::<char>::empty() + s@.skip(i as int + 1) =~= s@.skip(i as int + 1));
                assert(r.deep_view() + (seq![cur@] + spec_split(s@.skip(i as int + 1), sep))
                    =~~= (r.deep_view() + seq![cur@]) + spec_split(s@.skip(i as int + 1), sep));
            }
            let ghost old_r = r.deep_view();
            r.push(cur);
            proof {
                assert(r.deep_view() =~~= old_r + seq![cur@]);
            }
            cur = Vec::new();
        } else {
            proof {
                assert(cur@ + s@.skip(i as int) =~= cur@.push(c) + s@.skip(i as int + 1));
            }
            cur.push(c);
        }
        i = i + 1;
    }
    proof {
        lemma_find_free(cur@, sep);
        assert(cur@ + s@.skip(i as int) =~= cur@);
    }
    let ghost old_r = r.deep_view();
    r.push(cur);
    proof {
        assert(r.deep_view() =~~= old_r + seq![cur@]);
        assert(r.deep_view() =~~= spec_split(s@, sep));
    }
    r
}

/// `s` with every occurrence of `f` replaced by `t`, scanned left to right
/// without overlap; when `f` is empty, `s` is returned unchanged.
pub open spec fn spec_replace(s: Seq<char>, f: Seq<char>, t: Seq<char>) -> Seq<char>
    decreases s.len(),
{
    if f.len() == 0 || s.len() < f.len() {
        s
    } else if s.take(f.len() as int) == f {
        t + spec_replace(s.skip(f.len() as int), f, t)
    } else {
        seq![s[0]] + spec_replace(s.drop_first(), f, t)
    }
}

/// Whether `f` occurs in `s` at position `i`.
fn match_at(s: &Vec<char>, f: &Vec<char>, i: usize) -> (r: bool)
    requires
        i <= s@.len(),
    ensures
        r == (i + f@.len() <= s@.len() && s@.subrange(i as int, i + f@.len()) == f@),
{
    let slen = s.len();
    if f.len() > slen - i {
        return false;
    }
    let mut j: usize = 0;
    while j < f.len()
        invariant
            slen == s@.len(),
            i + f@.len() <= s@.len(),
            j <= f@.len(),
            forall|k: int| 0 <= k < j ==> s@[i + k] == f@[k],
        decreases f@.len() - j,
    {
        if s[i + j] != f[j] {
            proof {
                assert(s@.subrange(i as int, i + f@.len())[j as int] != f@[j as int]);
            }
            return false;
        }
        j = j + 1;
    }
    proof {
        assert(s@.subrange(i as int, i + f@.len()) =~= f@);
    }
    true
}

/// Replaces every occurrence of `f` in `s` by `t`, left to right.
pub fn replace_chars(s: &Vec<char>, f: &Vec<char>, t: &Vec<char>) -> (r: Vec<char>)
    ensures
        r@ == spec_replace(s@, f@, t@),
{
    if f.len() == 0 {
        let mut out: Vec<char> = Vec::new();
        out.extend_from_slice(s.as_slice());
        proof {
            assert(out@ =~= s@);
        }
        return out;
    }
    let mut out: Vec<char> = Vec::new();
    let mut i: usize = 0;
    proof {
        assert(s@.skip(0) =~= s@);
        assert(out@ + spec_replace(s@.skip(0), f@, t@) =~= spec_replace(s@, f@, t@));
    }
    while i < s.len()
        invariant
            f@.len() >= 1,
            i <= s@.len(),
            spec_replace(s@, f@, t@) == out@ + spec_replace(s@.skip(i as int), f@, t@),
        decreases s@.len() - i,
    {
        if match_at(s, f, i) {
            proof {
                assert(s@.skip(i as int).take(f@.len() as int) =~= s@.subrange(
                    i as int,
                    i + f@.len(),
                ));
                assert(s@.skip(i as int).skip(f@.len() as int) =~= s@.skip(i + f@.len()));
                assert(out@ + (t@ + spec_replace(s@.skip(i + f@.len()), f@, t@)) =~= (out@ + t@)
                    + spec_replace(s@.skip(i + f@.len()), f@, t@));
            }
            out.extend_from_slice(t.as_slice());
            i = i + f.len();
        } else {
            proof {
                let rest = s@.skip(i as int);
                assert(rest.len() >= 1 && rest[0] == s@[i as int]);
                if rest.len() >= f@.len() {
                    assert(rest.take(f@.len() as int) =~= s@.subrange(i as int, i + f@.len()));
                }
                assert(rest.drop_first() =~= s@.skip(i as int + 1));
                assert(out@ + (seq![s@[i as int]] + spec_replace(s@.skip(i as int + 1), f@, t@))
                    =~= out@.push(s@[i as int]) + spec_replace(s@.skip(i as int + 1), f@, t@));
            }
            out.push(s[i]);
            i = i + 1;
        }
    }
    proof {
        assert(s@.skip(i as int) =~= Seq::<char>::empty());
        assert(out@ + spec_replace(Seq::<char>::empty(), f@, t@) =~= out@);
    }
    out
}

} // verus!
