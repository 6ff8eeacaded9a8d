//! The station resolver: answers free-text, multilingual queries with
//! ranked canonical station identifiers, through four tiers evaluated in
//! order — exact identifier, exact name or alias, prefix, and edit-distance
//! — and localizes identifiers back to display names.
//!
//! Matching scans the dictionary in entry order, which makes every answer a
//! deterministic function of the dictionary and the query.

use vstd::prelude::*;
use crate::levenshtein::{levenshtein_distance, spec_levenshtein};
use crate::station_id::{extract_name_from_id, spec_extract_name_from_id};
use crate::text::{
    chars_vec, ends_with_chars, lower_chars, replace_chars, spec_ends_with, spec_lower,
    spec_replace, spec_starts_with, spec_trim, starts_with_chars, str_eq, string_from_chars,
    trim_chars,
};

verus! {

/// A station's display names by language.
pub struct StationNames {
    pub ja: String,
    pub en: String,
    pub zh: String,
}

/// One dictionary entry.
pub struct StationEntry {
    pub id: String,
    pub names: StationNames,
    pub aliases: Vec<String>,
    pub reading: String,
}

/// How a query matched.
#[derive(Clone, Copy, Debug, PartialEq, Eq, Structural)]
pub enum MatchKind {
    ExactId,
    ExactName,
    Prefix,
    Fuzzy(usize),
}

/// One ranked answer.  The confidence is the exact rational
/// `confidence_num / confidence_den`, between 0 and 1.
pub struct ResolvedStation {
    pub query: String,
    pub matched_id: String,
    pub confidence_num: u64,
    pub confidence_den: u64,
    pub match_type: MatchKind,
}

/// The indexable keys of one entry: its non-empty names and all its
/// aliases, lower-cased, in field order.
pub open spec fn spec_station_keys(st: StationEntry) -> Seq<Seq<char>> {
    (if st.names.ja@.len() > 0 {
        seq![spec_lower(st.names.ja@)]
    } else {
        Seq::<Seq<char>>::empty()
    }) + (
    if st.names.en@.len() > 0 {
        seq![spec_lower(st.names.en@)]
    } else {
        Seq::<Seq<char>>::empty()
    }) + (
    if st.names.zh@.len() > 0 {
        seq![spec_lower(st.names.zh@)]
    } else {
        Seq::<Seq<char>>::empty()
    }) + st.aliases@.map_values(|a: String| spec_lower(a@))
}

/// Whether an entry carries `key` among its keys.
pub open spec fn spec_has_key(st: StationEntry, key: Seq<char>) -> bool {
    exists|ki: int|
        0 <= ki < spec_station_keys(st).len() && #[trigger] spec_station_keys(st)[ki] == key
}

/// Whether some key of the entry starts with `q`.
pub open spec fn spec_has_prefix_key(st: StationEntry, q: Seq<char>) -> bool {
    exists|ki: int|
        0 <= ki < spec_station_keys(st).len() && spec_starts_with(
            #[trigger] spec_station_keys(st)[ki],
            q,
        )
}

/// Whether some key of the entry is within edit distance `d` of `q`.
pub open spec fn spec_has_key_at_distance(st: StationEntry, q: Seq<char>, d: int) -> bool {
    exists|ki: int|
        0 <= ki < spec_station_keys(st).len() && spec_levenshtein(
            q,
            #[trigger] spec_station_keys(st)[ki],
        ) == d
}

/// Whether some key of the entry is within edit distance 2 of `q`.
pub open spec fn spec_has_fuzzy_key(st: StationEntry, q: Seq<char>) -> bool {
    exists|ki: int|
        0 <= ki < spec_station_keys(st).len() && spec_levenshtein(
            q,
            #[trigger] spec_station_keys(st)[ki],
        ) <= 2
}

/// Builds the indexable keys of one entry.
fn station_keys(st: &StationEntry) -> (r: Vec<String>)
    ensures
        r.deep_view() == spec_station_keys(*st),
{
    let mut r: Vec<String> = Vec::new();
    if st.names.ja.unicode_len() > 0 {
        r.push(lower_string(st.names.ja.as_str()));
    }
    if st.names.en.unicode_len() > 0 {
        r.push(lower_string(st.names.en.as_str()));
    }
    if st.names.zh.unicode_len() > 0 {
        r.push(lower_string(st.names.zh.as_str()));
    }
    let ghost base = r.deep_view();
    let mut a: usize = 0;
    while a < st.aliases.len()
        invariant
            a <= st.aliases@.len(),
            r.deep_view() == base + st.aliases@.take(a as int).map_values(
                |x: String| spec_lower(x@),
            ),
        decreases st.aliases@.len() - a,
    {
        let ghost pre = r.deep_view();
        r.push(lower_string(st.aliases[a].as_str()));
        a = a + 1;
        proof {
            assert(r.deep_view() =~~= pre.push(spec_lower(st.aliases@[a - 1]@)));
            assert(r.deep_view() =~~= base + st.aliases@.take(a as int).map_values(
                |x: String| spec_lower(x@),
            ));
        }
    }
    proof {
        assert(st.aliases@.take(st.aliases@.len() as int) =~= st.aliases@);
        assert(r.deep_view() =~~= spec_station_keys(*st));
    }
    r
}

/// Lower-cases a text.
pub fn lower_string(s: &str) -> (r: String)
    ensures
        r@ == spec_lower(s@),
{
    let cs = chars_vec(s);
    let low = lower_chars(&cs);
    string_from_chars(&low)
}

/// One suffix-stripping pass: when the text ends with the given suffix, the
/// suffix is removed and the remainder trimmed; otherwise the text is kept.
pub open spec fn spec_strip_suffix(s: Seq<char>, suf: Seq<char>) -> Seq<char> {
    if spec_ends_with(s, suf) {
        spec_trim(s.take(s.len() - suf.len()))
    } else {
        s
    }
}

/// A query or name brought to matching form: lower-cased; the station
/// suffixes stripped in order when present at the end; macron vowels
/// replaced by their plain forms; trimmed.
pub open spec fn spec_normalize_for_matching(s: Seq<char>) -> Seq<char> {
    let l = spec_lower(s);
    let l = spec_strip_suffix(l, "\u{99c5}"@);
    let l = spec_strip_suffix(l, "station"@);
    let l = spec_strip_suffix(l, "sta."@);
    let l = spec_strip_suffix(l, "sta"@);
    let l = spec_strip_suffix(l, "\u{7ad9}"@);
    let l = spec_strip_suffix(l, "\u{9a5b}"@);
    let l = spec_replace(l, "\u{14d}"@, "o"@);
    let l = spec_replace(l, "\u{16b}"@, "u"@);
    let l = spec_replace(l, "\u{101}"@, "a"@);
    let l = spec_replace(l, "\u{12b}"@, "i"@);
    let l = spec_replace(l, "\u{113}"@, "e"@);
    spec_trim(l)
}

/// Strips one suffix when present, trimming the remainder.
fn strip_suffix_chars(v: Vec<char>, suf: &str) -> (r: Vec<char>)
    ensures
        r@ == spec_strip_suffix(v@, suf@),
{
    let sufc = chars_vec(suf);
    if ends_with_chars(&v, &sufc) {
        let mut cut = v;
        let keep = cut.len() - sufc.len();
        cut.truncate(keep);
        proof {
            assert(cut@ =~= v@.take(v@.len() - suf@.len()));
        }
        trim_chars(&cut)
    } else {
        v
    }
}

/// Normalizes text for matching.
pub fn normalize_for_matching(text: &str) -> (r: String)
    ensures
        r@ == spec_normalize_for_matching(text@),
{
    let cs = chars_vec(text);
    let l = lower_chars(&cs);
    let l = strip_suffix_chars(l, "\u{99c5}");
    let l = strip_suffix_chars(l, "station");
    let l = strip_suffix_chars(l, "sta.");
    let l = strip_suffix_chars(l, "sta");
    let l = strip_suffix_chars(l, "\u{7ad9}");
    let l = strip_suffix_chars(l, "\u{9a5b}");
    let l = replace_chars(&l, &chars_vec("\u{14d}"), &chars_vec("o"));
    let l = replace_chars(&l, &chars_vec("\u{16b}"), &chars_vec("u"));
    let l = replace_chars(&l, &chars_vec("\u{101}"), &chars_vec("a"));
    let l = replace_chars(&l, &chars_vec("\u{12b}"), &chars_vec("i"));
    let l = replace_chars(&l, &chars_vec("\u{113}"), &chars_vec("e"));
    let t = trim_chars(&l);
    string_from_chars(&t)
}

/// Index of the last dictionary entry whose lower-cased identifier is `ql`,
/// or -1 when there is none.
pub open spec fn spec_last_id_match(st: Seq<StationEntry>, ql: Seq<char>) -> int
    decreases st.len(),
{
    if st.len() == 0 {
        -1
    } else if spec_lower(st.last().id@) == ql {
        st.len() - 1
    } else {
        spec_last_id_match(st.drop_last(), ql)
    }
}

pub proof fn lemma_last_id_match(st: Seq<StationEntry>, ql: Seq<char>)
    ensures
        -1 <= spec_last_id_match(st, ql) < st.len(),
        spec_last_id_match(st, ql) >= 0 ==> spec_lower(st[spec_last_id_match(st, ql)].id@) == ql,
        spec_last_id_match(st, ql) == -1 ==> forall|i: int|
            0 <= i < st.len() ==> spec_lower(#[trigger] st[i].id@) != ql,
        forall|i: int|
            spec_last_id_match(st, ql) < i < st.len() ==> spec_lower(#[trigger] st[i].id@) != ql,
    decreases st.len(),
{
    if st.len() > 0 && spec_lower(st.last().id@) != ql {
        lemma_last_id_match(st.drop_last(), ql);
        assert(forall|i: int| 0 <= i < st.len() - 1 ==> st[i] == st.drop_last()[i]);
    }
}

/// Index of the last dictionary entry whose lower-cased identifier is the
/// query, scanning forward and keeping the latest hit.
#[verifier::loop_isolation(false)]
fn tier_exact_id(stations: &Vec<StationEntry>, ql: &String) -> (r: Option<usize>)
    ensures
        spec_last_id_match(stations@, ql@) >= 0 ==> r == Some(
            spec_last_id_match(stations@, ql@) as usize,
        ),
        spec_last_id_match(stations@, ql@) == -1 ==> r is None,
{
    let mut best: Option<usize> = None;
    let mut i: usize = 0;
    proof {
        assert(stations@.take(0) =~= Seq::<StationEntry>::empty());
    }
    while i < stations.len()
        invariant
            i <= stations@.len(),
            match best {
                Some(b) => b < i && spec_last_id_match(stations@.take(i as int), ql@) == b,
                None => spec_last_id_match(stations@.take(i as int), ql@) == -1,
            },
        decreases stations@.len() - i,
    {
        let low = lower_string(stations[i].id.as_str());
        proof {
            let pre = stations@.take(i + 1);
            assert(pre.drop_last() =~= stations@.take(i as int));
            assert(pre.last() == stations@[i as int]);
        }
        if str_eq(low.as_str(), ql.as_str()) {
            best = Some(i);
        }
        i = i + 1;
    }
    proof {
        assert(stations@.take(stations@.len() as int) =~= stations@);
    }
    best
}

/// Entries carrying exactly the key `qn`, in dictionary order, one hit per
/// matching key, up to `mr` hits.
#[verifier::loop_isolation(false)]
fn tier_exact_name(stations: &Vec<StationEntry>, qn: &String, mr: usize) -> (r: Vec<usize>)
    ensures
        r@.len() <= mr,
        forall|k: int|
            0 <= k < r@.len() ==> (#[trigger] r@[k]) < stations@.len() && spec_has_key(
                stations@[r@[k] as int],
                qn@,
            ),
        (mr > 0 && exists|i: int|
            0 <= i < stations@.len() && spec_has_key(#[trigger] stations@[i], qn@)) ==> r@.len()
            >= 1,
{
    let mut r: Vec<usize> = Vec::new();
    let mut i: usize = 0;
    while i < stations.len()
        invariant
            i <= stations@.len(),
            r@.len() <= mr,
            forall|k: int|
                0 <= k < r@.len() ==> (#[trigger] r@[k]) < stations@.len() && spec_has_key(
                    stations@[r@[k] as int],
                    qn@,
                ),
            mr > 0 && r@.len() == 0 ==> forall|i2: int|
                0 <= i2 < i ==> !spec_has_key(#[trigger] stations@[i2], qn@),
        decreases stations@.len() - i,
    {
        let keys = station_keys(&stations[i]);
        let mut j: usize = 0;
        while j < keys.len()
            invariant
                i < stations@.len(),
                j <= keys@.len(),
                keys.deep_view() == spec_station_keys(stations@[i as int]),
                keys@.len() == keys.deep_view().len(),
                r@.len() <= mr,
                forall|k: int|
                    0 <= k < r@.len() ==> (#[trigger] r@[k]) < stations@.len() && spec_has_key(
                        stations@[r@[k] as int],
                        qn@,
                    ),
                mr > 0 && r@.len() == 0 ==> forall|i2: int|
                    0 <= i2 < i ==> !spec_has_key(#[trigger] stations@[i2], qn@),
                mr > 0 && r@.len() == 0 ==> forall|kj: int|
                    0 <= kj < j ==> #[trigger] spec_station_keys(stations@[i as int])[kj] != qn@,
            decreases keys@.len() - j,
        {
            proof {
                assert(keys@[j as int]@ == keys.deep_view()[j as int]);
            }
            if str_eq(keys[j].as_str(), qn.as_str()) {
                if r.len() < mr {
                    r.push(i);
                }
            }
            j = j + 1;
        }
        i = i + 1;
    }
    r
}

/// Entries with a key starting with `qn`, in dictionary order, one hit per
/// matching key, up to `mr` hits.
#[verifier::loop_isolation(false)]
fn tier_prefix(stations: &Vec<StationEntry>, qn: &Vec<char>, mr: usize) -> (r: Vec<usize>)
    ensures
        r@.len() <= mr,
        forall|k: int|
            0 <= k < r@.len() ==> (#[trigger] r@[k]) < stations@.len() && spec_has_prefix_key(
                stations@[r@[k] as int],
                qn@,
            ),
        (mr > 0 && exists|i: int|
            0 <= i < stations@.len() && spec_has_prefix_key(#[trigger] stations@[i], qn@))
            ==> r@.len() >= 1,
{
    let mut r: Vec<usize> = Vec::new();
    let mut i: usize = 0;
    while i < stations.len()
        invariant
            i <= stations@.len(),
            r@.len() <= mr,
            forall|k: int|
                0 <= k < r@.len() ==> (#[trigger] r@[k]) < stations@.len()
                    && spec_has_prefix_key(stations@[r@[k] as int], qn@),
            mr > 0 && r@.len() == 0 ==> forall|i2: int|
                0 <= i2 < i ==> !spec_has_prefix_key(#[trigger] stations@[i2], qn@),
        decreases stations@.len() - i,
    {
        let keys = station_keys(&stations[i]);
        let mut j: usize = 0;
        while j < keys.len()
            invariant
                i < stations@.len(),
                j <= keys@.len(),
                keys.deep_view() == spec_station_keys(stations@[i as int]),
                keys@.len() == keys.deep_view().len(),
                r@.len() <= mr,
                forall|k: int|
                    0 <= k < r@.len() ==> (#[trigger] r@[k]) < stations@.len()
                        && spec_has_prefix_key(stations@[r@[k] as int], qn@),
                mr > 0 && r@.len() == 0 ==> forall|i2: int|
                    0 <= i2 < i ==> !spec_has_prefix_key(#[trigger] stations@[i2], qn@),
                mr > 0 && r@.len() == 0 ==> forall|kj: int|
                    0 <= kj < j ==> !spec_starts_with(
                        #[trigger] spec_station_keys(stations@[i as int])[kj],
                        qn@,
                    ),
            decreases keys@.len() - j,
        {
            let kc = chars_vec(keys[j].as_str());
            proof {
                assert(keys@[j as int]@ == keys.deep_view()[j as int]);
            }
            if starts_with_chars(&kc, qn) {
                if r.len() < mr {
                    r.push(i);
                }
            }
            j = j + 1;
        }
        i = i + 1;
    }
    r
}

/// Whether `x` occurs in `v`.
spec fn in_seq(x: (usize, usize), v: Seq<(usize, usize)>) -> bool {
    exists|j: int| 0 <= j < v.len() && x == #[trigger] v[j]
}

/// Sorts index/distance pairs by distance, ascending; ties keep no
/// particular promise beyond determinism.
#[verifier::loop_isolation(false)]
fn sort_pairs_by_dist(v: Vec<(usize, usize)>) -> (r: Vec<(usize, usize)>)
    ensures
        r@.len() == v@.len(),
        forall|a: int, b: int| 0 <= a < b < r@.len() ==> (#[trigger] r@[a]).1 <= (
        #[trigger] r@[b]).1,
        forall|k: int| 0 <= k < r@.len() ==> #[trigger] in_seq(r@[k], v@),
{
    let ghost v0 = v@;
    let mut rem = v;
    let mut out: Vec<(usize, usize)> = Vec::new();
    proof {
        assert forall|k: int| 0 <= k < rem@.len() implies #[trigger] in_seq(rem@[k], v0) by {
            assert(rem@[k] == v0[k]);
        }
    }
    while rem.len() > 0
        invariant
            out@.len() + rem@.len() == v0.len(),
            forall|a: int, b: int| 0 <= a < b < out@.len() ==> (#[trigger] out@[a]).1 <= (
            #[trigger] out@[b]).1,
            forall|a: int, b: int|
                0 <= a < out@.len() && 0 <= b < rem@.len() ==> (#[trigger] out@[a]).1 <= (
                #[trigger] rem@[b]).1,
            forall|k: int| 0 <= k < out@.len() ==> #[trigger] in_seq(out@[k], v0),
            forall|k: int| 0 <= k < rem@.len() ==> #[trigger] in_seq(rem@[k], v0),
        decreases rem@.len(),
    {
        let mut mi: usize = 0;
        let mut q: usize = 1;
        while q < rem.len()
            invariant
                rem@.len() > 0,
                mi < rem@.len(),
                q <= rem@.len(),
                forall|x: int| 0 <= x < q ==> (#[trigger] rem@[x]).1 >= rem@[mi as int].1,
            decreases rem@.len() - q,
        {
            if rem[q].1 < rem[mi].1 {
                mi = q;
            }
            q = q + 1;
        }
        let ghost rem0 = rem@;
        let x = rem.remove(mi);
        out.push(x);
        proof {
            assert(x == rem0[mi as int]);
            assert forall|k: int| 0 <= k < out@.len() implies #[trigger] in_seq(out@[k], v0) by {
                if k == out@.len() - 1 {
                    assert(out@[k] == rem0[mi as int]);
                    assert(in_seq(rem0[mi as int], v0));
                }
            }
            assert forall|k: int| 0 <= k < rem@.len() implies #[trigger] in_seq(rem@[k], v0) by {
                if k < mi {
                    assert(rem@[k] == rem0[k]);
                    assert(in_seq(rem0[k], v0));
                } else {
                    assert(rem@[k] == rem0[k + 1]);
                    assert(in_seq(rem0[k + 1], v0));
                }
            }
            assert forall|a: int, b: int|
                0 <= a < out@.len() && 0 <= b < rem@.len() implies (#[trigger] out@[a]).1 <= (
            #[trigger] rem@[b]).1 by {
                if b < mi {
                    assert(rem@[b] == rem0[b]);
                } else {
                    assert(rem@[b] == rem0[b + 1]);
                }
                if a < out@.len() - 1 {
                } else {
                    assert(out@[a] == rem0[mi as int]);
                }
            }
        }
    }
    out
}

/// Entries with a key within edit distance 2 of `qn`, collected in
/// dictionary order up to twice `mr` hits, then sorted by distance and cut
/// to `mr`.
#[verifier::loop_isolation(false)]
fn tier_fuzzy(stations: &Vec<StationEntry>, qn: &String, mr: usize) -> (r: Vec<(usize, usize)>)
    ensures
        r@.len() <= mr,
        forall|a: int, b: int| 0 <= a < b < r@.len() ==> (#[trigger] r@[a]).1 <= (
        #[trigger] r@[b]).1,
        forall|k: int|
            0 <= k < r@.len() ==> (#[trigger] r@[k]).0 < stations@.len() && r@[k].1 <= 2
                && spec_has_key_at_distance(stations@[r@[k].0 as int], qn@, r@[k].1 as int),
        (mr > 0 && exists|i: int|
            0 <= i < stations@.len() && spec_has_fuzzy_key(#[trigger] stations@[i], qn@))
            ==> r@.len() >= 1,
{
    let cap: usize = if mr > usize::MAX / 2 {
        usize::MAX
    } else {
        mr * 2
    };
    let mut hits: Vec<(usize, usize)> = Vec::new();
    let mut i: usize = 0;
    while i < stations.len()
        invariant
            mr <= cap,
            i <= stations@.len(),
            hits@.len() <= cap,
            forall|k: int|
                0 <= k < hits@.len() ==> (#[trigger] hits@[k]).0 < stations@.len() && hits@[k].1
                    <= 2 && spec_has_key_at_distance(
                    stations@[hits@[k].0 as int],
                    qn@,
                    hits@[k].1 as int,
                ),
            mr > 0 && hits@.len() == 0 ==> forall|i2: int|
                0 <= i2 < i ==> !spec_has_fuzzy_key(#[trigger] stations@[i2], qn@),
        decreases stations@.len() - i,
    {
        let keys = station_keys(&stations[i]);
        let mut j: usize = 0;
        while j < keys.len()
            invariant
                mr <= cap,
                i < stations@.len(),
                j <= keys@.len(),
                keys.deep_view() == spec_station_keys(stations@[i as int]),
                keys@.len() == keys.deep_view().len(),
                hits@.len() <= cap,
                forall|k: int|
                    0 <= k < hits@.len() ==> (#[trigger] hits@[k]).0 < stations@.len()
                        && hits@[k].1 <= 2 && spec_has_key_at_distance(
                        stations@[hits@[k].0 as int],
                        qn@,
                        hits@[k].1 as int,
                    ),
                mr > 0 && hits@.len() == 0 ==> forall|i2: int|
                    0 <= i2 < i ==> !spec_has_fuzzy_key(#[trigger] stations@[i2], qn@),
                mr > 0 && hits@.len() == 0 ==> forall|kj: int|
                    0 <= kj < j ==> spec_levenshtein(
                        qn@,
                        #[trigger] spec_station_keys(stations@[i as int])[kj],
                    ) > 2,
            decreases keys@.len() - j,
        {
            proof {
                assert(keys@[j as int]@ == keys.deep_view()[j as int]);
            }
            let d = levenshtein_distance(qn.as_str(), keys[j].as_str());
            if d <= 2 {
                if hits.len() < cap {
                    hits.push((i, d));
                }
            }
            j = j + 1;
        }
        i = i + 1;
    }
    let ghost hits_v = hits@;
    let mut cut = sort_pairs_by_dist(hits);
    let ghost sorted_v = cut@;
    if cut.len() > mr {
        cut.truncate(mr);
    }
    proof {
        assert(forall|k: int| 0 <= k < cut@.len() ==> #[trigger] cut@[k] == sorted_v[k]);
        assert forall|k: int|
            0 <= k < cut@.len() implies (#[trigger] cut@[k]).0 < stations@.len() && cut@[k].1 <= 2
            && spec_has_key_at_distance(stations@[cut@[k].0 as int], qn@, cut@[k].1 as int) by {
            assert(in_seq(sorted_v[k], hits_v));
            let j = choose|j: int| 0 <= j < hits_v.len() && sorted_v[k] == #[trigger] hits_v[j];
            assert(hits_v[j].0 < stations@.len() && hits_v[j].1 <= 2 && spec_has_key_at_distance(
                stations@[hits_v[j].0 as int],
                qn@,
                hits_v[j].1 as int,
            ));
        }
    }
    cut
}

/// The exact confidence of an edit-distance match: `1 - d/len` bounded
/// below by one half, as a rational over a query length of at least 1.
pub open spec fn spec_fuzzy_confidence(qlen: int, d: int) -> (int, int) {
    let l = if qlen == 0 {
        1int
    } else {
        qlen
    };
    if 2 * d <= l {
        ((l - d), l)
    } else {
        (1int, 2int)
    }
}

/// The distance a fuzzy answer carries; -1 for other answers.
pub open spec fn spec_fuzzy_dist(x: ResolvedStation) -> int {
    match x.match_type {
        MatchKind::Fuzzy(d) => d as int,
        _ => -1,
    }
}

/// What `resolve` promises: the four tiers in order, first non-empty tier
/// wins.  An exact identifier match (case-insensitive, the latest entry
/// wins) yields that single answer with confidence 1.  Otherwise an exact
/// match on a name or alias key yields up to `mr` answers at confidence
/// 19/20; otherwise a prefix match, up to `mr` answers at confidence 4/5;
/// otherwise an edit-distance match within distance 2, up to `mr` answers
/// ordered by ascending distance, each at confidence `max(1/2, 1 - d/len)`.
/// The answer list is empty exactly when no tier matches (or `mr` is 0 and
/// the identifier tier missed).
pub open spec fn spec_resolution_ok(
    st: Seq<StationEntry>,
    query: Seq<char>,
    mr: int,
    r: Seq<ResolvedStation>,
) -> bool {
    let ql = spec_trim(spec_lower(query));
    let qn = spec_normalize_for_matching(ql);
    &&& (forall|k: int| 0 <= k < r.len() ==> (#[trigger] r[k]).query@ == query)
    &&& if spec_last_id_match(st, ql) >= 0 {
        &&& r.len() == 1
        &&& r[0].matched_id@ == st[spec_last_id_match(st, ql)].id@
        &&& r[0].match_type == MatchKind::ExactId
        &&& r[0].confidence_num == 1 && r[0].confidence_den == 1
    } else if mr > 0 && (exists|i: int| 0 <= i < st.len() && spec_has_key(#[trigger] st[i], qn)) {
        &&& 1 <= r.len() <= mr
        &&& (forall|k: int|
            0 <= k < r.len() ==> {
                &&& (#[trigger] r[k]).match_type == MatchKind::ExactName
                &&& r[k].confidence_num == 19 && r[k].confidence_den == 20
                &&& exists|i: int|
                    0 <= i < st.len() && r[k].matched_id@ == (#[trigger] st[i]).id@
                        && spec_has_key(st[i], qn)
            })
    } else if mr > 0 && (exists|i: int|
        0 <= i < st.len() && spec_has_prefix_key(#[trigger] st[i], qn)) {
        &&& 1 <= r.len() <= mr
        &&& (forall|k: int|
            0 <= k < r.len() ==> {
                &&& (#[trigger] r[k]).match_type == MatchKind::Prefix
                &&& r[k].confidence_num == 4 && r[k].confidence_den == 5
                &&& exists|i: int|
                    0 <= i < st.len() && r[k].matched_id@ == (#[trigger] st[i]).id@
                        && spec_has_prefix_key(st[i], qn)
            })
    } else if mr > 0 && (exists|i: int|
        0 <= i < st.len() && spec_has_fuzzy_key(#[trigger] st[i], qn)) {
        &&& 1 <= r.len() <= mr
        &&& (forall|a: int, b: int|
            0 <= a < b < r.len() ==> spec_fuzzy_dist(#[trigger] r[a]) <= spec_fuzzy_dist(
                #[trigger] r[b],
            ))
        &&& (forall|k: int|
            0 <= k < r.len() ==> {
                let d = spec_fuzzy_dist(#[trigger] r[k]);
                &&& r[k].match_type == MatchKind::Fuzzy(d as usize)
                &&& 0 <= d <= 2
                &&& (r[k].confidence_num as int, r[k].confidence_den as int)
                    == spec_fuzzy_confidence(qn.len() as int, d)
                &&& exists|i: int|
                    0 <= i < st.len() && r[k].matched_id@ == (#[trigger] st[i]).id@
                        && spec_has_key_at_distance(st[i], qn, d)
            })
    } else {
        r.len() == 0
    }
}

/// The station resolver: an immutable multilingual dictionary, scanned in
/// entry order.
pub struct StationResolver {
    pub stations: Vec<StationEntry>,
}

impl StationResolver {
    /// Builds a resolver over the given dictionary entries.
    pub fn new(stations: Vec<StationEntry>) -> (r: StationResolver)
        ensures
            r.stations@ == stations@,
    {
        StationResolver { stations }
    }

    /// Resolves a free-text query to ranked canonical identifiers, at most
    /// `max_results` of them.
    #[verifier::loop_isolation(false)]
    pub fn resolve(&self, query: &str, max_results: usize) -> (r: Vec<ResolvedStation>)
        ensures
            spec_resolution_ok(self.stations@, query@, max_results as int, r@),
    {
        let cs = chars_vec(query);
        let low = lower_chars(&cs);
        let qlc = trim_chars(&low);
        let ql = string_from_chars(&qlc);
        let qn = normalize_for_matching(ql.as_str());
        let qnc = chars_vec(qn.as_str());
        // Tier 1: exact identifier.
        let nlen = self.stations.len();
        proof {
            lemma_last_id_match(self.stations@, ql@);
        }
        if let Some(i) = tier_exact_id(&self.stations, &ql) {
            proof {
                assert(i == spec_last_id_match(self.stations@, ql@));
                assert(i < self.stations@.len());
            }
            let mut r: Vec<ResolvedStation> = Vec::new();
            r.push(
                ResolvedStation {
                    query: query.to_owned(),
                    matched_id: self.stations[i].id.clone(),
                    confidence_num: 1,
                    confidence_den: 1,
                    match_type: MatchKind::ExactId,
                },
            );
            return r;
        }
        // Tier 2: exact name or alias.
        let idxs = tier_exact_name(&self.stations, &qn, max_results);
        if idxs.len() > 0 {
            let mut r: Vec<ResolvedStation> = Vec::new();
            let mut k: usize = 0;
            while k < idxs.len()
                invariant
                    k <= idxs@.len(),
                    r@.len() == k,
                    forall|x: int|
                        0 <= x < k ==> {
                            &&& (#[trigger] r@[x]).query@ == query@
                            &&& r@[x].match_type == MatchKind::ExactName
                            &&& r@[x].confidence_num == 19 && r@[x].confidence_den == 20
                            &&& exists|i: int|
                                0 <= i < self.stations@.len() && r@[x].matched_id@ == (
                                #[trigger] self.stations@[i]).id@ && spec_has_key(
                                    self.stations@[i],
                                    qn@,
                                )
                        },
                decreases idxs@.len() - k,
            {
                r.push(
                    ResolvedStation {
                        query: query.to_owned(),
                        matched_id: self.stations[idxs[k]].id.clone(),
                        confidence_num: 19,
                        confidence_den: 20,
                        match_type: MatchKind::ExactName,
                    },
                );
                k = k + 1;
            }
            return r;
        }
        // Tier 3: prefix.
        let pidx = tier_prefix(&self.stations, &qnc, max_results);
        if pidx.len() > 0 {
            let mut r: Vec<ResolvedStation> = Vec::new();
            let mut k: usize = 0;
            while k < pidx.len()
                invariant
                    k <= pidx@.len(),
                    r@.len() == k,
                    forall|x: int|
                        0 <= x < k ==> {
                            &&& (#[trigger] r@[x]).query@ == query@
                            &&& r@[x].match_type == MatchKind::Prefix
                            &&& r@[x].confidence_num == 4 && r@[x].confidence_den == 5
                            &&& exists|i: int|
                                0 <= i < self.stations@.len() && r@[x].matched_id@ == (
                                #[trigger] self.stations@[i]).id@ && spec_has_prefix_key(
                                    self.stations@[i],
                                    qn@,
                                )
                        },
                decreases pidx@.len() - k,
            {
                r.push(
                    ResolvedStation {
                        query: query.to_owned(),
                        matched_id: self.stations[pidx[k]].id.clone(),
                        confidence_num: 4,
                        confidence_den: 5,
                        match_type: MatchKind::Prefix,
                    },
                );
                k = k + 1;
            }
            return r;
        }
        // Tier 4: edit distance.
        let pairs = tier_fuzzy(&self.stations, &qn, max_results);
        if pairs.len() > 0 {
            let qlen = qn.unicode_len();
            let l: u64 = if qlen == 0 {
                1
            } else {
                qlen as u64
            };
            let mut r: Vec<ResolvedStation> = Vec::new();
            let mut k: usize = 0;
            while k < pairs.len()
                invariant
                    k <= pairs@.len(),
                    r@.len() == k,
                    l == (if qn@.len() == 0 {
                        1int
                    } else {
                        qn@.len() as int
                    }),
                    forall|x: int|
                        0 <= x < pairs@.len() ==> (#[trigger] pairs@[x]).0
                            < self.stations@.len() && pairs@[x].1 <= 2
                            && spec_has_key_at_distance(
                            self.stations@[pairs@[x].0 as int],
                            qn@,
                            pairs@[x].1 as int,
                        ),
                    forall|x: int|
                        0 <= x < k ==> {
                            &&& (#[trigger] r@[x]).query@ == query@
                            &&& r@[x].match_type == MatchKind::Fuzzy(pairs@[x].1)
                            &&& spec_fuzzy_dist(r@[x]) == pairs@[x].1
                            &&& (r@[x].confidence_num as int, r@[x].confidence_den as int)
                                == spec_fuzzy_confidence(qn@.len() as int, pairs@[x].1 as int)
                            &&& exists|i: int|
                                0 <= i < self.stations@.len() && r@[x].matched_id@ == (
                                #[trigger] self.stations@[i]).id@ && spec_has_key_at_distance(
                                    self.stations@[i],
                                    qn@,
                                    pairs@[x].1 as int,
                                )
                        },
                decreases pairs@.len() - k,
            {
                let d: u64 = pairs[k].1 as u64;
                let (num, den): (u64, u64) = if 2 * d <= l {
                    (l - d, l)
                } else {
                    (1, 2)
                };
                r.push(
                    ResolvedStation {
                        query: query.to_owned(),
                        matched_id: self.stations[pairs[k].0].id.clone(),
                        confidence_num: num,
                        confidence_den: den,
                        match_type: MatchKind::Fuzzy(pairs[k].1),
                    },
                );
                k = k + 1;
            }
            proof {
                assert forall|a: int, b: int|
                    0 <= a < b < r@.len() implies spec_fuzzy_dist(#[trigger] r@[a])
                    <= spec_fuzzy_dist(#[trigger] r@[b]) by {
                    assert(pairs@[a].1 <= pairs@[b].1);
                }
            }
            return r;
        }
        Vec::new()
    }
}

/// The display name a dictionary entry offers for a locale: `ja`, `en` and
/// the `zh` spellings select their fields; anything else falls back to
/// English.
pub open spec fn spec_localized_name(st: StationEntry, locale: Seq<char>) -> Seq<char> {
    if locale == "ja"@ {
        st.names.ja@
    } else if locale == "en"@ {
        st.names.en@
    } else if locale == "zh"@ || locale == "zh-TW"@ || locale == "zh-CN"@ {
        st.names.zh@
    } else {
        st.names.en@
    }
}

/// The display text for one identifier: the dictionary name when the
/// identifier is known, a name derived from the identifier's structure when
/// possible, and the identifier itself otherwise.
pub open spec fn spec_localize_one(
    st: Seq<StationEntry>,
    id: Seq<char>,
    locale: Seq<char>,
) -> Seq<char> {
    let lm = spec_last_id_match(st, spec_lower(id));
    if lm >= 0 {
        spec_localized_name(st[lm], locale)
    } else {
        match spec_extract_name_from_id(id) {
            Some(nm) => nm,
            None => id,
        }
    }
}

impl StationResolver {
    /// The display name for a station identifier in a locale: from the
    /// dictionary when the identifier is known, else derived from the
    /// identifier's structure when it has one.
    pub fn get_localized_name(&self, station_id: &str, locale: &str) -> (r: Option<String>)
        ensures
            spec_last_id_match(self.stations@, spec_lower(station_id@)) >= 0 ==> (r matches Some(
                nm,
            ) && nm@ == spec_localized_name(
                self.stations@[spec_last_id_match(self.stations@, spec_lower(station_id@))],
                locale@,
            )),
            spec_last_id_match(self.stations@, spec_lower(station_id@)) == -1 ==> r.deep_view()
                == spec_extract_name_from_id(station_id@),
    {
        let ql = lower_string(station_id);
        let nlen = self.stations.len();
        proof {
            lemma_last_id_match(self.stations@, ql@);
        }
        if let Some(i) = tier_exact_id(&self.stations, &ql) {
            proof {
                assert(i == spec_last_id_match(self.stations@, ql@));
                assert(i < self.stations@.len());
            }
            let names = &self.stations[i].names;
            let nm = if str_eq(locale, "ja") {
                names.ja.clone()
            } else if str_eq(locale, "en") {
                names.en.clone()
            } else if str_eq(locale, "zh") || str_eq(locale, "zh-TW") || str_eq(locale, "zh-CN") {
                names.zh.clone()
            } else {
                names.en.clone()
            };
            Some(nm)
        } else {
            extract_name_from_id(station_id)
        }
    }

    /// Localizes a whole path of identifiers, falling back to each
    /// identifier itself where nothing better is known.
    #[verifier::loop_isolation(false)]
    pub fn localize_path(&self, path: &Vec<String>, locale: &str) -> (r: Vec<String>)
        ensures
            r@.len() == path@.len(),
            forall|k: int|
                0 <= k < path@.len() ==> (#[trigger] r@[k])@ == spec_localize_one(
                    self.stations@,
                    path@[k]@,
                    locale@,
                ),
    {
        let mut r: Vec<String> = Vec::new();
        let mut k: usize = 0;
        while k < path.len()
            invariant
                k <= path@.len(),
                r@.len() == k,
                forall|x: int|
                    0 <= x < k ==> (#[trigger] r@[x])@ == spec_localize_one(
                        self.stations@,
                        path@[x]@,
                        locale@,
                    ),
            decreases path@.len() - k,
        {
            proof {
                lemma_last_id_match(self.stations@, spec_lower(path@[k as int]@));
            }
            let nm = match self.get_localized_name(path[k].as_str(), locale) {
                Some(n) => n,
                None => path[k].clone(),
            };
            r.push(nm);
            k = k + 1;
        }
        r
    }
}

/// Resolving a dictionary entry's own canonical identifier returns exactly
/// that identifier with confidence 1, provided identifiers are distinct
/// case-insensitively and the identifier carries no edge blanks.
pub proof fn lemma_exact_id_round_trip(
    st: Seq<StationEntry>,
    i: int,
    query: Seq<char>,
    mr: int,
    r: Seq<ResolvedStation>,
)
    requires
        0 <= i < st.len(),
        query == st[i].id@,
        spec_trim(spec_lower(query)) == spec_lower(query),
        forall|a: int, b: int|
            0 <= a < b < st.len() ==> spec_lower(#[trigger] st[a].id@) != spec_lower(
                #[trigger] st[b].id@,
            ),
        spec_resolution_ok(st, query, mr, r),
    ensures
        r.len() == 1,
        r[0].matched_id@ == st[i].id@,
        r[0].confidence_num == 1 && r[0].confidence_den == 1,
        r[0].match_type == MatchKind::ExactId,
{
    let ql = spec_trim(spec_lower(query));
    lemma_last_id_match(st, ql);
    let lm = spec_last_id_match(st, ql);
    if lm == -1 {
        assert(spec_lower(st[i].id@) != ql);
        assert(false);
    }
    if lm != i {
        assert(spec_lower(st[lm].id@) == ql);
        assert(spec_lower(st[i].id@) == ql);
        assert(false);
    }
}

} // verus!
