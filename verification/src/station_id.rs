//! The compound station- and line-identifier grammar.
//!
//! A station identifier has the shape `namespace:Operator.Line.Name`; the
//! search algorithm treats it as opaque, but the transfer-cost model and the
//! resolver read its structure.  The functions here decode that structure.

use vstd::prelude::*;
use crate::text::{
    chars_vec, spec_replace, spec_split, spec_trim, split_chars, string_from_chars, replace_chars,
    trim_chars,
};

verus! {

/// The line identifier served by a station: `odpt.Railway:Operator.Line`
/// for a station identifier `ns:Operator.Line.Name`, and nothing when the
/// identifier does not have that shape.
pub open spec fn spec_station_to_line_id(s: Seq<char>) -> Option<Seq<char>> {
    let parts = spec_split(s, ':');
    if parts.len() < 2 {
        None
    } else {
        let lp = spec_split(parts[1], '.');
        if lp.len() < 2 {
            None
        } else {
            Some("odpt.Railway:"@ + lp[0] + seq!['.'] + lp[1])
        }
    }
}

/// Derives the line identifier a station belongs to from the station's own
/// identifier.
pub fn station_to_line_id(station_id: &str) -> (r: Option<String>)
    ensures
        r.deep_view() == spec_station_to_line_id(station_id@),
{
    let cs = chars_vec(station_id);
    let parts = split_chars(&cs, ':');
    if parts.len() < 2 {
        return None;
    }
    proof {
        assert(parts@[1]@ == parts.deep_view()[1]);
    }
    let lp = split_chars(&parts[1], '.');
    if lp.len() < 2 {
        return None;
    }
    proof {
        assert(lp@[0]@ == lp.deep_view()[0]);
        assert(lp@[1]@ == lp.deep_view()[1]);
    }
    let op = string_from_chars(&lp[0]);
    let line = string_from_chars(&lp[1]);
    let mut out = String::from_str("odpt.Railway:");
    out.append(op.as_str());
    out.append(".");
    out.append(line.as_str());
    proof {
        assert(out@ == "odpt.Railway:"@ + lp.deep_view()[0] + "."@ + lp.deep_view()[1]);
        assert("."@ =~= seq!['.']) by {
            reveal_strlit(".");
        }
    }
    Some(out)
}

/// The operator token of a station identifier: the first `.`-separated part
/// after the namespace.
pub open spec fn spec_operator_from_station_id(s: Seq<char>) -> Option<Seq<char>> {
    let parts = spec_split(s, ':');
    if parts.len() < 2 {
        None
    } else {
        Some(spec_split(parts[1], '.')[0])
    }
}

/// Extracts the operator token from a station identifier.
pub fn operator_from_station_id(station_id: &str) -> (r: Option<String>)
    ensures
        r.deep_view() == spec_operator_from_station_id(station_id@),
{
    let cs = chars_vec(station_id);
    let parts = split_chars(&cs, ':');
    if parts.len() < 2 {
        return None;
    }
    proof {
        assert(parts@[1]@ == parts.deep_view()[1]);
    }
    let lp = split_chars(&parts[1], '.');
    proof {
        assert(lp@[0]@ == lp.deep_view()[0]);
    }
    Some(string_from_chars(&lp[0]))
}

/// The operator token of a line identifier: the first `.`-separated part
/// after the namespace.
pub open spec fn spec_operator_from_line_id(s: Seq<char>) -> Option<Seq<char>> {
    let parts = spec_split(s, ':');
    if parts.len() < 2 {
        None
    } else {
        Some(spec_split(parts[1], '.')[0])
    }
}

/// Extracts the operator token from a line identifier.
pub fn operator_from_line_id(line_id: &str) -> (r: Option<String>)
    ensures
        r.deep_view() == spec_operator_from_line_id(line_id@),
{
    let cs = chars_vec(line_id);
    let parts = split_chars(&cs, ':');
    if parts.len() < 2 {
        return None;
    }
    proof {
        assert(parts@[1]@ == parts.deep_view()[1]);
    }
    let lp = split_chars(&parts[1], '.');
    proof {
        assert(lp@[0]@ == lp.deep_view()[0]);
    }
    Some(string_from_chars(&lp[0]))
}

/// A station identifier brought to canonical form: trimmed, with the legacy
/// `odpt:Station:` prefix spelling rewritten to `odpt.Station:`.
pub open spec fn spec_normalize_station_id(s: Seq<char>) -> Seq<char> {
    spec_replace(spec_trim(s), "odpt:Station:"@, "odpt.Station:"@)
}

/// Canonicalizes a station identifier.
pub fn normalize_station_id(input: &str) -> (r: String)
    ensures
        r@ == spec_normalize_station_id(input@),
{
    let cs = chars_vec(input);
    let trimmed = trim_chars(&cs);
    let f = chars_vec("odpt:Station:");
    let t = chars_vec("odpt.Station:");
    let rep = replace_chars(&trimmed, &f, &t);
    string_from_chars(&rep)
}

/// A line identifier brought to canonical form: trimmed, with the legacy
/// `odpt:Railway:` prefix spelling rewritten to `odpt.Railway:`.
pub open spec fn spec_normalize_line_id(s: Seq<char>) -> Seq<char> {
    spec_replace(spec_trim(s), "odpt:Railway:"@, "odpt.Railway:"@)
}

/// Canonicalizes a line identifier.
pub fn normalize_line_id(input: &str) -> (r: String)
    ensures
        r@ == spec_normalize_line_id(input@),
{
    let cs = chars_vec(input);
    let trimmed = trim_chars(&cs);
    let f = chars_vec("odpt:Railway:");
    let t = chars_vec("odpt.Railway:");
    let rep = replace_chars(&trimmed, &f, &t);
    string_from_chars(&rep)
}

/// The station identifiers named by a comma-separated request parameter:
/// each piece canonicalized, empty pieces dropped.
pub open spec fn spec_parse_ids(s: Seq<char>) -> Seq<Seq<char>> {
    spec_split(s, ',').map_values(|p: Seq<char>| spec_normalize_station_id(p)).filter(
        |p: Seq<char>| p.len() > 0,
    )
}

/// Splits a comma-separated list of station identifiers and canonicalizes
/// each entry; an absent parameter yields no identifiers.
pub fn parse_ids(param: Option<&str>) -> (r: Vec<String>)
    ensures
        r.deep_view() == match param {
            Some(p) => spec_parse_ids(p@),
            None => spec_parse_ids(Seq::<char>::empty()),
        },
{
    let s: &str = match param {
        Some(p) => p,
        None => "",
    };
    proof {
        if param is None {
            assert(""@ =~= Seq::<char>::empty()) by {
                reveal_strlit("");
            }
        }
    }
    let cs = chars_vec(s);
    let pieces = split_chars(&cs, ',');
    let mut r: Vec<String> = Vec::new();
    let ghost pieces_v = pieces.deep_view();
    let mut i: usize = 0;
    while i < pieces.len()
        invariant
            pieces_v == pieces.deep_view(),
            pieces@.len() == pieces_v.len(),
            i <= pieces_v.len(),
            forall|k: int| 0 <= k < pieces@.len() ==> pieces@[k]@ == pieces_v[k],
            r.deep_view() == pieces_v.take(i as int).map_values(
                |p: Seq<char>| spec_normalize_station_id(p),
            ).filter(|p: Seq<char>| p.len() > 0),
        decreases pieces_v.len() - i,
    {
        let piece = string_from_chars(&pieces[i]);
        let norm = normalize_station_id(piece.as_str());
        proof {
            let prefix = pieces_v.take(i as int).map_values(
                |p: Seq<char>| spec_normalize_station_id(p),
            );
            let full = pieces_v.take(i + 1).map_values(
                |p: Seq<char>| spec_normalize_station_id(p),
            );
            assert(full =~= prefix.push(spec_normalize_station_id(pieces_v[i as int])));
            let pushed = prefix.push(spec_normalize_station_id(pieces_v[i as int]));
            assert(pushed.drop_last() =~= prefix);
            assert(pushed.last() == spec_normalize_station_id(pieces_v[i as int]));
            reveal(Seq::filter);
        }
        if norm.unicode_len() > 0 {
            let ghost old_r = r.deep_view();
            r.push(norm);
            proof {
                assert(r.deep_view() =~~= old_r.push(norm@));
            }
        }
        i = i + 1;
    }
    proof {
        assert(pieces_v.take(pieces_v.len() as int) =~= pieces_v);
    }
    r
}

/// Whether a character is upper case by Unicode's Uppercase property, the
/// case boundary the display-name fallback splits on: what
/// `char::is_uppercase` returns, a function of the character alone.
pub uninterp spec fn spec_is_upper(c: char) -> bool;

/// Whether a character is upper case.
///
/// Relies on char::is_uppercase: true exactly for Unicode's Uppercase
/// characters, which among ASCII are the letters A to Z and nothing else.
#[verifier::external_body]
pub fn char_is_upper(c: char) -> (r: bool)
    ensures
        r == spec_is_upper(c),
        ('A' <= c && c <= 'Z') ==> r,
        ((c as u32) < 128 && !('A' <= c && c <= 'Z')) ==> !r,
{
    c.is_uppercase()
}

/// The trailing segment of an identifier spaced at case boundaries: a blank
/// is inserted before every capital letter except a leading one.
pub open spec fn spec_camel_space(s: Seq<char>) -> Seq<char>
    decreases s.len(),
{
    if s.len() == 0 {
        Seq::empty()
    } else if s.len() == 1 {
        seq![s[0]]
    } else if spec_is_upper(s.last()) {
        spec_camel_space(s.drop_last()) + seq![' ', s.last()]
    } else {
        spec_camel_space(s.drop_last()) + seq![s.last()]
    }
}

/// A best-effort display name read out of a station identifier: the last
/// `.`-separated segment, spaced at case boundaries, provided the identifier
/// has at least four such segments.
pub open spec fn spec_extract_name_from_id(s: Seq<char>) -> Option<Seq<char>> {
    let parts = spec_split(s, '.');
    if parts.len() >= 4 {
        Some(spec_camel_space(parts.last()))
    } else {
        None
    }
}

/// Derives a display name from a station identifier when it is not in the
/// dictionary.
pub fn extract_name_from_id(station_id: &str) -> (r: Option<String>)
    ensures
        r.deep_view() == spec_extract_name_from_id(station_id@),
{
    let cs = chars_vec(station_id);
    let parts = split_chars(&cs, '.');
    if parts.len() < 4 {
        return None;
    }
    let lastp = &parts[parts.len() - 1];
    proof {
        assert(lastp@ == parts.deep_view().last());
    }
    let mut out: Vec<char> = Vec::new();
    let mut i: usize = 0;
    while i < lastp.len()
        invariant
            i <= lastp@.len(),
            out@ == spec_camel_space(lastp@.take(i as int)),
        decreases lastp@.len() - i,
    {
        let c = lastp[i];
        proof {
            let pre = lastp@.take(i + 1);
            assert(pre.drop_last() =~= lastp@.take(i as int));
            assert(pre.last() == lastp@[i as int]);
        }
        if char_is_upper(c) && i > 0 {
            out.push(' ');
            out.push(c);
        } else {
            out.push(c);
            proof {
                if i == 0 {
                    assert(out@ =~= seq![lastp@[0]]);
                    assert(spec_camel_space(lastp@.take(1)) =~= seq![lastp@.take(1)[0]]);
                }
            }
        }
        i = i + 1;
    }
    proof {
        assert(lastp@.take(lastp@.len() as int) =~= lastp@);
    }
    Some(string_from_chars(&out))
}

} // verus!
