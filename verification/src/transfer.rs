//! The transfer-cost model: a knowledge base of known station-to-line
//! transfer attributes, an auxiliary penalty-index table, per-hub buffer
//! minutes, and the transfer-time formula built on them.
//!
//! Both tables hold a built-in base set plus optional file-based overrides;
//! an override wins on key collision.  Pairs absent from the knowledge base
//! fall back to distance heuristics.

use vstd::prelude::*;
use crate::station_id::{
    spec_normalize_line_id, spec_normalize_station_id, spec_operator_from_line_id,
    spec_operator_from_station_id, normalize_line_id, normalize_station_id,
    operator_from_line_id, operator_from_station_id,
};
use crate::text::{chars_vec, contains_chars, spec_contains, str_eq};

verus! {

/// Known attributes of one station-to-line transfer.  Distances are meters,
/// the penalty index is on its 0..100 scale, floors are counted.
#[derive(Clone, Copy, Debug, PartialEq, Eq, Structural)]
pub struct TransferInfo {
    pub walking_distance_meters: u64,
    pub base_tpi: u64,
    pub floor_difference: u64,
}

/// One row of the transfer knowledge base, keyed by the station a transfer
/// leaves from and the line it reaches.
#[derive(Debug)]
pub struct TransferEntry {
    pub station: String,
    pub line: String,
    pub info: TransferInfo,
}

/// The rows of a table as key/key/value triples over character sequences.
pub open spec fn entries_view(s: Seq<TransferEntry>) -> Seq<(Seq<char>, Seq<char>, TransferInfo)> {
    s.map_values(|e: TransferEntry| (e.station@, e.line@, e.info))
}

/// First-match lookup among rows.
pub open spec fn spec_rows_lookup(
    rows: Seq<(Seq<char>, Seq<char>, TransferInfo)>,
    st: Seq<char>,
    ln: Seq<char>,
) -> Option<TransferInfo>
    decreases rows.len(),
{
    if rows.len() == 0 {
        None
    } else if rows[0].0 == st && rows[0].1 == ln {
        Some(rows[0].2)
    } else {
        spec_rows_lookup(rows.drop_first(), st, ln)
    }
}

/// One override row brought to canonical form: keys canonicalized, value
/// kept.
pub open spec fn norm_transfer_row(t: (String, String, TransferInfo)) -> (
    Seq<char>,
    Seq<char>,
    TransferInfo,
) {
    (spec_normalize_station_id(t.0@), spec_normalize_line_id(t.1@), t.2)
}

/// Override rows brought to canonical form.
pub open spec fn norm_transfer_rows(s: Seq<(String, String, TransferInfo)>) -> Seq<
    (Seq<char>, Seq<char>, TransferInfo),
> {
    s.map_values(|t: (String, String, TransferInfo)| norm_transfer_row(t))
}

/// The transfer knowledge base: file-based overrides in front of the
/// built-in rows, so an override wins on key collision.
pub struct TransferDb {
    pub overrides: Vec<TransferEntry>,
    pub base: Vec<TransferEntry>,
}

/// The built-in rows of the transfer knowledge base.
pub open spec fn spec_builtin_transfer_rows() -> Seq<(Seq<char>, Seq<char>, TransferInfo)> {
    seq![
        (
            "odpt.Station:Toei.Asakusa.Kuramae"@,
            "odpt.Railway:Toei.Oedo"@,
            TransferInfo { walking_distance_meters: 270, base_tpi: 60, floor_difference: 2 },
        ),
        (
            "odpt.Station:Toei.Oedo.Kuramae"@,
            "odpt.Railway:Toei.Asakusa"@,
            TransferInfo { walking_distance_meters: 270, base_tpi: 60, floor_difference: 2 },
        ),
        (
            "odpt.Station:JR-East.Yamanote.Ueno"@,
            "odpt.Railway:TokyoMetro.Ginza"@,
            TransferInfo { walking_distance_meters: 180, base_tpi: 30, floor_difference: 1 },
        ),
        (
            "odpt.Station:JR-East.Yamanote.Ueno"@,
            "odpt.Railway:TokyoMetro.Hibiya"@,
            TransferInfo { walking_distance_meters: 250, base_tpi: 45, floor_difference: 2 },
        ),
        (
            "odpt.Station:JR-East.Yamanote.Shinjuku"@,
            "odpt.Railway:Toei.Oedo"@,
            TransferInfo { walking_distance_meters: 350, base_tpi: 70, floor_difference: 4 },
        ),
        (
            "odpt.Station:JR-East.Tokaido.Tokyo"@,
            "odpt.Railway:JR-East.Keiyo"@,
            TransferInfo { walking_distance_meters: 550, base_tpi: 80, floor_difference: 3 },
        ),
        (
            "odpt.Station:JR-East.Yamanote.Kanda"@,
            "odpt.Railway:JR-East.ChuoRapid"@,
            TransferInfo { walking_distance_meters: 30, base_tpi: 10, floor_difference: 0 },
        ),
    ]
}

impl TransferDb {
    /// Lookup of a station/line pair: overrides first, then the base rows.
    pub open spec fn spec_lookup(self, st: Seq<char>, ln: Seq<char>) -> Option<TransferInfo> {
        match spec_rows_lookup(entries_view(self.overrides@), st, ln) {
            Some(i) => Some(i),
            None => spec_rows_lookup(entries_view(self.base@), st, ln),
        }
    }

    /// The knowledge base with its built-in rows and no overrides.
    pub fn builtin() -> (r: TransferDb)
        ensures
            entries_view(r.base@) == spec_builtin_transfer_rows(),
            r.overrides@.len() == 0,
    {
        TransferDb { overrides: Vec::new(), base: builtin_transfer_entries() }
    }

    /// The knowledge base with file-based override rows in front of the
    /// built-in rows; override keys are canonicalized as they come in.
    #[verifier::loop_isolation(false)]
    pub fn with_overrides(ov: Vec<(String, String, TransferInfo)>) -> (r: TransferDb)
        ensures
            entries_view(r.base@) == spec_builtin_transfer_rows(),
            entries_view(r.overrides@) == norm_transfer_rows(ov@),
    {
        let mut overrides: Vec<TransferEntry> = Vec::new();
        let mut i: usize = 0;
        while i < ov.len()
            invariant
                i <= ov@.len(),
                entries_view(overrides@) == norm_transfer_rows(ov@.take(i as int)),
            decreases ov@.len() - i,
        {
            let station = normalize_station_id(ov[i].0.as_str());
            let line = normalize_line_id(ov[i].1.as_str());
            overrides.push(TransferEntry { station, line, info: ov[i].2 });
            i = i + 1;
            proof {
                let iv = i - 1;
                assert(overrides@.len() == i);
                assert(overrides@[iv].station@ == spec_normalize_station_id(ov@[iv].0@));
                assert(overrides@[iv].line@ == spec_normalize_line_id(ov@[iv].1@));
                assert(overrides@[iv].info == ov@[iv].2);
                assert(entries_view(overrides@)[iv] == norm_transfer_row(ov@[iv]));
                assert(norm_transfer_rows(ov@.take(i as int))[iv] == norm_transfer_row(ov@[iv]));
                assert(forall|k: int|
                    0 <= k < iv ==> entries_view(overrides@)[k] == #[trigger] norm_transfer_rows(
                        ov@.take(iv),
                    )[k]);
                assert(forall|k: int|
                    0 <= k < iv ==> norm_transfer_rows(ov@.take(iv))[k] == #[trigger] norm_transfer_rows(
                        ov@.take(i as int),
                    )[k]);
                assert(entries_view(overrides@) =~= norm_transfer_rows(ov@.take(i as int)));
            }
        }
        proof {
            assert(ov@.take(ov@.len() as int) =~= ov@);
        }
        TransferDb { overrides, base: builtin_transfer_entries() }
    }

    /// Looks a station/line pair up: overrides first, then the base rows.
    pub fn lookup(&self, station: &str, line: &str) -> (r: Option<TransferInfo>)
        ensures
            r == self.spec_lookup(station@, line@),
    {
        match find_in(&self.overrides, station, line) {
            Some(i) => Some(i),
            None => find_in(&self.base, station, line),
        }
    }
}

/// One row of the penalty-index table.
#[derive(Debug)]
pub struct TpiEntry {
    pub station: String,
    pub line: String,
    pub tpi: u64,
}

/// The rows of the penalty-index table as key/key/value triples.
pub open spec fn tpi_entries_view(s: Seq<TpiEntry>) -> Seq<(Seq<char>, Seq<char>, u64)> {
    s.map_values(|e: TpiEntry| (e.station@, e.line@, e.tpi))
}

/// First-match lookup among penalty-index rows.
pub open spec fn spec_tpi_rows_lookup(
    rows: Seq<(Seq<char>, Seq<char>, u64)>,
    st: Seq<char>,
    ln: Seq<char>,
) -> Option<u64>
    decreases rows.len(),
{
    if rows.len() == 0 {
        None
    } else if rows[0].0 == st && rows[0].1 == ln {
        Some(rows[0].2)
    } else {
        spec_tpi_rows_lookup(rows.drop_first(), st, ln)
    }
}

/// One penalty-index override row brought to canonical form.
pub open spec fn norm_tpi_row(t: (String, String, u64)) -> (Seq<char>, Seq<char>, u64) {
    (spec_normalize_station_id(t.0@), spec_normalize_line_id(t.1@), t.2)
}

/// Penalty-index override rows brought to canonical form.
pub open spec fn norm_tpi_rows(s: Seq<(String, String, u64)>) -> Seq<(Seq<char>, Seq<char>, u64)> {
    s.map_values(|t: (String, String, u64)| norm_tpi_row(t))
}

/// The preset penalty-index table, consulted for pairs the transfer
/// knowledge base does not list.
pub struct PresetTpi {
    pub overrides: Vec<TpiEntry>,
    pub base: Vec<TpiEntry>,
}

/// The built-in rows of the preset penalty-index table.
pub open spec fn spec_builtin_tpi_rows() -> Seq<(Seq<char>, Seq<char>, u64)> {
    seq![
        ("odpt.Station:JR-East.Tokaido.Tokyo"@, "odpt.Railway:JR-East.Keiyo"@, 85u64),
        ("odpt.Station:JR-East.Tokaido.Tokyo"@, "odpt.Railway:TokyoMetro.Marunouchi"@, 30u64),
        ("odpt.Station:JR-East.Yamanote.Shinjuku"@, "odpt.Railway:Toei.Oedo"@, 70u64),
        ("odpt.Station:JR-East.Yamanote.Shinjuku"@, "odpt.Railway:TokyoMetro.Marunouchi"@, 35u64),
        ("odpt.Station:JR-East.Yamanote.Shinjuku"@, "odpt.Railway:Odakyu.Odawara"@, 25u64),
        ("odpt.Station:JR-East.Yamanote.Shibuya"@, "odpt.Railway:TokyoMetro.Fukutoshin"@, 65u64),
        ("odpt.Station:JR-East.Yamanote.Shibuya"@, "odpt.Railway:TokyoMetro.Ginza"@, 40u64),
        ("odpt.Station:JR-East.Yamanote.Shibuya"@, "odpt.Railway:Tokyu.Toyoko"@, 50u64),
        ("odpt.Station:JR-East.Yamanote.Ikebukuro"@, "odpt.Railway:TokyoMetro.Yurakucho"@, 50u64),
        ("odpt.Station:JR-East.Yamanote.Ikebukuro"@, "odpt.Railway:TokyoMetro.Marunouchi"@, 35u64),
        ("odpt.Station:JR-East.Yamanote.Ikebukuro"@, "odpt.Railway:Seibu.Ikebukuro"@, 30u64),
        ("odpt.Station:JR-East.Yamanote.Ueno"@, "odpt.Railway:TokyoMetro.Ginza"@, 40u64),
        ("odpt.Station:JR-East.Yamanote.Ueno"@, "odpt.Railway:TokyoMetro.Hibiya"@, 45u64),
        ("odpt.Station:JR-East.Yamanote.Akihabara"@, "odpt.Railway:TokyoMetro.Hibiya"@, 25u64),
        ("odpt.Station:JR-East.Yamanote.Akihabara"@, "odpt.Railway:TX.TsukubaExpress"@, 35u64),
    ]
}

impl PresetTpi {
    /// Lookup of a station/line pair: overrides first, then the base rows.
    pub open spec fn spec_lookup(self, st: Seq<char>, ln: Seq<char>) -> Option<u64> {
        match spec_tpi_rows_lookup(tpi_entries_view(self.overrides@), st, ln) {
            Some(i) => Some(i),
            None => spec_tpi_rows_lookup(tpi_entries_view(self.base@), st, ln),
        }
    }

    /// The table with its built-in rows and no overrides.
    pub fn builtin() -> (r: PresetTpi)
        ensures
            tpi_entries_view(r.base@) == spec_builtin_tpi_rows(),
            r.overrides@.len() == 0,
    {
        PresetTpi { overrides: Vec::new(), base: builtin_tpi_entries() }
    }

    /// The table with file-based override rows in front of the built-in
    /// rows; override keys are canonicalized as they come in.
    #[verifier::loop_isolation(false)]
    pub fn with_overrides(ov: Vec<(String, String, u64)>) -> (r: PresetTpi)
        ensures
            tpi_entries_view(r.base@) == spec_builtin_tpi_rows(),
            tpi_entries_view(r.overrides@) == norm_tpi_rows(ov@),
    {
        let mut overrides: Vec<TpiEntry> = Vec::new();
        let mut i: usize = 0;
        while i < ov.len()
            invariant
                i <= ov@.len(),
                tpi_entries_view(overrides@) == norm_tpi_rows(ov@.take(i as int)),
            decreases ov@.len() - i,
        {
            let station = normalize_station_id(ov[i].0.as_str());
            let line = normalize_line_id(ov[i].1.as_str());
            overrides.push(TpiEntry { station, line, tpi: ov[i].2 });
            i = i + 1;
            proof {
                let iv = i - 1;
                assert(overrides@.len() == i);
                assert(overrides@[iv].station@ == spec_normalize_station_id(ov@[iv].0@));
                assert(overrides@[iv].line@ == spec_normalize_line_id(ov@[iv].1@));
                assert(overrides@[iv].tpi == ov@[iv].2);
                assert(tpi_entries_view(overrides@)[iv] == norm_tpi_row(ov@[iv]));
                assert(norm_tpi_rows(ov@.take(i as int))[iv] == norm_tpi_row(ov@[iv]));
                assert(forall|k: int|
                    0 <= k < iv ==> tpi_entries_view(overrides@)[k] == #[trigger] norm_tpi_rows(
                        ov@.take(iv),
                    )[k]);
                assert(forall|k: int|
                    0 <= k < iv ==> norm_tpi_rows(ov@.take(iv))[k] == #[trigger] norm_tpi_rows(
                        ov@.take(i as int),
                    )[k]);
                assert(tpi_entries_view(overrides@) =~= norm_tpi_rows(ov@.take(i as int)));
            }
        }
        proof {
            assert(ov@.take(ov@.len() as int) =~= ov@);
        }
        PresetTpi { overrides, base: builtin_tpi_entries() }
    }

    /// Looks a station/line pair up: overrides first, then the base rows.
    pub fn lookup(&self, station: &str, line: &str) -> (r: Option<u64>)
        ensures
            r == self.spec_lookup(station@, line@),
    {
        match tpi_find_in(&self.overrides, station, line) {
            Some(i) => Some(i),
            None => tpi_find_in(&self.base, station, line),
        }
    }
}

/// Builds the built-in transfer rows.
fn builtin_transfer_entries() -> (r: Vec<TransferEntry>)
    ensures
        entries_view(r@) == spec_builtin_transfer_rows(),
{
    let mut v: Vec<TransferEntry> = Vec::new();
    v.push(TransferEntry {
        station: String::from_str("odpt.Station:Toei.Asakusa.Kuramae"),
        line: String::from_str("odpt.Railway:Toei.Oedo"),
        info: TransferInfo { walking_distance_meters: 270, base_tpi: 60, floor_difference: 2 },
    });
    v.push(TransferEntry {
        station: String::from_str("odpt.Station:Toei.Oedo.Kuramae"),
        line: String::from_str("odpt.Railway:Toei.Asakusa"),
        info: TransferInfo { walking_distance_meters: 270, base_tpi: 60, floor_difference: 2 },
    });
    v.push(TransferEntry {
        station: String::from_str("odpt.Station:JR-East.Yamanote.Ueno"),
        line: String::from_str("odpt.Railway:TokyoMetro.Ginza"),
        info: TransferInfo { walking_distance_meters: 180, base_tpi: 30, floor_difference: 1 },
    });
    v.push(TransferEntry {
        station: String::from_str("odpt.Station:JR-East.Yamanote.Ueno"),
        line: String::from_str("odpt.Railway:TokyoMetro.Hibiya"),
        info: TransferInfo { walking_distance_meters: 250, base_tpi: 45, floor_difference: 2 },
    });
    v.push(TransferEntry {
        station: String::from_str("odpt.Station:JR-East.Yamanote.Shinjuku"),
        line: String::from_str("odpt.Railway:Toei.Oedo"),
        info: TransferInfo { walking_distance_meters: 350, base_tpi: 70, floor_difference: 4 },
    });
    v.push(TransferEntry {
        station: String::from_str("odpt.Station:JR-East.Tokaido.Tokyo"),
        line: String::from_str("odpt.Railway:JR-East.Keiyo"),
        info: TransferInfo { walking_distance_meters: 550, base_tpi: 80, floor_difference: 3 },
    });
    v.push(TransferEntry {
        station: String::from_str("odpt.Station:JR-East.Yamanote.Kanda"),
        line: String::from_str("odpt.Railway:JR-East.ChuoRapid"),
        info: TransferInfo { walking_distance_meters: 30, base_tpi: 10, floor_difference: 0 },
    });
    proof {
        assert(entries_view(v@) =~= spec_builtin_transfer_rows());
    }
    v
}

/// Builds the built-in penalty-index rows.
fn builtin_tpi_entries() -> (r: Vec<TpiEntry>)
    ensures
        tpi_entries_view(r@) == spec_builtin_tpi_rows(),
{
    let mut v: Vec<TpiEntry> = Vec::new();
    v.push(TpiEntry {
        station: String::from_str("odpt.Station:JR-East.Tokaido.Tokyo"),
        line: String::from_str("odpt.Railway:JR-East.Keiyo"),
        tpi: 85,
    });
    v.push(TpiEntry {
        station: String::from_str("odpt.Station:JR-East.Tokaido.Tokyo"),
        line: String::from_str("odpt.Railway:TokyoMetro.Marunouchi"),
        tpi: 30,
    });
    v.push(TpiEntry {
        station: String::from_str("odpt.Station:JR-East.Yamanote.Shinjuku"),
        line: String::from_str("odpt.Railway:Toei.Oedo"),
        tpi: 70,
    });
    v.push(TpiEntry {
        station: String::from_str("odpt.Station:JR-East.Yamanote.Shinjuku"),
        line: String::from_str("odpt.Railway:TokyoMetro.Marunouchi"),
        tpi: 35,
    });
    v.push(TpiEntry {
        station: String::from_str("odpt.Station:JR-East.Yamanote.Shinjuku"),
        line: String::from_str("odpt.Railway:Odakyu.Odawara"),
        tpi: 25,
    });
    v.push(TpiEntry {
        station: String::from_str("odpt.Station:JR-East.Yamanote.Shibuya"),
        line: String::from_str("odpt.Railway:TokyoMetro.Fukutoshin"),
        tpi: 65,
    });
    v.push(TpiEntry {
        station: String::from_str("odpt.Station:JR-East.Yamanote.Shibuya"),
        line: String::from_str("odpt.Railway:TokyoMetro.Ginza"),
        tpi: 40,
    });
    v.push(TpiEntry {
        station: String::from_str("odpt.Station:JR-East.Yamanote.Shibuya"),
        line: String::from_str("odpt.Railway:Tokyu.Toyoko"),
        tpi: 50,
    });
    v.push(TpiEntry {
        station: String::from_str("odpt.Station:JR-East.Yamanote.Ikebukuro"),
        line: String::from_str("odpt.Railway:TokyoMetro.Yurakucho"),
        tpi: 50,
    });
    v.push(TpiEntry {
        station: String::from_str("odpt.Station:JR-East.Yamanote.Ikebukuro"),
        line: String::from_str("odpt.Railway:TokyoMetro.Marunouchi"),
        tpi: 35,
    });
    v.push(TpiEntry {
        station: String::from_str("odpt.Station:JR-East.Yamanote.Ikebukuro"),
        line: String::from_str("odpt.Railway:Seibu.Ikebukuro"),
        tpi: 30,
    });
    v.push(TpiEntry {
        station: String::from_str("odpt.Station:JR-East.Yamanote.Ueno"),
        line: String::from_str("odpt.Railway:TokyoMetro.Ginza"),
        tpi: 40,
    });
    v.push(TpiEntry {
        station: String::from_str("odpt.Station:JR-East.Yamanote.Ueno"),
        line: String::from_str("odpt.Railway:TokyoMetro.Hibiya"),
        tpi: 45,
    });
    v.push(TpiEntry {
        station: String::from_str("odpt.Station:JR-East.Yamanote.Akihabara"),
        line: String::from_str("odpt.Railway:TokyoMetro.Hibiya"),
        tpi: 25,
    });
    v.push(TpiEntry {
        station: String::from_str("odpt.Station:JR-East.Yamanote.Akihabara"),
        line: String::from_str("odpt.Railway:TX.TsukubaExpress"),
        tpi: 35,
    });
    proof {
        assert(tpi_entries_view(v@) =~= spec_builtin_tpi_rows());
    }
    v
}

/// Scans transfer rows for a station/line pair, first match wins.
#[verifier::loop_isolation(false)]
fn find_in(entries: &Vec<TransferEntry>, station: &str, line: &str) -> (r: Option<TransferInfo>)
    ensures
        r == spec_rows_lookup(entries_view(entries@), station@, line@),
{
    let rows = entries;
    let mut i: usize = 0;
    proof {
        assert(entries_view(rows@).skip(0) =~= entries_view(rows@));
    }
    while i < rows.len()
        invariant
            i <= rows@.len(),
            spec_rows_lookup(entries_view(rows@), station@, line@) == spec_rows_lookup(
                entries_view(rows@).skip(i as int),
                station@,
                line@,
            ),
        decreases rows@.len() - i,
    {
        proof {
            assert(entries_view(rows@).skip(i as int)[0] == (
                rows@[i as int].station@,
                rows@[i as int].line@,
                rows@[i as int].info,
            ));
        }
        if str_eq(rows[i].station.as_str(), station) && str_eq(rows[i].line.as_str(), line) {
            proof {
                let rs = entries_view(rows@).skip(i as int);
                assert(rs.len() > 0);
                assert(rs[0].0 == station@ && rs[0].1 == line@);
                assert(spec_rows_lookup(rs, station@, line@) == Some(rs[0].2));
            }
            return Some(rows[i].info);
        }
        proof {
            assert(entries_view(rows@).skip(i as int).drop_first() =~= entries_view(rows@).skip(
                i as int + 1,
            ));
        }
        i = i + 1;
    }
    proof {
        assert(entries_view(rows@).skip(i as int) =~= Seq::<
            (Seq<char>, Seq<char>, TransferInfo),
        >::empty());
    }
    None
}

/// Scans penalty-index rows for a station/line pair, first match wins.
#[verifier::loop_isolation(false)]
fn tpi_find_in(entries: &Vec<TpiEntry>, station: &str, line: &str) -> (r: Option<u64>)
    ensures
        r == spec_tpi_rows_lookup(tpi_entries_view(entries@), station@, line@),
{
    let rows = entries;
    let mut i: usize = 0;
    proof {
        assert(tpi_entries_view(rows@).skip(0) =~= tpi_entries_view(rows@));
    }
    while i < rows.len()
        invariant
            i <= rows@.len(),
            spec_tpi_rows_lookup(tpi_entries_view(rows@), station@, line@) == spec_tpi_rows_lookup(
                tpi_entries_view(rows@).skip(i as int),
                station@,
                line@,
            ),
        decreases rows@.len() - i,
    {
        proof {
            assert(tpi_entries_view(rows@).skip(i as int)[0] == (
                rows@[i as int].station@,
                rows@[i as int].line@,
                rows@[i as int].tpi,
            ));
        }
        if str_eq(rows[i].station.as_str(), station) && str_eq(rows[i].line.as_str(), line) {
            proof {
                let rs = tpi_entries_view(rows@).skip(i as int);
                assert(rs.len() > 0);
                assert(rs[0].0 == station@ && rs[0].1 == line@);
                assert(spec_tpi_rows_lookup(rs, station@, line@) == Some(rs[0].2));
            }
            return Some(rows[i].tpi);
        }
        proof {
            assert(tpi_entries_view(rows@).skip(i as int).drop_first() =~= tpi_entries_view(
                rows@,
            ).skip(i as int + 1));
        }
        i = i + 1;
    }
    proof {
        assert(tpi_entries_view(rows@).skip(i as int) =~= Seq::<(Seq<char>, Seq<char>, u64)>::empty());
    }
    None
}

/// Buffer minutes for the recognized hub stations, first matching name
/// fragment wins; 0 for any other station.
pub open spec fn spec_hub_buffer_minutes(s: Seq<char>) -> u64 {
    if spec_contains(s, "Shinjuku"@) {
        4u64
    } else if spec_contains(s, "Tokyo"@) {
        5u64
    } else if spec_contains(s, "Shibuya"@) {
        4u64
    } else if spec_contains(s, "Ikebukuro"@) {
        3u64
    } else if spec_contains(s, "Shinagawa"@) {
        3u64
    } else if spec_contains(s, "Ueno"@) {
        3u64
    } else if spec_contains(s, "Omiya"@) {
        3u64
    } else if spec_contains(s, "Yokohama"@) {
        3u64
    } else if spec_contains(s, "Chiba"@) {
        3u64
    } else if spec_contains(s, "NaritaAirport"@) {
        8u64
    } else if spec_contains(s, "HanedaAirport"@) {
        6u64
    } else {
        0u64
    }
}

/// The hub buffer in minutes for a station, from the fixed hub list.
pub fn get_hub_buffer_minutes(station_id: &str) -> (r: u64)
    ensures
        r == spec_hub_buffer_minutes(station_id@),
{
    let s = chars_vec(station_id);
    let names: [&str; 11] = [
        "Shinjuku",
        "Tokyo",
        "Shibuya",
        "Ikebukuro",
        "Shinagawa",
        "Ueno",
        "Omiya",
        "Yokohama",
        "Chiba",
        "NaritaAirport",
        "HanedaAirport",
    ];
    let minutes: [u64; 11] = [4, 5, 4, 3, 3, 3, 3, 3, 3, 8, 6];
    if contains_chars(&s, &chars_vec(names[0])) {
        return minutes[0];
    }
    if contains_chars(&s, &chars_vec(names[1])) {
        return minutes[1];
    }
    if contains_chars(&s, &chars_vec(names[2])) {
        return minutes[2];
    }
    if contains_chars(&s, &chars_vec(names[3])) {
        return minutes[3];
    }
    if contains_chars(&s, &chars_vec(names[4])) {
        return minutes[4];
    }
    if contains_chars(&s, &chars_vec(names[5])) {
        return minutes[5];
    }
    if contains_chars(&s, &chars_vec(names[6])) {
        return minutes[6];
    }
    if contains_chars(&s, &chars_vec(names[7])) {
        return minutes[7];
    }
    if contains_chars(&s, &chars_vec(names[8])) {
        return minutes[8];
    }
    if contains_chars(&s, &chars_vec(names[9])) {
        return minutes[9];
    }
    if contains_chars(&s, &chars_vec(names[10])) {
        return minutes[10];
    }
    0
}

/// The walking distance of a transfer in meters: the known-pairs entry when
/// there is one; otherwise 100 m when the structural line token of the
/// station matches that of the target line (a same-complex transfer) and
/// 250 m otherwise.
pub open spec fn spec_transfer_distance(db: TransferDb, from: Seq<char>, to_line: Seq<char>) -> u64 {
    match db.spec_lookup(from, to_line) {
        Some(info) => info.walking_distance_meters,
        None => {
            let fp = crate::text::spec_split(from, '.');
            let tp = crate::text::spec_split(to_line, '.');
            if fp.len() > 2 && tp.len() > 2 && fp[2] == tp[2] {
                100u64
            } else {
                250u64
            }
        },
    }
}

/// Computes the walking distance of a transfer.
pub fn get_transfer_distance(db: &TransferDb, from_station_id: &str, to_line_id: &str) -> (r: u64)
    ensures
        r == spec_transfer_distance(*db, from_station_id@, to_line_id@),
{
    if let Some(info) = db.lookup(from_station_id, to_line_id) {
        return info.walking_distance_meters;
    }
    let fc = chars_vec(from_station_id);
    let tc = chars_vec(to_line_id);
    let fp = crate::text::split_chars(&fc, '.');
    let tp = crate::text::split_chars(&tc, '.');
    if fp.len() > 2 && tp.len() > 2 {
        proof {
            assert(fp@[2]@ == fp.deep_view()[2]);
            assert(tp@[2]@ == tp.deep_view()[2]);
        }
        if crate::text::chars_eq(&fp[2], &tp[2]) {
            return 100;
        }
    }
    250
}

/// Whether a transfer leaves the fare gates: stations named like the
/// special-cased Kuramae complex always do; otherwise any walk longer than
/// 200 m does.
pub open spec fn spec_out_of_station(from: Seq<char>, distance: u64) -> bool {
    spec_contains(from, "Kuramae"@) || distance > 200
}

/// Decides whether a transfer is an out-of-station transfer.
pub fn is_out_of_station_transfer(from_station_id: &str, distance: u64) -> (r: bool)
    ensures
        r == spec_out_of_station(from_station_id@, distance),
{
    let fc = chars_vec(from_station_id);
    if contains_chars(&fc, &chars_vec("Kuramae")) {
        return true;
    }
    distance > 200
}

/// Whether a transfer changes operators: both identifiers carry an operator
/// token and the tokens differ.
pub open spec fn spec_operator_change(from: Seq<char>, to_line: Seq<char>) -> bool {
    match (spec_operator_from_station_id(from), spec_operator_from_line_id(to_line)) {
        (Some(a), Some(b)) => a != b,
        _ => false,
    }
}

/// The hub-buffer scale in score-exact units per hub minute: journeys need
/// less buffer early on (hop index under 4), more later (under 8), and the
/// full buffer beyond that.
pub open spec fn spec_hub_scale_units(hops: u64) -> u64 {
    if hops < 4 {
        240u64
    } else if hops < 8 {
        420u64
    } else {
        600u64
    }
}

/// The time a transfer takes, in 1/600-minute units:
/// `distance/60 min + 2 min if out-of-station + 1.5 min on an operator
/// change + hub buffer scaled by journey stage + tpi/10 min + half a minute
/// per floor`, where the penalty terms come from the knowledge base when the
/// pair is known and from the preset table otherwise.
pub open spec fn spec_transfer_time_units(
    db: TransferDb,
    tpi: PresetTpi,
    from: Seq<char>,
    to_line: Seq<char>,
    hops: u64,
) -> int {
    let d = spec_transfer_distance(db, from, to_line);
    d * 10 + (
    if spec_out_of_station(from, d) {
        1200int
    } else {
        0int
    }) + (
    if spec_operator_change(from, to_line) {
        900int
    } else {
        0int
    }) + spec_hub_buffer_minutes(from) * spec_hub_scale_units(hops) + (
    match db.spec_lookup(from, to_line) {
        Some(info) => info.base_tpi * 60 + info.floor_difference * 300,
        None => match tpi.spec_lookup(from, to_line) {
            Some(t) => t * 60int,
            None => 0int,
        },
    })
}

/// Computes the time a transfer takes, in 1/600-minute units, together with
/// its walking distance in meters.  Returns `None` exactly when the time
/// does not fit in a `u64`.
pub fn transfer_time_units(
    db: &TransferDb,
    tpi: &PresetTpi,
    from_station_id: &str,
    to_line_id: &str,
    hops: u64,
) -> (r: Option<(u64, u64)>)
    ensures
        spec_transfer_time_units(*db, *tpi, from_station_id@, to_line_id@, hops) <= u64::MAX ==> r
            == Some(
            (
                spec_transfer_time_units(*db, *tpi, from_station_id@, to_line_id@, hops) as u64,
                spec_transfer_distance(*db, from_station_id@, to_line_id@),
            ),
        ),
        spec_transfer_time_units(*db, *tpi, from_station_id@, to_line_id@, hops) > u64::MAX ==> r
            is None,
{
    let d = get_transfer_distance(db, from_station_id, to_line_id);
    let base = d.checked_mul(10)?;
    let out_add: u64 = if is_out_of_station_transfer(from_station_id, d) {
        1200
    } else {
        0
    };
    let op_add: u64 = {
        let from_op = operator_from_station_id(from_station_id);
        let to_op = operator_from_line_id(to_line_id);
        match (from_op, to_op) {
            (Some(a), Some(b)) => if !str_eq(a.as_str(), b.as_str()) {
                900
            } else {
                0
            },
            _ => 0,
        }
    };
    let hub = get_hub_buffer_minutes(from_station_id);
    let hub_add = hub.checked_mul(hub_scale_units(hops))?;
    let tpi_add: u64 = match db.lookup(from_station_id, to_line_id) {
        Some(info) => {
            let a = info.base_tpi.checked_mul(60)?;
            let b = info.floor_difference.checked_mul(300)?;
            a.checked_add(b)?
        },
        None => match tpi.lookup(from_station_id, to_line_id) {
            Some(t) => t.checked_mul(60)?,
            None => 0,
        },
    };
    let s = base.checked_add(out_add)?;
    let s = s.checked_add(op_add)?;
    let s = s.checked_add(hub_add)?;
    let s = s.checked_add(tpi_add)?;
    Some((s, d))
}

/// The hub-buffer scale for a journey stage.
fn hub_scale_units(hops: u64) -> (r: u64)
    ensures
        r == spec_hub_scale_units(hops),
{
    if hops < 4 {
        240
    } else if hops < 8 {
        420
    } else {
        600
    }
}

} // verus!
