//! Multimodal rail itinerary engine: a multi-criteria shortest-path search
//! over a station graph with a heuristic transfer-cost model, and a fuzzy
//! multilingual station-name resolver.
//!
//! All durations are carried as integers in units of 1/600 minute and all
//! profile scores in units of 1/12000 minute, so that every term of the cost
//! and scoring formulas is exact.

pub mod assemble;
pub mod costs;
pub mod graph;
pub mod levenshtein;
pub mod resolver;
pub mod search;
pub mod station_id;
pub mod text;
pub mod transfer;
