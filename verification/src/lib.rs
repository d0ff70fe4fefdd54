//! Weight: a dependency-graph discovery and aggregation engine for
//! TypeScript/JavaScript modules.
//!
//! Starting from one root file, the engine walks the static import graph,
//! visiting every reachable file exactly once, and aggregates per-file
//! measurements (raw source byte length and minified-plus-compressed size)
//! into a deterministic report. Parsing, type stripping, minification and
//! the driving I/O live outside the library; the engine consumes their
//! results as plain values.

pub mod measure;
pub mod path;
pub mod walk;

use vstd::prelude::*;

verus! {

/// The measurement record for one file: its canonical identity, its raw
/// source text, the import specifiers as written in source (in order,
/// duplicates preserved), the minified source text, and the measured size
/// in bytes after minification and compression.
pub struct Weight {
    pub path: String,
    pub source: String,
    pub imports: Vec<String>,
    pub minified: String,
    pub size: usize,
}

/// The mathematical model of a [`Weight`]: every text as a sequence of
/// characters and the size as an unbounded natural.
pub ghost struct WeightView {
    pub path: Seq<char>,
    pub source: Seq<char>,
    pub imports: Seq<Seq<char>>,
    pub minified: Seq<char>,
    pub size: nat,
}

impl View for Weight {
    type V = WeightView;

    open spec fn view(&self) -> WeightView {
        WeightView {
            path: self.path@,
            source: self.source@,
            imports: self.imports@.map_values(|s: String| s@),
            minified: self.minified@,
            size: self.size as nat,
        }
    }
}

} // verus!
