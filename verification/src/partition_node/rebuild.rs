//! What becomes of a rebuild of the index, and what is measured of it.
use crate::index::builder::RebuildError;
use crate::index::IndexGeneration;
use vstd::prelude::*;

verus! {

/// What is served after a rebuild.
pub enum NextGeneration {
    /// The index that was built.
    Serve(IndexGeneration),
    /// What was served before: the rebuild failed.
    Keep(RebuildError),
}

/// A rebuild that failed changes nothing; one that did not takes over.
pub fn next_generation(result: Result<IndexGeneration, RebuildError>) -> (r: NextGeneration)
    ensures
        r == (match result {
            Ok(g) => NextGeneration::Serve(g),
            Err(e) => NextGeneration::Keep(e),
        }),
{
    match result {
        Ok(g) => NextGeneration::Serve(g),
        Err(e) => NextGeneration::Keep(e),
    }
}

/// What is measured of an index that was just built.
#[derive(Clone, Copy, Debug, PartialEq, Eq, Structural)]
pub struct Gauges {
    pub nodes: i64,
    pub edges: i64,
    pub snapshot_age_secs: i64,
}

/// The name of the outcome of a rebuild, and the gauges that it sets.
pub fn rebuild_metrics(result: &Result<IndexGeneration, RebuildError>) -> (r: (
    &'static str,
    Option<Gauges>,
))
    ensures
        r.0@ == (if result is Ok {
            "ok"@
        } else {
            "error"@
        }),
        r.1 == (match result {
            Ok(g) => Some(
                Gauges {
                    nodes: #[verifier::truncate] (g.meta.node_count as i64),
                    edges: #[verifier::truncate] (g.meta.edge_count as i64),
                    snapshot_age_secs: 0,
                },
            ),
            Err(_) => None,
        }),
{
    match result {
        Ok(g) => (
            "ok",
            Some(
                Gauges {
                    nodes: #[verifier::truncate] (g.meta.node_count as i64),
                    edges: #[verifier::truncate] (g.meta.edge_count as i64),
                    snapshot_age_secs: 0,
                },
            ),
        ),
        Err(_) => ("error", None),
    }
}

/// The age of an index in whole seconds, from milliseconds since the Unix
/// epoch. An index from the future has no age.
pub fn snapshot_age_secs(now_unix_ms: i64, built_at_unix_ms: i64) -> (r: i64)
    requires
        i64::MIN <= now_unix_ms - built_at_unix_ms <= i64::MAX,
    ensures
        r == (if now_unix_ms <= built_at_unix_ms {
            0
        } else {
            (now_unix_ms - built_at_unix_ms) / 1000
        }),
{
    let age: i64 = now_unix_ms - built_at_unix_ms;
    if age <= 0 {
        0
    } else {
        age / 1000
    }
}

} // verus!
