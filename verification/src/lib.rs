//! A concurrent domain-discovery crawler's core: a sharded visited-domain
//! store (flat history or a who-links-to-whom graph), public-suffix-aware
//! link-to-domain reduction, and the admission decision that gates whether
//! a freshly seen link is worth visiting.

use vstd::prelude::*;

pub mod crawl;
pub mod graph;
pub mod history;
pub mod parser;
pub mod shard;
pub mod stats;
pub mod text;

verus! {

/// Configuration consumed by a crawl run: where to start, how deep to go,
/// how long a fetch may take, and how finely the visited store is sharded.
pub struct Args {
    /// Fetch timeout in seconds.
    pub timeout: u64,
    /// Emit extra progress output.
    pub debug: bool,
    /// Seed URL the crawl starts from.
    pub url: String,
    /// Maximum recursive visitation depth.
    pub depth: u16,
    /// Number of independent shards in the visited store.
    pub shards: u64,
}

impl Args {
    pub fn new(timeout: u64, debug: bool, url: String, depth: u16, shards: u64) -> (a: Args)
        ensures
            a.timeout == timeout,
            a.debug == debug,
            a.url == url,
            a.depth == depth,
            a.shards == shards,
    {
        Args { timeout, debug, url, depth, shards }
    }
}

} // verus!
