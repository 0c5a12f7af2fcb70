//! Search options as the command line gives them, brought within their bounds.

use vstd::prelude::*;

use crate::score::Score;
use crate::text::trim;
#[allow(unused_imports)]
use crate::text::trimmed;

verus! {

/// The most entries of one request: a choice has at most this many options.
pub const MAX_OPTIONS: usize = 255;

/// The fewest bytes of a file that a content check sends.
pub const MIN_BYTES: usize = 256;

/// What a search is to do.
#[derive(Debug)]
pub struct Opts {
    pub query: String,
    /// Concurrent calls.
    pub parallel: usize,
    /// Entries of one batch.
    pub batch: usize,
    /// Hard cap on the entries of one request.
    pub max_batch: usize,
    /// Relevance thresholds, one per round.
    pub thresholds: Vec<Score>,
    /// Bytes of a file that a content check sends.
    pub bytes: usize,
    /// Line ranges of the heatmap of a file.
    pub ranges: usize,
    /// Hits after which the threshold is not lowered further.
    pub min_hits: usize,
    pub keywords: Vec<String>,
}

/// `n` moved into the range from `low` to `high`.
pub open spec fn clamped(n: usize, low: usize, high: usize) -> usize {
    if n < low {
        low
    } else if n > high {
        high
    } else {
        n
    }
}

impl Opts {
    /// Whether every option is within its bounds.
    pub open spec fn in_bounds(self) -> bool {
        &&& 1 <= self.parallel
        &&& 1 <= self.batch <= self.max_batch <= MAX_OPTIONS
        &&& MIN_BYTES <= self.bytes
        &&& 1 <= self.ranges <= MAX_OPTIONS
        &&& 1 <= self.min_hits
    }

    /// The options with each of them moved to the nearest bound that it breaks.
    pub open spec fn bounded(self) -> Opts {
        let max_batch = clamped(self.max_batch, 1, MAX_OPTIONS);
        Opts {
            parallel: clamped(self.parallel, 1, usize::MAX),
            batch: clamped(self.batch, 1, max_batch),
            max_batch,
            bytes: clamped(self.bytes, MIN_BYTES, usize::MAX),
            ranges: clamped(self.ranges, 1, MAX_OPTIONS),
            min_hits: clamped(self.min_hits, 1, usize::MAX),
            ..self
        }
    }

    /// Moves each option within its bounds.
    pub fn bound(self) -> (r: Opts)
        ensures
            r == self.bounded(),
            r.in_bounds(),
    {
        let max_batch: usize = clamp(self.max_batch, 1, MAX_OPTIONS);
        Opts {
            query: self.query,
            parallel: clamp(self.parallel, 1, usize::MAX),
            batch: clamp(self.batch, 1, max_batch),
            max_batch,
            thresholds: self.thresholds,
            bytes: clamp(self.bytes, MIN_BYTES, usize::MAX),
            ranges: clamp(self.ranges, 1, MAX_OPTIONS),
            min_hits: clamp(self.min_hits, 1, usize::MAX),
            keywords: self.keywords,
        }
    }
}

/// Options within their bounds stay as they are.
pub proof fn bounding_keeps_bounded_options(opts: Opts)
    requires
        opts.in_bounds(),
    ensures
        opts.bounded() == opts,
{
}

fn clamp(n: usize, low: usize, high: usize) -> (r: usize)
    requires
        low <= high,
    ensures
        r == clamped(n, low, high),
{
    if n < low {
        low
    } else if n > high {
        high
    } else {
        n
    }
}

/// Whether there is a threshold, and every one is a probability.
pub fn thresholds_valid(thresholds: &Vec<Score>) -> (b: bool)
    ensures
        b == (thresholds@.len() > 0 && forall|i: int|
            0 <= i < thresholds@.len() ==> (#[trigger] thresholds@[i]).probability()),
{
    let mut i: usize = 0;
    while i < thresholds.len()
        invariant
            i <= thresholds@.len(),
            forall|j: int| 0 <= j < i ==> (#[trigger] thresholds@[j]).probability(),
        decreases thresholds@.len() - i,
    {
        if !thresholds[i].is_probability() {
            return false;
        }
        i = i + 1;
    }
    thresholds.len() > 0
}

/// Sorts out the positional arguments: the query, and the path if it was taken for
/// a query. A benchmark brings its own queries, so a lone positional is its path.
pub fn positionals(bench: bool, default_path: bool, query: Option<String>) -> (r: (
    Option<String>,
    Option<String>,
))
    ensures
        bench && default_path ==> r == (None::<String>, query),
        !(bench && default_path) ==> r == (query, None::<String>),
{
    if bench && default_path {
        (None, query)
    } else {
        (query, None)
    }
}

/// Whether the query says anything.
pub fn is_query(query: &str) -> (b: bool)
    ensures
        b == (trimmed(query@).len() > 0),
{
    !trim(query).is_empty()
}

/// What bounding does, in numbers: options within their bounds stay, others move to the
/// bound that they break, and what has no bound is kept.
pub proof fn bounds_in_numbers(opts: Opts)
    ensures
        ({
            let b = opts.bounded();
            &&& b.parallel == (if opts.parallel == 0 { 1 } else { opts.parallel })
            &&& b.min_hits == (if opts.min_hits == 0 { 1 } else { opts.min_hits })
            &&& b.bytes == (if opts.bytes < 256 { 256 } else { opts.bytes })
            &&& 1 <= opts.ranges <= 255 ==> b.ranges == opts.ranges
            &&& opts.ranges == 0 ==> b.ranges == 1
            &&& opts.ranges > 255 ==> b.ranges == 255
            &&& 1 <= opts.max_batch <= 255 ==> b.max_batch == opts.max_batch
            &&& opts.max_batch == 0 ==> b.max_batch == 1
            &&& opts.max_batch > 255 ==> b.max_batch == 255
            &&& 1 <= opts.batch <= b.max_batch ==> b.batch == opts.batch
            &&& opts.batch == 0 ==> b.batch == 1
            &&& opts.batch > b.max_batch ==> b.batch == b.max_batch
            &&& b.query == opts.query
            &&& b.thresholds == opts.thresholds
            &&& b.keywords == opts.keywords
        }),
{
}

} // verus!
