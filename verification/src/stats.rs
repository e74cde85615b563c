//! Cumulative counters describing how the engine spent its work.

use vstd::prelude::*;

use crate::text::{decimal, push_decimal};

verus! {

/// `a + b`, stopping at `u64::MAX`.
pub open spec fn sat_add(a: u64, b: u64) -> u64 {
    if a + b > u64::MAX {
        u64::MAX
    } else {
        (a + b) as u64
    }
}

/// A snapshot of how a database resolved its queries.
///
/// Every derived query resolution takes exactly one of three paths, and each
/// is counted: `computed` (the query ran its `compute`), `validated` (a stale
/// query whose dependencies proved unchanged, reused without recomputing), and
/// `hits` (a query already verified at the current revision). The counters are
/// cumulative and only ever increase.
#[derive(Debug, Clone, Copy, PartialEq, Eq)]
pub struct Stats {
    /// The number of times a query ran its `compute` function.
    pub computed: u64,
    /// The number of times a stale query was revalidated and its cached value
    /// reused because no dependency changed (early cutoff).
    pub validated: u64,
    /// The number of times a query was already current and returned immediately.
    pub hits: u64,
}

impl Default for Stats {
    /// All counters at zero.
    fn default() -> (s: Stats)
        ensures
            s == (Stats { computed: 0, validated: 0, hits: 0 }),
    {
        Stats { computed: 0, validated: 0, hits: 0 }
    }
}

impl Stats {
    /// Every counter of `self` is at most the matching counter of `later`.
    pub open spec fn counts_le(self, later: Stats) -> bool {
        &&& self.computed <= later.computed
        &&& self.validated <= later.validated
        &&& self.hits <= later.hits
    }

    /// A resolution was counted between `self` and `later`: one of the
    /// counters grew, or has reached `u64::MAX`.
    pub open spec fn counted(self, later: Stats) -> bool {
        ||| self.computed < later.computed
        ||| self.validated < later.validated
        ||| self.hits < later.hits
        ||| later.computed == u64::MAX
        ||| later.validated == u64::MAX
        ||| later.hits == u64::MAX
    }

    /// The total number of derived-query resolutions across all three paths,
    /// saturating at `u64::MAX`.
    pub fn total(self) -> (t: u64)
        ensures
            t == sat_add(sat_add(self.computed, self.validated), self.hits),
            t as int == if self.computed + self.validated + self.hits > u64::MAX {
                u64::MAX as int
            } else {
                self.computed + self.validated + self.hits
            },
    {
        self.computed.saturating_add(self.validated).saturating_add(self.hits)
    }

    /// The counters as text: `computed=C, validated=V, hits=H`.
    pub fn to_string(&self) -> (s: String)
        ensures
            s@ == "computed="@ + decimal(self.computed as nat) + ", validated="@ + decimal(
                self.validated as nat,
            ) + ", hits="@ + decimal(self.hits as nat),
    {
        let mut s = String::from_str("computed=");
        push_decimal(&mut s, self.computed);
        s.append(", validated=");
        push_decimal(&mut s, self.validated);
        s.append(", hits=");
        push_decimal(&mut s, self.hits);
        s
    }
}

} // verus!
