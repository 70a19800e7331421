//! A persistent, probabilistically balanced binary hash trie with a
//! naming discipline for incremental recomputation: every subtree can
//! carry a stable identity and sit behind a shared articulation cell,
//! and both are invisible to queries, folds and equality. The trie
//! serves as a set or a finite map; placement follows the low-order
//! bits of a key's hash, with a configurable minimum branch depth.
//!
//! Each operation carries a contract over the trie's element set, and
//! the shape of a well-formed trie is proved canonical in that set:
//! insertion order and caching wrappers leave no observable trace.

use vstd::prelude::*;

verus! {

/// Number of low-order hash bits available to address trie nodes; no
/// trie path is ever longer than this.
pub const MAX_LEN: u64 = 30;

/// Per-trie configuration: the minimum number of branch levels that
/// must lie above any leaf.
#[derive(Clone, Copy, Debug, Hash, PartialEq, Eq, Structural)]
pub struct Meta {
    pub min_depth: u64,
}

impl Meta {
    /// A meta is usable once its minimum depth has been clamped into
    /// `[0, MAX_LEN]`.
    pub open spec fn wf(self) -> bool {
        self.min_depth <= MAX_LEN
    }

    /// The configuration actually used: a requested minimum depth
    /// beyond the addressable range is brought back to `MAX_LEN`.
    pub open spec fn clamp(self) -> Meta {
        if self.min_depth <= MAX_LEN {
            self
        } else {
            Meta { min_depth: MAX_LEN }
        }
    }

    /// Clamp the requested minimum depth to the addressable range.
    pub fn clamped(self) -> (m: Meta)
        ensures
            m == self.clamp(),
            m.wf(),
    {
        if self.min_depth > MAX_LEN {
            Meta { min_depth: MAX_LEN }
        } else {
            self
        }
    }
}

} // verus!
pub mod bits;
pub mod names;
pub mod keys;
pub mod trie;
pub mod canon;
pub mod mapset;
pub mod fold;
pub mod elim;
