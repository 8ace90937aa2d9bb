//! Options of the overlay that hold for every topic of a node.

use vstd::prelude::*;

verus! {

/// The overlay's options.
#[derive(Clone, Copy, Debug)]
pub struct Config {
    /// An active view with fewer peers than this is starved.
    pub min_active_view_size: usize,
    /// An active view with this many peers is saturated.
    pub max_active_view_size: usize,
    /// The passive view holds no more peers than this.
    pub max_passive_view_size: usize,
    /// A join request is admitted unconditionally by the node it reaches after this many hops.
    pub forward_join_hops_count: u16,
    /// Time between two shuffle ticks, in milliseconds.
    pub shuffle_interval_millis: u64,
    /// The number of peers that a shuffle advertises.
    pub shuffle_sample_size: usize,
    /// The most peers that a shuffle reply advertises.
    pub shuffle_passive_size: usize,
    /// A shuffle is answered by the node it reaches after this many hops.
    pub shuffle_hops_count: u16,
}

impl Config {
    /// The active view has room for a peer.
    pub open spec fn wf(&self) -> bool {
        self.max_active_view_size >= 1
    }
}

} // verus!
