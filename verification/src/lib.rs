//! The per-block inherent of a relay chain.

pub mod backing;
pub mod bitfields;
pub mod bits;
pub mod block;
pub mod candidate;
pub mod cores;
pub mod disabled;
pub mod dispatch;
pub mod disputes;
pub mod freed;
pub mod pallet;
pub mod pallet_decl;
pub mod primitives;
pub mod relay_parents;
pub mod retain;
pub mod rng;
pub mod runtime;
pub mod selection;
pub mod stages;
pub mod totals;
pub mod transcript;
pub mod votes;
pub mod weight;
pub mod weight_limit;
