//! KARST: the verified core of a network stack with no seizable chokepoint.

pub mod bulk;
pub mod chance;
pub mod checks;
pub mod client;
pub mod codec;
pub mod collect;
pub mod directory;
pub mod doublespend;
pub mod feed;
pub mod frame;
pub mod lagrange;
pub mod freshness;
pub mod lineage;
pub mod mail;
pub mod node;
pub mod object;
pub mod order;
pub mod pacer;
pub mod path;
pub mod placement;
pub mod prime;
pub mod provider;
pub mod seal;
pub mod sentinel;
pub mod shamir;
pub mod symmetry;
pub mod value;
pub mod thread;
pub mod watch;
pub mod wire;
pub mod witness;
