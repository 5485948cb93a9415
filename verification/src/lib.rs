//! Control plane of a hardware-assisted IPv4 router: the longest-prefix-match
//! routing trie, the cuckoo forwarding cache, the neighbour cache, the
//! buffer-ring protocol and the dispatch of slow-path frames, each with a
//! machine-checked contract.

pub mod buf;
pub mod bus;
pub mod cmd;
pub mod data;
pub mod firmware;
pub mod forward;
pub mod nc;
pub mod routing;
pub mod util;
