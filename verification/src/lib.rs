//! Cluster membership and quorum arithmetic for a Raft-style replicated log.
//!
//! [`cluster::ClusterConfig`] tracks which nodes vote while the membership
//! is stable and while it is being changed through joint consensus.
//! [`quorum`] computes the value that a strict majority of a member set is
//! guaranteed to hold, over the total order of [`order`] and with the sort
//! of [`sort`].
pub mod cluster;
pub mod node;
pub mod order;
pub mod quorum;
pub mod sort;
