//! The messages nodes exchange over the network.

use vstd::prelude::*;

use crate::block::Block;
use crate::chain::Chain;

verus! {

/// A message sent between nodes in the blockchain network.
#[derive(Debug)]
pub enum Message {
    /// A newly mined block, announced so peers can adopt its proof of work.
    MinedBlock(Block),
    /// A new payload proposed for mining; only its data matters.
    NewBlock(Block),
    /// A request for the entire blockchain.
    ChainRequest,
    /// A response to a `ChainRequest`, carrying a full chain snapshot.
    ChainResponce(Chain),
}

} // verus!
