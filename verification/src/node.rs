//! The node: owner of a chain, driver of the miner, and the reconciliation
//! rules it applies to every message and worker result. The surrounding
//! event loop only forwards events to the two `handle_*` methods and carries
//! their output to the network and the miner.

use vstd::prelude::*;

use crate::block::{bytes32_lt, bytes_lt, Block};
use crate::chain::{
    chain_equal, chain_valid_of, first_error_of, promoted_block, queued_block, Chain,
};
use crate::crypto::hex_of;
use crate::message::Message;
use crate::strutil::{ends_with_spec, str_ends_with};

verus! {

/// A node in the blockchain network: its chain and the difficulty suffix its
/// miner must satisfy.
#[derive(Debug)]
pub struct Node {
    /// The blockchain maintained by this node.
    pub chain: Chain,
    /// The difficulty suffix for mining blocks.
    pub difficult: String,
}

/// A node's reaction to one event: the messages it publishes, and possibly a
/// fresh candidate block to hand to the miner together with the node's
/// difficulty.
pub struct NodeStep {
    /// Messages to publish to the network, in order.
    pub outbound: Vec<Message>,
    /// A candidate block for the miner, if a promotion fired.
    pub work: Option<Block>,
}

/// The promotion step fires when the chain is sealed and a block is waiting.
pub open spec fn promote_fires(status: bool, queue: Seq<Block>) -> bool {
    status && queue.len() > 0
}

/// The blocks after the promotion step.
pub open spec fn promote_blocks(blocks: Seq<Block>, status: bool, queue: Seq<Block>) -> Seq<
    Block,
> {
    if promote_fires(status, queue) {
        blocks.push(promoted_block(blocks, queue))
    } else {
        blocks
    }
}

/// The sealed flag after the promotion step: cleared when a candidate was
/// promoted.
pub open spec fn promote_status(blocks: Seq<Block>, status: bool, queue: Seq<Block>) -> bool {
    if promote_fires(status, queue) {
        false
    } else {
        status
    }
}

/// The queue after the promotion step.
pub open spec fn promote_queue(blocks: Seq<Block>, status: bool, queue: Seq<Block>) -> Seq<Block> {
    if promote_fires(status, queue) {
        queue.drop_first()
    } else {
        queue
    }
}

/// The work item the promotion step hands to the miner.
pub open spec fn promote_work(blocks: Seq<Block>, status: bool, queue: Seq<Block>) -> Option<
    Block,
> {
    if promote_fires(status, queue) {
        Some(promoted_block(blocks, queue))
    } else {
        None
    }
}

/// The promotion step, run from the chain state `(blocks, status, queue)`,
/// leaves the chain `post` and hands `work` to the miner.
pub open spec fn promote_step_rel(
    blocks: Seq<Block>,
    status: bool,
    queue: Seq<Block>,
    post: Chain,
    work: Option<Block>,
) -> bool {
    &&& post.blocks@ == promote_blocks(blocks, status, queue)
    &&& post.status == promote_status(blocks, status, queue)
    &&& post.queue@ == promote_queue(blocks, status, queue)
    &&& work == promote_work(blocks, status, queue)
}

/// The check on announced blocks: such a block is ignored when its stored
/// hash differs from its computed hash while its hex hash still ends with
/// the difficulty suffix.
///
/// Note: this admits announcements that fail the difficulty test; a stricter
/// rule would drop those too.
pub open spec fn mined_rejected(b: Block, difficulty: Seq<char>) -> bool {
    !b.hash_valid() && ends_with_spec(hex_of(b.hash@), difficulty)
}

/// An announced block replaces the sealed tail's proof of work: same slot,
/// same payload and link, and a strictly smaller hash wins the tie-break.
pub open spec fn tail_replace(blocks: Seq<Block>, status: bool, b: Block) -> bool {
    &&& b.id == blocks.last().id
    &&& status
    &&& b.preequal_spec(blocks.last())
    &&& bytes_lt(b.hash@, blocks.last().hash@)
}

/// A peer mined our candidate first: same slot, same payload and link, while
/// our own search is still running.
pub open spec fn tail_adopt(blocks: Seq<Block>, status: bool, b: Block) -> bool {
    &&& b.id == blocks.last().id
    &&& !status
    &&& b.preequal_spec(blocks.last())
}

/// The tail with `b`'s proof of work written into it.
pub open spec fn tail_updated(blocks: Seq<Block>, b: Block) -> Seq<Block> {
    blocks.update(blocks.len() - 1, Block { hash: b.hash, nonce: b.nonce, ..blocks.last() })
}

/// The blocks after the tail rules for an announced block.
pub open spec fn mined_blocks_mid(blocks: Seq<Block>, status: bool, b: Block) -> Seq<Block> {
    if tail_replace(blocks, status, b) || tail_adopt(blocks, status, b) {
        tail_updated(blocks, b)
    } else {
        blocks
    }
}

/// The sealed flag after the tail rules: set when a peer sealed our
/// candidate.
pub open spec fn mined_status_mid(blocks: Seq<Block>, status: bool, b: Block) -> bool {
    if tail_adopt(blocks, status, b) {
        true
    } else {
        status
    }
}

/// How many chain requests handling an announced block sends on a non-empty
/// chain: one when the announcement is ahead of our tail, and one more when
/// the integrity check finds an error afterwards.
pub open spec fn mined_requests(blocks: Seq<Block>, status: bool, b: Block) -> int {
    let behind: int = if b.id > blocks.last().id {
        1
    } else {
        0
    };
    if first_error_of(mined_blocks_mid(blocks, status, b), mined_status_mid(blocks, status, b))
        is Some {
        behind + 1
    } else {
        behind
    }
}

/// The blocks after handling an announced block on a non-empty chain: on a
/// detected error, the blocks from the first offender on are cut off.
pub open spec fn mined_post_blocks(blocks: Seq<Block>, status: bool, b: Block) -> Seq<Block> {
    let mid = mined_blocks_mid(blocks, status, b);
    match first_error_of(mid, mined_status_mid(blocks, status, b)) {
        None => mid,
        Some(i) => mid.take(i),
    }
}

/// The sealed flag after handling an announced block on a non-empty chain:
/// chain repair leaves the remaining prefix sealed.
pub open spec fn mined_post_status(blocks: Seq<Block>, status: bool, b: Block) -> bool {
    let mid = mined_blocks_mid(blocks, status, b);
    match first_error_of(mid, mined_status_mid(blocks, status, b)) {
        None => mined_status_mid(blocks, status, b),
        Some(i) => true,
    }
}

/// The queue after handling an announced block on a non-empty chain: chain
/// repair moves the cut-off blocks, in their chain order, to the front of
/// the queue.
pub open spec fn mined_post_queue(
    blocks: Seq<Block>,
    status: bool,
    queue: Seq<Block>,
    b: Block,
) -> Seq<Block> {
    let mid = mined_blocks_mid(blocks, status, b);
    match first_error_of(mid, mined_status_mid(blocks, status, b)) {
        None => queue,
        Some(i) => mid.skip(i) + queue,
    }
}

/// A peer chain is adopted when it has no detectable errors and is strictly
/// longer than ours.
pub open spec fn adopts(pre_blocks: Seq<Block>, peer: Chain) -> bool {
    chain_valid_of(peer.blocks@, peer.status) && peer.blocks@.len() > pre_blocks.len()
}

/// A worker result is committed when the chain still has an unsealed
/// candidate and the result's hash matches the candidate with the result's
/// nonce written in: a guard against worker and chain drifting apart.
pub open spec fn worker_commits(blocks: Seq<Block>, status: bool, h: [u8; 32], n: u64) -> bool {
    &&& !status
    &&& blocks.len() > 0
    &&& (Block { hash: h, nonce: n, ..blocks.last() }).hash_valid()
}

/// The blocks after a worker result: on a commit, the candidate tail takes
/// the found proof of work.
pub open spec fn worker_post_blocks(blocks: Seq<Block>, status: bool, h: [u8; 32], n: u64) -> Seq<
    Block,
> {
    if worker_commits(blocks, status, h, n) {
        blocks.update(blocks.len() - 1, Block { hash: h, nonce: n, ..blocks.last() })
    } else {
        blocks
    }
}

/// The sealed flag after a worker result.
pub open spec fn worker_post_status(blocks: Seq<Block>, status: bool, h: [u8; 32], n: u64) -> bool {
    if worker_commits(blocks, status, h, n) {
        true
    } else {
        status
    }
}

/// The node's reaction to one inbound message, promotion step included.
pub open spec fn step_spec(
    pre: Node,
    msg: Message,
    post: Node,
    outbound: Seq<Message>,
    work: Option<Block>,
) -> bool {
    let b0 = pre.chain.blocks@;
    let s0 = pre.chain.status;
    let q0 = pre.chain.queue@;
    match msg {
        Message::NewBlock(nb) => {
            &&& outbound.len() == 0
            &&& promote_step_rel(b0, s0, q0.push(queued_block(b0, q0, nb)), post.chain, work)
        },
        Message::ChainRequest => {
            &&& outbound.len() == 1
            &&& outbound[0] matches Message::ChainResponce(c) && chain_equal(c, pre.chain)
            &&& promote_step_rel(b0, s0, q0, post.chain, work)
        },
        Message::ChainResponce(peer) => {
            &&& outbound.len() == 0
            &&& if adopts(b0, peer) {
                promote_step_rel(peer.blocks@, peer.status, peer.queue@, post.chain, work)
            } else {
                promote_step_rel(b0, s0, q0, post.chain, work)
            }
        },
        Message::MinedBlock(mb) => {
            if mined_rejected(mb, pre.difficult@) {
                &&& post == pre
                &&& outbound.len() == 0
                &&& work is None
            } else if b0.len() == 0 {
                &&& outbound.len() == 1
                &&& outbound[0] is ChainRequest
                &&& promote_step_rel(b0, s0, q0, post.chain, work)
            } else {
                &&& outbound.len() == mined_requests(b0, s0, mb)
                &&& (forall|i: int| 0 <= i < outbound.len() ==> outbound[i] is ChainRequest)
                &&& promote_step_rel(
                    mined_post_blocks(b0, s0, mb),
                    mined_post_status(b0, s0, mb),
                    mined_post_queue(b0, s0, q0, mb),
                    post.chain,
                    work,
                )
            }
        },
    }
}

/// The node's reaction to one worker result, promotion step included.
pub open spec fn worker_step_spec(
    pre: Node,
    h: [u8; 32],
    n: u64,
    post: Node,
    outbound: Seq<Message>,
    work: Option<Block>,
) -> bool {
    let b0 = pre.chain.blocks@;
    let s0 = pre.chain.status;
    let q0 = pre.chain.queue@;
    let b1 = worker_post_blocks(b0, s0, h, n);
    let s1 = worker_post_status(b0, s0, h, n);
    &&& if worker_commits(b0, s0, h, n) {
        outbound.len() == 1 && (outbound[0] matches Message::MinedBlock(m) && m.equal_spec(
            b1.last(),
        ))
    } else {
        outbound.len() == 0
    }
    &&& promote_step_rel(b1, s1, q0, post.chain, work)
}

impl Node {
    /// The node's single internal invariant: an unsealed chain has a
    /// candidate tail to mine.
    pub open spec fn wf(self) -> bool {
        !self.chain.status ==> self.chain.blocks@.len() > 0
    }

    /// Constructs a node over an initial chain with a difficulty suffix.
    pub fn new(chain: Chain, difficult: String) -> (r: Self)
        requires
            !chain.status ==> chain.blocks@.len() > 0,
        ensures
            r.chain == chain,
            r.difficult == difficult,
            r.wf(),
    {
        Node { chain, difficult }
    }

    /// The promotion step: if the chain is sealed and a block is waiting,
    /// promote it, clear the sealed flag, and return the new candidate for
    /// the miner.
    fn promote(&mut self) -> (work: Option<Block>)
        requires
            old(self).wf(),
        ensures
            final(self).difficult == old(self).difficult,
            final(self).wf(),
            promote_step_rel(
                old(self).chain.blocks@,
                old(self).chain.status,
                old(self).chain.queue@,
                final(self).chain,
                work,
            ),
    {
        if self.chain.status {
            if self.chain.try_add() {
                self.chain.status = false;
                let n = self.chain.blocks.len();
                let tail = self.chain.blocks[n - 1].clone();
                return Some(tail);
            }
        }
        None
    }

    /// Handles one inbound message and runs the promotion step, except after
    /// a rejected announcement.
    pub fn handle_message(&mut self, msg: Message) -> (step: NodeStep)
        requires
            old(self).wf(),
            msg is NewBlock ==> old(self).chain.blocks@.len() + old(self).chain.queue@.len()
                < usize::MAX,
        ensures
            final(self).wf(),
            final(self).difficult == old(self).difficult,
            step_spec(*old(self), msg, *final(self), step.outbound@, step.work),
    {
        let mut outbound: Vec<Message> = Vec::new();
        let mut rejected = false;
        match msg {
            Message::NewBlock(block) => {
                self.chain.add_queue(block);
            },
            Message::ChainRequest => {
                outbound.push(Message::ChainResponce(self.chain.clone()));
            },
            Message::ChainResponce(chain) => {
                if chain.have_errors().is_none() {
                    if chain.blocks.len() > self.chain.blocks.len() {
                        self.chain = chain;
                    }
                }
            },
            Message::MinedBlock(block) => {
                let valid = block.validate_hash();
                let hash_str = block.string_hash();
                let meets = str_ends_with(hash_str.as_str(), self.difficult.as_str());
                if !valid && meets {
                    rejected = true;
                } else {
                    let n = self.chain.blocks.len();
                    if n == 0 {
                        outbound.push(Message::ChainRequest);
                    } else {
                        let last_id = self.chain.blocks[n - 1].id;
                        let pre_eq = block.preequals(&self.chain.blocks[n - 1]);
                        let smaller = bytes32_lt(&block.hash, &self.chain.blocks[n - 1].hash);
                        if block.id == last_id && self.chain.status && pre_eq && smaller {
                            let mut tail = self.chain.blocks.pop().unwrap();
                            tail.hash = block.hash;
                            tail.nonce = block.nonce;
                            self.chain.blocks.push(tail);
                            assert(self.chain.blocks@ =~= tail_updated(
                                old(self).chain.blocks@,
                                block,
                            ));
                        } else if block.id == last_id && !self.chain.status && pre_eq {
                            let mut tail = self.chain.blocks.pop().unwrap();
                            tail.hash = block.hash;
                            tail.nonce = block.nonce;
                            self.chain.blocks.push(tail);
                            self.chain.status = true;
                            assert(self.chain.blocks@ =~= tail_updated(
                                old(self).chain.blocks@,
                                block,
                            ));
                        }
                        if block.id > last_id {
                            outbound.push(Message::ChainRequest);
                        }
                        let ghost mid_blocks = self.chain.blocks@;
                        let ghost mid_status = self.chain.status;
                        let ghost queue_before = self.chain.queue@;
                        assert(mid_blocks == mined_blocks_mid(old(self).chain.blocks@,
                            old(self).chain.status, block));
                        assert(mid_status == mined_status_mid(old(self).chain.blocks@,
                            old(self).chain.status, block));
                        let errors = self.chain.have_errors();
                        match errors {
                            Some(id) => {
                                assert(self.chain.blocks@.skip(self.chain.blocks@.len() as int)
                                    + queue_before =~= queue_before);
                                assert(self.chain.blocks@ =~= mid_blocks.take(
                                    self.chain.blocks@.len() as int,
                                ));
                                while self.chain.blocks.len() > id
                                    invariant
                                        id < mid_blocks.len(),
                                        id <= self.chain.blocks@.len(),
                                        self.chain.blocks@.len() <= mid_blocks.len(),
                                        self.difficult == old(self).difficult,
                                        self.chain.blocks@ == mid_blocks.take(
                                            self.chain.blocks@.len() as int,
                                        ),
                                        self.chain.queue@ == mid_blocks.skip(
                                            self.chain.blocks@.len() as int,
                                        ) + queue_before,
                                    decreases self.chain.blocks@.len(),
                                {
                                    let ghost len_before = self.chain.blocks@.len() as int;
                                    let tail = self.chain.blocks.pop().unwrap();
                                    self.chain.queue.push_front(tail);
                                    assert(self.chain.blocks@ =~= mid_blocks.take(len_before - 1));
                                    assert(self.chain.queue@ =~= mid_blocks.skip(len_before - 1)
                                        + queue_before);
                                }
                                self.chain.status = true;
                                outbound.push(Message::ChainRequest);
                            },
                            None => {},
                        }
                    }
                }
            },
        }
        let work = if rejected {
            None
        } else {
            self.promote()
        };
        NodeStep { outbound, work }
    }

    /// Handles one worker result and runs the promotion step: if the chain
    /// still has an unsealed candidate and the result checks out against it,
    /// the candidate is sealed with the found proof of work and announced.
    pub fn handle_worker_result(&mut self, hash: [u8; 32], nonce: u64) -> (step: NodeStep)
        requires
            old(self).wf(),
        ensures
            final(self).wf(),
            final(self).difficult == old(self).difficult,
            worker_step_spec(*old(self), hash, nonce, *final(self), step.outbound@, step.work),
    {
        let mut outbound: Vec<Message> = Vec::new();
        if !self.chain.status {
            let n = self.chain.blocks.len();
            let mut cand = self.chain.blocks[n - 1].clone();
            cand.hash = hash;
            cand.nonce = nonce;
            if cand.validate_hash() {
                let mut tail = self.chain.blocks.pop().unwrap();
                tail.hash = hash;
                tail.nonce = nonce;
                self.chain.blocks.push(tail);
                self.chain.status = true;
                assert(self.chain.blocks@ =~= worker_post_blocks(
                    old(self).chain.blocks@,
                    old(self).chain.status,
                    hash,
                    nonce,
                ));
                let m = self.chain.blocks.len();
                outbound.push(Message::MinedBlock(self.chain.blocks[m - 1].clone()));
            }
        }
        let work = self.promote();
        NodeStep { outbound, work }
    }
}

/// Law: when the node commits a worker result whose hex-encoded hash ends
/// with the difficulty suffix, the freshly sealed tail's hex-encoded hash
/// ends with that suffix.
pub proof fn lemma_committed_tail_meets_difficulty(
    blocks: Seq<Block>,
    status: bool,
    h: [u8; 32],
    n: u64,
    difficulty: Seq<char>,
)
    requires
        worker_commits(blocks, status, h, n),
        ends_with_spec(hex_of(h@), difficulty),
    ensures
        worker_post_status(blocks, status, h, n),
        worker_post_blocks(blocks, status, h, n).last().hash == h,
        ends_with_spec(hex_of(worker_post_blocks(blocks, status, h, n).last().hash@), difficulty),
{
}

} // verus!
