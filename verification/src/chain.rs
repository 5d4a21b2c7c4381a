//! The chain: an ordered sequence of blocks, a FIFO queue of payloads
//! waiting to be sealed, and a flag saying whether the tail block already has
//! a valid proof-of-work.

use std::collections::VecDeque;

use vstd::prelude::*;

use crate::block::{bytes32_eq, zero32, zero32_arr, Block};

verus! {

/// A blockchain: the sealed (or nearly sealed) blocks and a queue of blocks
/// yet to be appended.
#[derive(Debug)]
pub struct Chain {
    /// The blocks that make up the blockchain.
    pub blocks: Vec<Block>,
    /// True: the tail block has a valid proof-of-work (or the chain is
    /// empty) and a new block may be promoted. False: the tail block is a
    /// candidate whose nonce is still being searched.
    pub status: bool,
    /// The blocks waiting to be appended to the blockchain.
    pub queue: VecDeque<Block>,
}

/// Two chains hold the same blocks, flag and queue.
pub open spec fn chain_equal(a: Chain, b: Chain) -> bool {
    &&& a.blocks@ == b.blocks@
    &&& a.status == b.status
    &&& a.queue@ == b.queue@
}

/// How many leading blocks the integrity check covers: all of them when the
/// chain is sealed, all but the candidate tail when it is not.
pub open spec fn checked_of(blocks: Seq<Block>, status: bool) -> int {
    if blocks.len() == 0 {
        0
    } else if status {
        blocks.len() as int
    } else {
        blocks.len() - 1
    }
}

/// Block `i` carries its own position as ID and a valid hash.
pub open spec fn block_ok_at(blocks: Seq<Block>, i: int) -> bool {
    &&& blocks[i].id == i
    &&& blocks[i].hash_valid()
}

/// Block `i` links to the hash of block `i - 1`.
pub open spec fn link_ok_at(blocks: Seq<Block>, i: int) -> bool {
    blocks[i].prev@ == blocks[i - 1].hash@
}

/// Block `i` violates some integrity check: a wrong ID, an invalid hash, or
/// (past the genesis block) a broken link.
pub open spec fn chain_error_at(blocks: Seq<Block>, i: int) -> bool {
    !block_ok_at(blocks, i) || (i >= 1 && !link_ok_at(blocks, i))
}

/// The lowest index in `i .. n` violating some integrity check.
pub open spec fn first_error_from(blocks: Seq<Block>, n: int, i: int) -> Option<int>
    decreases n - i,
{
    if i >= n {
        None
    } else if chain_error_at(blocks, i) {
        Some(i)
    } else {
        first_error_from(blocks, n, i + 1)
    }
}

/// The index the integrity check reports: the lowest index among the checked
/// blocks violating any check, whether a wrong ID, an invalid hash or a
/// broken link.
pub open spec fn first_error_of(blocks: Seq<Block>, status: bool) -> Option<int> {
    first_error_from(blocks, checked_of(blocks, status), 0)
}

/// Below the lowest reported index every integrity check passes.
proof fn lemma_first_error_from_prefix_ok(blocks: Seq<Block>, n: int, k: int, i: int)
    requires
        0 <= k,
        first_error_from(blocks, n, k) == Some(i),
    ensures
        k <= i < n,
        forall|j: int| k <= j < i ==> !chain_error_at(blocks, j),
    decreases n - k,
{
    if k < n && !chain_error_at(blocks, k) {
        lemma_first_error_from_prefix_ok(blocks, n, k + 1, i);
    }
}

/// Law: chain repair keeps an error-free prefix. Cutting the blocks at the
/// index the integrity check reports leaves a chain that passes the check
/// whole, sealed flag set.
pub proof fn lemma_repair_keeps_valid_prefix(blocks: Seq<Block>, status: bool, i: int)
    requires
        first_error_of(blocks, status) == Some(i),
    ensures
        0 <= i <= blocks.len(),
        chain_valid_of(blocks.take(i), true),
        first_error_of(blocks.take(i), true) is None,
{
    lemma_first_error_from_prefix_ok(blocks, checked_of(blocks, status), 0, i);
    let prefix = blocks.take(i);
    assert forall|j: int| 0 <= j < i implies !chain_error_at(prefix, j) by {
        assert(prefix[j] == blocks[j]);
        if j >= 1 {
            assert(prefix[j - 1] == blocks[j - 1]);
        }
        assert(!chain_error_at(blocks, j));
    }
    assert forall|j: int| 0 <= j < i implies block_ok_at(prefix, j) by {
        assert(!chain_error_at(prefix, j));
    }
    assert forall|j: int| 1 <= j < i implies link_ok_at(prefix, j) by {
        assert(!chain_error_at(prefix, j));
    }
    assert(chain_valid_of(prefix, true));
    lemma_no_error_means_none(prefix, checked_of(prefix, true), 0);
}

/// A scan over error-free blocks reports nothing.
proof fn lemma_no_error_means_none(blocks: Seq<Block>, n: int, k: int)
    requires
        forall|j: int| k <= j < n ==> !chain_error_at(blocks, j),
    ensures
        first_error_from(blocks, n, k) is None,
    decreases n - k,
{
    if k < n {
        lemma_no_error_means_none(blocks, n, k + 1);
    }
}

/// Every checked block is internally valid and correctly linked.
pub open spec fn chain_valid_of(blocks: Seq<Block>, status: bool) -> bool {
    let n = checked_of(blocks, status);
    &&& (forall|i: int| 0 <= i < n ==> block_ok_at(blocks, i))
    &&& (forall|i: int| 1 <= i < n ==> link_ok_at(blocks, i))
}

/// The block `add_queue` appends for a given chain state: the argument with
/// its ID rewritten to the next free position.
pub open spec fn queued_block(blocks: Seq<Block>, queue: Seq<Block>, b: Block) -> Block {
    Block { id: (blocks.len() + queue.len()) as u64, ..b }
}

/// The block `try_add` promotes for a given chain state: the head of the
/// queue, linked to the tail's hash (or the all-zero hash) and given the
/// next position.
pub open spec fn promoted_block(blocks: Seq<Block>, queue: Seq<Block>) -> Block {
    Block {
        id: blocks.len() as u64,
        prev: if blocks.len() > 0 {
            blocks.last().hash
        } else {
            zero32_arr()
        },
        ..queue.first()
    }
}

impl Chain {
    /// Every checked block is internally valid and correctly linked.
    pub open spec fn valid(self) -> bool {
        chain_valid_of(self.blocks@, self.status)
    }

    /// The number of blocks the integrity check covers.
    pub open spec fn checked(self) -> int {
        checked_of(self.blocks@, self.status)
    }

    /// Constructs a new, empty, sealed chain.
    pub fn new() -> (r: Self)
        ensures
            r.blocks@ == Seq::<Block>::empty(),
            r.status,
            r.queue@ == Seq::<Block>::empty(),
    {
        Chain { blocks: Vec::new(), status: true, queue: VecDeque::new() }
    }

    /// Returns the lowest index of a block violating chain integrity —
    /// whether by a wrong ID, an invalid hash or a broken link — or `None`
    /// if every checked block is in order.
    pub fn have_errors(&self) -> (r: Option<usize>)
        ensures
            r is None <==> self.valid(),
            match r {
                None => first_error_of(self.blocks@, self.status) is None,
                Some(i) => first_error_of(self.blocks@, self.status) == Some(i as int) && i
                    < self.checked() <= self.blocks@.len(),
            },
    {
        let mut len = self.blocks.len();
        if len == 0 {
            return None;
        }
        if !self.status {
            len = len - 1;
        }
        let ghost n = self.checked();
        assert(len == n);
        let mut i: usize = 0;
        while i < len
            invariant
                len == n,
                n == checked_of(self.blocks@, self.status),
                len <= self.blocks@.len(),
                i <= len,
                forall|j: int| 0 <= j < i ==> !chain_error_at(self.blocks@, j),
                first_error_from(self.blocks@, n, 0) == first_error_from(
                    self.blocks@,
                    n,
                    i as int,
                ),
            decreases len - i,
        {
            let block = &self.blocks[i];
            let mut bad = block.id != i as u64 || !block.validate_hash();
            if !bad && i >= 1 {
                bad = !bytes32_eq(&self.blocks[i].prev, &self.blocks[i - 1].hash);
            }
            if bad {
                assert(chain_error_at(self.blocks@, i as int));
                assert(first_error_from(self.blocks@, n, i as int) == Some(i as int));
                assert(!self.valid()) by {
                    if !block_ok_at(self.blocks@, i as int) {
                        assert(!(forall|j: int|
                            0 <= j < n ==> block_ok_at(self.blocks@, j)));
                    } else {
                        assert(!(forall|j: int|
                            1 <= j < n ==> link_ok_at(self.blocks@, j)));
                    }
                }
                return Some(i);
            }
            assert(!chain_error_at(self.blocks@, i as int));
            i = i + 1;
        }
        assert(first_error_from(self.blocks@, n, n) is None);
        assert forall|j: int| 0 <= j < n implies block_ok_at(self.blocks@, j) by {
            assert(!chain_error_at(self.blocks@, j));
        }
        assert forall|j: int| 1 <= j < n implies link_ok_at(self.blocks@, j) by {
            assert(!chain_error_at(self.blocks@, j));
        }
        None
    }

    /// If the chain is sealed and a block is waiting, promotes the head of
    /// the queue to the tail of the chain, linking it to the previous tail's
    /// hash (or to the all-zero hash on an empty chain) and assigning it the
    /// next position. Returns whether a block was promoted; the `status`
    /// flag is left for the caller to clear.
    pub fn try_add(&mut self) -> (r: bool)
        ensures
            r == (old(self).status && old(self).queue@.len() > 0),
            !r ==> *final(self) == *old(self),
            r ==> final(self).blocks@ == old(self).blocks@.push(
                promoted_block(old(self).blocks@, old(self).queue@),
            ),
            r ==> final(self).status == old(self).status,
            r ==> final(self).queue@ == old(self).queue@.drop_first(),
    {
        if self.status {
            if self.queue.len() == 0 {
                false
            } else {
                let popped = self.queue.pop_front();
                match popped {
                    None => false,
                    Some(block) => {
                        let mut block = block;
                        block.prev = match self.blocks.last() {
                            Some(a) => a.hash,
                            None => [0u8; 32],
                        };
                        block.id = self.blocks.len() as u64;
                        assert(block == promoted_block(old(self).blocks@, old(self).queue@));
                        self.blocks.push(block);
                        true
                    },
                }
            }
        } else {
            false
        }
    }

    /// Assigns the block the next free position counting both the chain and
    /// the queue, and appends it to the back of the queue.
    pub fn add_queue(&mut self, block: Block)
        requires
            old(self).blocks@.len() + old(self).queue@.len() < usize::MAX,
        ensures
            final(self).blocks == old(self).blocks,
            final(self).status == old(self).status,
            final(self).queue@ == old(self).queue@.push(
                queued_block(old(self).blocks@, old(self).queue@, block),
            ),
    {
        let mut block = block;
        block.id = (self.blocks.len() + self.queue.len()) as u64;
        self.queue.push_back(block);
    }
}

/// Law: queue admission keeps FIFO order. Admitting `a` and then `b` (as
/// `add_queue` does, each with its ID rewritten at admission) leaves every
/// block already queued ahead of both, and `a` immediately ahead of `b`.
/// That promotion takes the front of the queue is `try_add`'s own contract.
pub proof fn lemma_admission_keeps_fifo(
    blocks: Seq<Block>,
    queue: Seq<Block>,
    a: Block,
    b: Block,
)
    ensures
        ({
            let q1 = queue.push(queued_block(blocks, queue, a));
            let q2 = q1.push(queued_block(blocks, q1, b));
            &&& q2 == queue + seq![queued_block(blocks, queue, a), queued_block(blocks, q1, b)]
            &&& forall|i: int| 0 <= i < queue.len() ==> q2[i] == queue[i]
            &&& q2[queue.len() as int].data@ == a.data@
            &&& q2[queue.len() as int + 1].data@ == b.data@
        }),
{
    let q1 = queue.push(queued_block(blocks, queue, a));
    let q2 = q1.push(queued_block(blocks, q1, b));
    assert(q2 =~= queue + seq![queued_block(blocks, queue, a), queued_block(blocks, q1, b)]);
}

impl Default for Chain {
    /// The default chain is empty and sealed.
    fn default() -> (r: Self)
        ensures
            r.blocks@ == Seq::<Block>::empty(),
            r.status,
            r.queue@ == Seq::<Block>::empty(),
    {
        Chain::new()
    }
}

impl Clone for Chain {
    /// A clone holds the same blocks, flag and queue.
    fn clone(&self) -> (r: Self)
        ensures
            chain_equal(r, *self),
    {
        let blocks = clone_blocks(&self.blocks);
        let queue = clone_block_deque(&self.queue);
        Chain { blocks, status: self.status, queue }
    }
}

/// Clones a vector of blocks, element by element.
fn clone_blocks(blocks: &Vec<Block>) -> (r: Vec<Block>)
    ensures
        r@ == blocks@,
{
    let mut r: Vec<Block> = Vec::new();
    let n = blocks.len();
    let mut i: usize = 0;
    while i < n
        invariant
            i <= n,
            n == blocks@.len(),
            r@ == blocks@.take(i as int),
        decreases n - i,
    {
        r.push(blocks[i].clone());
        assert(r@ =~= blocks@.take(i + 1));
        i += 1;
    }
    assert(r@ =~= blocks@);
    r
}

/// Clones a queue of blocks, element by element, front to back.
fn clone_block_deque(queue: &VecDeque<Block>) -> (r: VecDeque<Block>)
    ensures
        r@ == queue@,
{
    let mut r: VecDeque<Block> = VecDeque::new();
    let n = queue.len();
    let mut i: usize = 0;
    while i < n
        invariant
            i <= n,
            n == queue@.len(),
            r@ == queue@.take(i as int),
        decreases n - i,
    {
        r.push_back(queue[i].clone());
        assert(r@ =~= queue@.take(i + 1));
        i += 1;
    }
    assert(r@ =~= queue@);
    r
}

} // verus!
