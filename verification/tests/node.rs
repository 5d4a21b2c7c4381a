use rustychain::{mine_attempt, validate_hex, Block, Chain, Message, Node};

/// Repeats mining attempts until one satisfies the difficulty.
fn mine(block: &mut Block, difficulty: &str) {
    while !mine_attempt(block, difficulty) {}
}

/// A valid sealed chain of `n` blocks.
fn sealed_chain(n: usize) -> Chain {
    let mut chain = Chain::new();
    let mut prev = [0u8; 32];
    for i in 0..n {
        let mut b = Block::new(i as u64, format!("block {}", i));
        b.prev = prev;
        b.update_hash();
        prev = b.hash;
        chain.blocks.push(b);
    }
    chain
}

#[test]
fn genesis_mine_difficulty_zero() {
    let diff = String::from("0");
    let mut node = Node::new(Chain::new(), diff.clone());

    let block = Block::new(1337, String::from("Some data"));
    let step = node.handle_message(Message::NewBlock(block));
    assert!(step.outbound.is_empty());
    let mut cand = step.work.expect("promotion must hand the miner a candidate");
    assert_eq!(cand.id, 0);
    mine(&mut cand, &diff);

    let step = node.handle_worker_result(cand.hash, cand.nonce);
    assert_eq!(step.outbound.len(), 1);
    match &step.outbound[0] {
        Message::MinedBlock(res) => {
            assert_eq!(res.data, "Some data");
            assert_eq!(res.id, 0);
            assert_eq!(res.prev, [0u8; 32]);
            assert!(res.string_hash().ends_with(&diff));
            assert!(res.validate_hash());
        },
        other => panic!("Expected MinedBlock, but got: {:?}", other),
    }
    assert!(node.chain.status);
}

#[test]
fn second_block_links_correctly() {
    let diff = String::from("0");
    let mut node = Node::new(Chain::new(), diff.clone());

    let step = node.handle_message(Message::NewBlock(Block::new(0, String::from("Some data"))));
    let mut cand = step.work.unwrap();
    mine(&mut cand, &diff);
    let step = node.handle_worker_result(cand.hash, cand.nonce);
    let first_hash = match &step.outbound[0] {
        Message::MinedBlock(res) => res.hash,
        other => panic!("Expected MinedBlock, but got: {:?}", other),
    };

    let step = node.handle_message(Message::NewBlock(Block::new(0, String::from("Some data"))));
    let mut cand = step.work.unwrap();
    mine(&mut cand, &diff);
    let step = node.handle_worker_result(cand.hash, cand.nonce);
    match &step.outbound[0] {
        Message::MinedBlock(res) => {
            assert_eq!(res.id, 1);
            assert_eq!(res.prev, first_hash);
            assert!(res.string_hash().ends_with(&diff));
        },
        other => panic!("Expected MinedBlock, but got: {:?}", other),
    }
}

#[test]
fn adoption_of_longer_peer_chain() {
    let mut node = Node::new(sealed_chain(2), String::new());
    let peer = sealed_chain(5);
    let step = node.handle_message(Message::ChainResponce(peer.clone()));
    assert!(step.outbound.is_empty());
    assert_eq!(node.chain.blocks.len(), 5);
    for i in 0..5 {
        assert!(node.chain.blocks[i].equals(&peer.blocks[i]));
    }
    assert_eq!(node.chain.status, peer.status);
    assert_eq!(node.chain.queue.len(), peer.queue.len());
}

#[test]
fn rejection_of_shorter_or_corrupt_peer_chain() {
    let local = sealed_chain(3);
    let mut node = Node::new(local.clone(), String::new());

    let shorter = sealed_chain(2);
    node.handle_message(Message::ChainResponce(shorter));
    assert_eq!(node.chain.blocks.len(), 3);
    for i in 0..3 {
        assert!(node.chain.blocks[i].equals(&local.blocks[i]));
    }

    let mut corrupt = sealed_chain(5);
    corrupt.blocks[2].prev = corrupt.blocks[2].prev.map(|x| x ^ 0xff);
    node.handle_message(Message::ChainResponce(corrupt));
    assert_eq!(node.chain.blocks.len(), 3);
    for i in 0..3 {
        assert!(node.chain.blocks[i].equals(&local.blocks[i]));
    }
}

#[test]
fn race_tie_break_on_same_slot() {
    let mut tail = Block::new(0, String::from("slot"));
    tail.update_hash();
    let h1 = tail.hash;
    let mut chain = Chain::new();
    chain.blocks.push(tail.clone());
    let mut node = Node::new(chain, String::new());

    // A competing proof of work for the same slot with a smaller hash.
    let mut b = tail.clone();
    let mut nonce: u64 = 1;
    loop {
        b.nonce = nonce;
        b.update_hash();
        if b.hash < h1 {
            break;
        }
        nonce += 1;
    }
    let step = node.handle_message(Message::MinedBlock(b.clone()));
    assert!(step.outbound.is_empty());
    assert!(step.work.is_none());
    assert_eq!(node.chain.blocks[0].hash, b.hash);
    assert_eq!(node.chain.blocks[0].nonce, b.nonce);
    assert!(node.chain.status);

    // A competing proof with a larger hash loses the tie-break.
    let now = node.chain.blocks[0].clone();
    let mut worse = now.clone();
    let mut nonce: u64 = 1;
    loop {
        worse.nonce = nonce;
        worse.update_hash();
        if worse.hash > now.hash {
            break;
        }
        nonce += 1;
    }
    node.handle_message(Message::MinedBlock(worse));
    assert_eq!(node.chain.blocks[0].hash, now.hash);
    assert_eq!(node.chain.blocks[0].nonce, now.nonce);
}

#[test]
fn peer_preempts_our_mining() {
    let mut node = Node::new(Chain::new(), String::new());
    let step = node.handle_message(Message::NewBlock(Block::new(0, String::from("payload"))));
    let cand = step.work.unwrap();
    assert!(!node.chain.status);

    let mut b = cand.clone();
    b.nonce = 7;
    b.update_hash();
    let step = node.handle_message(Message::MinedBlock(b.clone()));
    assert!(step.outbound.is_empty());
    assert!(step.work.is_none());
    assert!(node.chain.status);
    let tail = node.chain.blocks.last().unwrap();
    assert_eq!(tail.hash, b.hash);
    assert_eq!(tail.nonce, b.nonce);
    assert!(tail.validate_hash());
}

#[test]
fn worker_contract() {
    let diff = String::from("0");
    let mut block = Block::new(1, String::from("test"));
    mine(&mut block, &diff);
    assert!(block.validate_hash());
    assert!(block.string_hash().ends_with(&diff));
}

#[test]
fn mined_block_on_empty_chain_requests_peers() {
    let mut node = Node::new(Chain::new(), String::new());
    let mut b = Block::new(5, String::from("orphan"));
    b.update_hash();
    let step = node.handle_message(Message::MinedBlock(b));
    assert_eq!(step.outbound.len(), 1);
    assert!(matches!(step.outbound[0], Message::ChainRequest));
    assert_eq!(node.chain.blocks.len(), 0);
}

#[test]
fn mined_block_ahead_requests_chain() {
    let mut node = Node::new(sealed_chain(1), String::new());
    let mut b = Block::new(5, String::from("far ahead"));
    b.update_hash();
    let step = node.handle_message(Message::MinedBlock(b));
    assert_eq!(step.outbound.len(), 1);
    assert!(matches!(step.outbound[0], Message::ChainRequest));
    assert_eq!(node.chain.blocks.len(), 1);
}

#[test]
fn chain_request_is_answered_with_snapshot() {
    let mut node = Node::new(sealed_chain(2), String::new());
    let step = node.handle_message(Message::ChainRequest);
    assert_eq!(step.outbound.len(), 1);
    match &step.outbound[0] {
        Message::ChainResponce(c) => {
            assert_eq!(c.blocks.len(), 2);
            for i in 0..2 {
                assert!(c.blocks[i].equals(&node.chain.blocks[i]));
            }
        },
        other => panic!("Expected ChainResponce, but got: {:?}", other),
    }
}

#[test]
fn invalid_announcement_meeting_difficulty_is_dropped() {
    let mut node = Node::new(sealed_chain(1), String::new());
    let before = node.chain.blocks[0].clone();
    // The stored hash differs from the computed hash, and every hash ends
    // with the empty difficulty suffix, so the node ignores the block.
    let mut b = node.chain.blocks[0].clone();
    b.hash = [1u8; 32];
    let step = node.handle_message(Message::MinedBlock(b));
    assert!(step.outbound.is_empty());
    assert!(step.work.is_none());
    assert!(node.chain.blocks[0].equals(&before));
}

#[test]
fn difficulty_argument_is_validated_and_lowercased() {
    assert_eq!(validate_hex("00AF"), Ok(String::from("00af")));
    assert_eq!(validate_hex(""), Ok(String::new()));
    assert_eq!(validate_hex("0123456789abcdefABCDEF"), Ok(String::from("0123456789abcdefabcdef")));
    assert_eq!(
        validate_hex("xyz"),
        Err(String::from("Input contains invalid characters"))
    );
    assert_eq!(
        validate_hex("0g"),
        Err(String::from("Input contains invalid characters"))
    );
}

#[test]
fn corrupted_chain_is_repaired_into_queue() {
    let chain = sealed_chain(3);
    let good0 = chain.blocks[0].clone();
    let good1 = chain.blocks[1].clone();
    let good2 = chain.blocks[2].clone();
    let mut chain = chain;
    chain.blocks[1].nonce = 42; // hash no longer matches
    let mut node = Node::new(chain, String::new());

    // An unrelated but well-formed announcement for the tail slot triggers
    // the integrity check.
    let mut b = Block::new(2, String::from("unrelated"));
    b.update_hash();
    let step = node.handle_message(Message::MinedBlock(b));
    // Repair asked the peers for a fresh chain...
    assert_eq!(step.outbound.len(), 1);
    assert!(matches!(step.outbound[0], Message::ChainRequest));
    // ...cut the chain at the first offender and queued the suffix, and the
    // promotion step immediately re-promoted the first queued block.
    assert_eq!(node.chain.blocks.len(), 2);
    assert!(node.chain.blocks[0].equals(&good0));
    assert_eq!(node.chain.blocks[1].data, good1.data);
    assert!(!node.chain.status);
    assert!(step.work.is_some());
    assert_eq!(node.chain.queue.len(), 1);
    assert_eq!(node.chain.queue[0].data, good2.data);
}
