use rustychain::Block;

#[test]
fn test_new() {
    let block = Block::new(0, String::from("Data"));
    assert_eq!(block.id, 0);
    assert_eq!(block.data, String::from("Data"));
    assert_eq!(block.hash, [0u8; 32]);
    assert_eq!(block.prev, [0u8; 32]);
    assert_eq!(block.nonce, 0);
}

#[test]
fn test_calc_hash() {
    let mut block1 = Block {
        id: 100,
        data: String::from("This is the first block"),
        hash: [1u8; 32],
        prev: [0u8; 32],
        nonce: 1,
    };
    let block2 = block1.clone();
    assert_eq!(block1.calc_hash(), block2.calc_hash());
    let prev = block1.calc_hash();
    block1.nonce = 0;
    assert_ne!(block1.calc_hash(), prev);
    assert_ne!(block1.calc_hash(), block2.calc_hash());
}

#[test]
fn test_update_hash() {
    let mut block = Block::new(1337, String::from("Leet block!"));
    assert_ne!(block.calc_hash(), block.hash);
    block.update_hash();
    assert_eq!(block.calc_hash(), block.hash);
}

#[test]
fn test_validate_hash() {
    let mut block = Block::new(1337, String::from("Leet block!"));
    assert!(!block.validate_hash());
    block.update_hash();
    assert!(block.validate_hash());
}

#[test]
fn test_equals() {
    let mut block1 = Block::new(1337, String::from("Leet block!"));
    block1.update_hash();

    let mut block2 = block1.clone();
    assert!(block1.equals(&block2));

    block2 = block1.clone();
    block2.data = String::from("Not leet block!");
    assert!(!block1.equals(&block2));

    block2 = block1.clone();
    block2.hash = block1.hash.map(|v| v + 1);
    assert!(!block1.equals(&block2));

    block2 = block1.clone();
    block2.prev = block1.prev.map(|v| v + 1);
    assert!(!block1.equals(&block2));

    block2 = block1.clone();
    block2.nonce = block1.nonce + 1;
    assert!(!block1.equals(&block2));
}

#[test]
fn test_preequals() {
    let mut block1 = Block::new(1337, String::from("Leet block!"));
    block1.update_hash();

    let mut block2 = block1.clone();
    assert!(block1.preequals(&block2));

    block2 = block1.clone();
    block2.data = String::from("Not leet block!");
    assert!(!block1.preequals(&block2));

    block2 = block1.clone();
    block2.hash = block1.hash.map(|v| v + 1);
    assert!(block1.preequals(&block2));

    block2 = block1.clone();
    block2.prev = block1.prev.map(|v| v + 1);
    assert!(!block1.preequals(&block2));

    block2 = block1.clone();
    block2.nonce = block1.nonce + 1;
    assert!(block1.preequals(&block2));
}

#[test]
fn test_known_hash_of_empty_block() {
    // SHA-256 of 48 zero bytes: id 0, empty payload, zero link, nonce 0.
    let mut block = Block::new(0, String::new());
    block.update_hash();
    assert_eq!(
        block.string_hash(),
        "17b0761f87b081d5cf10757ccc89f12be355c70e2e29df288b65b30710dcbcd1"
    );
    assert!(block.validate_hash());
}

#[test]
fn test_known_hash_of_hello_block() {
    let mut block = Block::new(1, String::from("Hello World"));
    block.update_hash();
    assert_eq!(
        block.string_hash(),
        "908c15450526cba71cf9300ab82f56954e5319e164b6ea14d5812e0849cdcd17"
    );
}

#[test]
fn test_string_hash_hex_digits() {
    let mut block = Block::new(0, String::from("x"));
    block.hash = [
        0x00, 0x01, 0x02, 0x03, 0x04, 0x05, 0x06, 0x07, 0x08, 0x09, 0x0a, 0x0b, 0x0c, 0x0d, 0x0e,
        0x0f, 0x10, 0x9f, 0xa0, 0xbb, 0xcc, 0xdd, 0xee, 0xff, 0x11, 0x22, 0x33, 0x44, 0x55, 0x66,
        0x77, 0x88,
    ];
    assert_eq!(
        block.string_hash(),
        "000102030405060708090a0b0c0d0e0f109fa0bbccddeeff1122334455667788"
    );
    assert_eq!(block.string_prev(), format!("{}", "0".repeat(64)));
}
