use rustychain::Block;

#[test]
fn wire_round_trip_plain_block() {
    let mut block = Block::new(3, String::from("Some data"));
    block.prev = [7u8; 32];
    block.nonce = 123456789;
    block.update_hash();
    let encoded = block.encode_wire();
    let decoded = Block::decode_wire(&encoded).expect("canonical encoding must decode");
    assert!(decoded.equals(&block));
}

#[test]
fn wire_round_trip_with_escapes() {
    let data = String::from("he said \"hi\\there\"\nand\tleft\r\u{8}\u{c} π漢");
    let mut block = Block::new(u64::MAX, data);
    block.nonce = u64::MAX;
    block.update_hash();
    let encoded = block.encode_wire();
    let decoded = Block::decode_wire(&encoded).expect("canonical encoding must decode");
    assert!(decoded.equals(&block));
}

#[test]
fn wire_exact_encoding() {
    let block = Block::new(7, String::from("hi"));
    let zeros = vec!["0"; 32].join(",");
    let expected = format!(
        "{{\"id\":7,\"data\":\"hi\",\"hash\":[{}],\"prev\":[{}],\"nonce\":0}}",
        zeros, zeros
    );
    assert_eq!(block.encode_wire(), expected);
    let decoded = Block::decode_wire(&expected).expect("canonical encoding must decode");
    assert!(decoded.equals(&block));
}

#[test]
fn wire_escapes_match_json() {
    let block = Block::new(0, String::from("a\"b\\c\nd"));
    let encoded = block.encode_wire();
    assert!(encoded.contains("a\\\"b\\\\c\\nd"));
}

#[test]
fn wire_output_is_json_for_serde() {
    let mut block = Block::new(42, String::from("payload \"x\"\n"));
    block.prev = [9u8; 32];
    block.update_hash();
    let encoded = block.encode_wire();
    let v: serde_json::Value = serde_json::from_str(&encoded).expect("output must parse as JSON");
    assert_eq!(v["id"].as_u64(), Some(42));
    assert_eq!(v["data"].as_str(), Some("payload \"x\"\n"));
    assert_eq!(v["nonce"].as_u64(), Some(0));
    let hash = v["hash"].as_array().expect("hash must be an array");
    assert_eq!(hash.len(), 32);
    for (i, item) in hash.iter().enumerate() {
        assert_eq!(item.as_u64(), Some(block.hash[i] as u64));
    }
    let prev = v["prev"].as_array().expect("prev must be an array");
    assert_eq!(prev.len(), 32);
    for item in prev.iter() {
        assert_eq!(item.as_u64(), Some(9));
    }
}

#[test]
fn wire_rejects_non_canonical_input() {
    assert!(Block::decode_wire("").is_none());
    assert!(Block::decode_wire("{}").is_none());
    assert!(Block::decode_wire("{\"id\":1}").is_none());
    let good = Block::new(1, String::from("x")).encode_wire();
    let mut trailing = good.clone();
    trailing.push(' ');
    assert!(Block::decode_wire(&trailing).is_none());
    let spaced = good.replace(":", ": ");
    assert!(Block::decode_wire(&spaced).is_none());
    let short = good.replace("[0,", "[");
    assert!(Block::decode_wire(&short).is_none());
    let too_big = good.replace("\"hash\":[0,", "\"hash\":[256,");
    assert!(Block::decode_wire(&too_big).is_none());
}

#[test]
fn wire_nonce_and_id_bounds_round_trip() {
    let mut block = Block::new(u64::MAX, String::new());
    block.nonce = 1;
    let encoded = block.encode_wire();
    assert!(encoded.contains("18446744073709551615"));
    let decoded = Block::decode_wire(&encoded).expect("canonical encoding must decode");
    assert_eq!(decoded.id, u64::MAX);
    assert_eq!(decoded.nonce, 1);
    // One more than u64::MAX must be rejected, not wrapped.
    let overflow = encoded.replace("18446744073709551615", "18446744073709551616");
    assert!(Block::decode_wire(&overflow).is_none());
}
