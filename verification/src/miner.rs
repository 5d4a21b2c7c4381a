//! One step of the proof-of-work search. The surrounding long-running task
//! only repeats this step until it reports success or is pre-empted.

use vstd::prelude::*;

use crate::block::Block;
use crate::crypto::hex_of;
use crate::strutil::{ends_with_spec, push_char, str_ends_with};
use vstd::string::{StrSliceExecFns, StringExecFns};

verus! {

/// A character a difficulty argument may hold: a hex digit in either case.
pub open spec fn is_hex_input_char(c: char) -> bool {
    ||| c == '0' || c == '1' || c == '2' || c == '3' || c == '4' || c == '5' || c == '6' || c
        == '7' || c == '8' || c == '9'
    ||| c == 'a' || c == 'b' || c == 'c' || c == 'd' || c == 'e' || c == 'f'
    ||| c == 'A' || c == 'B' || c == 'C' || c == 'D' || c == 'E' || c == 'F'
}

/// The lowercase form of a hex digit.
pub open spec fn lower_hex_char(c: char) -> char {
    if c == 'A' {
        'a'
    } else if c == 'B' {
        'b'
    } else if c == 'C' {
        'c'
    } else if c == 'D' {
        'd'
    } else if c == 'E' {
        'e'
    } else if c == 'F' {
        'f'
    } else {
        c
    }
}

/// Checks a difficulty argument: accepted exactly when every character is a
/// hex digit in either case, and returned lowercased.
pub fn validate_hex(s: &str) -> (r: Result<String, String>)
    ensures
        r is Ok <==> (forall|k: int| 0 <= k < s@.len() ==> is_hex_input_char(s@[k])),
        r matches Ok(t) ==> t@ == Seq::new(s@.len(), |k: int| lower_hex_char(s@[k])),
        r matches Err(e) ==> e@ == "Input contains invalid characters"@,
{
    let n = s.unicode_len();
    let mut out = String::new();
    let mut i: usize = 0;
    assert(out@ =~= Seq::new(0, |k: int| lower_hex_char(s@[k])));
    while i < n
        invariant
            i <= n,
            n == s@.len(),
            forall|k: int| 0 <= k < i ==> is_hex_input_char(s@[k]),
            out@ == Seq::new(i as nat, |k: int| lower_hex_char(s@[k])),
        decreases n - i,
    {
        let c = s.get_char(i);
        if c == '0' || c == '1' || c == '2' || c == '3' || c == '4' || c == '5' || c == '6' || c
            == '7' || c == '8' || c == '9' || c == 'a' || c == 'b' || c == 'c' || c == 'd' || c
            == 'e' || c == 'f' {
            push_char(&mut out, c);
        } else if c == 'A' {
            push_char(&mut out, 'a');
        } else if c == 'B' {
            push_char(&mut out, 'b');
        } else if c == 'C' {
            push_char(&mut out, 'c');
        } else if c == 'D' {
            push_char(&mut out, 'd');
        } else if c == 'E' {
            push_char(&mut out, 'e');
        } else if c == 'F' {
            push_char(&mut out, 'f');
        } else {
            assert(!is_hex_input_char(s@[i as int]));
            return Err(String::from_str("Input contains invalid characters"));
        }
        assert(out@ =~= Seq::new((i + 1) as nat, |k: int| lower_hex_char(s@[k])));
        i += 1;
    }
    Ok(out)
}

/// Relies on rand::random::<u64>: draws a machine-random value; nothing is
/// assumed of it.
#[verifier::external_body]
fn random_u64() -> u64 {
    rand::random::<u64>()
}

/// One step of the mining search: draw a random nonce, write it into the
/// block, recompute its hash, and report whether the hex-encoded hash ends
/// with the difficulty suffix. The block's ID, payload and link are left
/// untouched, and its hash always matches its fields afterwards.
pub fn mine_attempt(block: &mut Block, difficulty: &str) -> (found: bool)
    ensures
        final(block).id == old(block).id,
        final(block).data == old(block).data,
        final(block).prev == old(block).prev,
        final(block).hash_valid(),
        found == ends_with_spec(hex_of(final(block).hash@), difficulty@),
{
    let nonce = random_u64();
    block.nonce = nonce;
    block.update_hash();
    let hash_str = block.string_hash();
    str_ends_with(hash_str.as_str(), difficulty)
}

} // verus!
