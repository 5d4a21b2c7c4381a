//! The wire format for a block: a JSON object with the fields `id`, `data`,
//! `hash`, `prev`, `nonce`, in that order and without spaces; `hash` and
//! `prev` are arrays of 32 byte values. In payload strings the encoder
//! escapes `"` and `\`, and the control characters for which JSON has
//! two-character escapes; every other character is written as it is.

use vstd::prelude::*;

use crate::block::Block;
use crate::strutil::push_char;

verus! {

/// The ten decimal digits, by value.
pub open spec fn dec_digit(d: u64) -> char {
    seq!['0', '1', '2', '3', '4', '5', '6', '7', '8', '9'][d as int]
}

/// The decimal digits of `x`, most significant first, no leading zeros.
pub open spec fn dec_of(x: u64) -> Seq<char>
    decreases x,
{
    if x < 10 {
        seq![dec_digit(x)]
    } else {
        dec_of(x / 10) + seq![dec_digit(x % 10)]
    }
}

/// How one payload character is written: `"` and `\` and the control
/// characters with two-character JSON escapes are escaped, everything else
/// stands as it is.
pub open spec fn esc_char(c: char) -> Seq<char> {
    if c == '"' {
        seq!['\\', '"']
    } else if c == '\\' {
        seq!['\\', '\\']
    } else if c == '\u{8}' {
        seq!['\\', 'b']
    } else if c == '\u{9}' {
        seq!['\\', 't']
    } else if c == '\u{a}' {
        seq!['\\', 'n']
    } else if c == '\u{c}' {
        seq!['\\', 'f']
    } else if c == '\u{d}' {
        seq!['\\', 'r']
    } else {
        seq![c]
    }
}

/// The escaped form of a payload.
pub open spec fn json_escape(s: Seq<char>) -> Seq<char>
    decreases s.len(),
{
    if s.len() == 0 {
        seq![]
    } else {
        esc_char(s.first()) + json_escape(s.drop_first())
    }
}

/// The byte values of a hash, written as decimal numbers with commas
/// between them.
pub open spec fn bytes_items(s: Seq<u8>) -> Seq<char>
    decreases s.len(),
{
    if s.len() == 0 {
        seq![]
    } else if s.len() == 1 {
        dec_of(s.first() as u64)
    } else {
        dec_of(s.first() as u64) + seq![','] + bytes_items(s.drop_first())
    }
}

/// The key tokens of the object, as character sequences.
pub open spec fn key_id() -> Seq<char> {
    seq!['{', '"', 'i', 'd', '"', ':']
}

pub open spec fn key_data() -> Seq<char> {
    seq![',', '"', 'd', 'a', 't', 'a', '"', ':', '"']
}

pub open spec fn key_hash() -> Seq<char> {
    seq!['"', ',', '"', 'h', 'a', 's', 'h', '"', ':', '[']
}

pub open spec fn key_prev() -> Seq<char> {
    seq![']', ',', '"', 'p', 'r', 'e', 'v', '"', ':', '[']
}

pub open spec fn key_nonce() -> Seq<char> {
    seq![']', ',', '"', 'n', 'o', 'n', 'c', 'e', '"', ':']
}

/// The canonical wire encoding of a block.
pub open spec fn json_of_block(b: Block) -> Seq<char> {
    key_id() + dec_of(b.id) + key_data() + json_escape(b.data@) + key_hash() + bytes_items(b.hash@)
        + key_prev() + bytes_items(b.prev@) + key_nonce() + dec_of(b.nonce) + seq!['}']
}

/// A decimal digit.
pub open spec fn is_digit(c: char) -> bool {
    c == '0' || c == '1' || c == '2' || c == '3' || c == '4' || c == '5' || c == '6' || c == '7'
        || c == '8' || c == '9'
}

/// The value of a decimal digit.
pub open spec fn digit_val(c: char) -> u64 {
    if c == '0' {
        0
    } else if c == '1' {
        1
    } else if c == '2' {
        2
    } else if c == '3' {
        3
    } else if c == '4' {
        4
    } else if c == '5' {
        5
    } else if c == '6' {
        6
    } else if c == '7' {
        7
    } else if c == '8' {
        8
    } else {
        9
    }
}

/// Reads digits from position `i` on, accumulating their value; stops at the
/// first non-digit, fails on overflow.
pub open spec fn scan_num(cs: Seq<char>, i: int, acc: u64) -> Option<(u64, int)>
    decreases cs.len() - i,
{
    if 0 <= i < cs.len() && is_digit(cs[i]) {
        let d = digit_val(cs[i]);
        if acc <= (u64::MAX - d) / 10 {
            scan_num(cs, i + 1, (acc * 10 + d) as u64)
        } else {
            None
        }
    } else {
        Some((acc, i))
    }
}

/// Reads a number: at least one digit, stopping at the first non-digit.
pub open spec fn parse_num(cs: Seq<char>, i: int) -> Option<(u64, int)> {
    if 0 <= i < cs.len() && is_digit(cs[i]) {
        scan_num(cs, i, 0)
    } else {
        None
    }
}

/// Reads the token `tok` at position `i`.
pub open spec fn expect_lit(cs: Seq<char>, i: int, tok: Seq<char>) -> Option<int> {
    if 0 <= i && i + tok.len() <= cs.len() && cs.subrange(i, i + tok.len() as int) == tok {
        Some(i + tok.len() as int)
    } else {
        None
    }
}

/// Reads a string body up to its closing quote, undoing the escapes the
/// encoder writes.
pub open spec fn parse_string(cs: Seq<char>, i: int, acc: Seq<char>) -> Option<(Seq<char>, int)>
    decreases cs.len() - i,
{
    if i < 0 || i >= cs.len() {
        None
    } else if cs[i] == '"' {
        Some((acc, i + 1))
    } else if cs[i] == '\\' {
        if i + 1 >= cs.len() {
            None
        } else {
            let e = cs[i + 1];
            if e == '"' {
                parse_string(cs, i + 2, acc.push('"'))
            } else if e == '\\' {
                parse_string(cs, i + 2, acc.push('\\'))
            } else if e == 'b' {
                parse_string(cs, i + 2, acc.push('\u{8}'))
            } else if e == 't' {
                parse_string(cs, i + 2, acc.push('\u{9}'))
            } else if e == 'n' {
                parse_string(cs, i + 2, acc.push('\u{a}'))
            } else if e == 'f' {
                parse_string(cs, i + 2, acc.push('\u{c}'))
            } else if e == 'r' {
                parse_string(cs, i + 2, acc.push('\u{d}'))
            } else {
                None
            }
        }
    } else {
        parse_string(cs, i + 1, acc.push(cs[i]))
    }
}

/// Reads `left` byte values separated by commas; the closing bracket is left
/// in place.
pub open spec fn parse_bytes(cs: Seq<char>, i: int, left: int, acc: Seq<u8>) -> Option<
    (Seq<u8>, int),
>
    decreases left,
{
    if left <= 0 {
        Some((acc, i))
    } else {
        match parse_num(cs, i) {
            None => None,
            Some((v, j)) => {
                if v > 255 {
                    None
                } else if left == 1 {
                    Some((acc.push(v as u8), j))
                } else {
                    match expect_lit(cs, j, seq![',']) {
                        None => None,
                        Some(k) => parse_bytes(cs, k, left - 1, acc.push(v as u8)),
                    }
                }
            },
        }
    }
}

/// Reads a whole block object; the input must hold nothing else.
pub open spec fn parse_block_fields(cs: Seq<char>) -> Option<
    (u64, Seq<char>, Seq<u8>, Seq<u8>, u64),
> {
    match expect_lit(cs, 0, key_id()) {
        None => None,
        Some(i1) => match parse_num(cs, i1) {
            None => None,
            Some((id, i2)) => match expect_lit(cs, i2, key_data()) {
                None => None,
                Some(i3) => match parse_string(cs, i3, seq![]) {
                    None => None,
                    Some((data, i4)) => match expect_lit(cs, i4, key_hash().drop_first()) {
                        None => None,
                        Some(i5) => match parse_bytes(cs, i5, 32, seq![]) {
                            None => None,
                            Some((hash, i6)) => match expect_lit(cs, i6, key_prev()) {
                                None => None,
                                Some(i7) => match parse_bytes(cs, i7, 32, seq![]) {
                                    None => None,
                                    Some((prev, i8)) => match expect_lit(cs, i8, key_nonce()) {
                                        None => None,
                                        Some(i9) => match parse_num(cs, i9) {
                                            None => None,
                                            Some((nonce, i10)) => {
                                                if i10 + 1 == cs.len() && cs[i10] == '}' {
                                                    Some((id, data, hash, prev, nonce))
                                                } else {
                                                    None
                                                }
                                            },
                                        },
                                    },
                                },
                            },
                        },
                    },
                },
            },
        },
    }
}

/// A decimal digit character.
fn digit_char(d: u64) -> (c: char)
    requires
        d < 10,
    ensures
        c == dec_digit(d),
{
    match d {
        0 => '0',
        1 => '1',
        2 => '2',
        3 => '3',
        4 => '4',
        5 => '5',
        6 => '6',
        7 => '7',
        8 => '8',
        _ => '9',
    }
}

/// Appends the decimal digits of `x`.
fn push_dec(s: &mut String, x: u64)
    ensures
        final(s)@ == old(s)@ + dec_of(x),
    decreases x,
{
    if x < 10 {
        push_char(s, digit_char(x));
        assert(final(s)@ =~= old(s)@ + dec_of(x));
    } else {
        push_dec(s, x / 10);
        push_char(s, digit_char(x % 10));
        assert(final(s)@ =~= old(s)@ + dec_of(x));
    }
}

/// Appends one payload character in its escaped form.
fn push_esc_char(s: &mut String, c: char)
    ensures
        final(s)@ == old(s)@ + esc_char(c),
{
    if c == '"' {
        push_char(s, '\\');
        push_char(s, '"');
    } else if c == '\\' {
        push_char(s, '\\');
        push_char(s, '\\');
    } else if c == '\u{8}' {
        push_char(s, '\\');
        push_char(s, 'b');
    } else if c == '\u{9}' {
        push_char(s, '\\');
        push_char(s, 't');
    } else if c == '\u{a}' {
        push_char(s, '\\');
        push_char(s, 'n');
    } else if c == '\u{c}' {
        push_char(s, '\\');
        push_char(s, 'f');
    } else if c == '\u{d}' {
        push_char(s, '\\');
        push_char(s, 'r');
    } else {
        push_char(s, c);
    }
    assert(final(s)@ =~= old(s)@ + esc_char(c));
}

/// Escaping one more character appends its escaped form.
proof fn lemma_json_escape_push(s: Seq<char>, c: char)
    ensures
        json_escape(s.push(c)) == json_escape(s) + esc_char(c),
    decreases s.len(),
{
    if s.len() == 0 {
        assert(s.push(c).drop_first() =~= Seq::<char>::empty());
        assert(s.push(c).first() == c);
        assert(json_escape(Seq::<char>::empty()) == Seq::<char>::empty());
        assert(json_escape(s.push(c)) == esc_char(c) + json_escape(Seq::<char>::empty()));
        assert(json_escape(s.push(c)) =~= json_escape(s) + esc_char(c));
    } else {
        assert(s.push(c).drop_first() =~= s.drop_first().push(c));
        assert(s.push(c).first() == s.first());
        lemma_json_escape_push(s.drop_first(), c);
        assert(json_escape(s.push(c)) == esc_char(s.first()) + json_escape(
            s.drop_first().push(c),
        ));
        assert(json_escape(s.push(c)) =~= json_escape(s) + esc_char(c));
    }
}

/// Appends the escaped form of a payload.
fn push_escaped(s: &mut String, data: &str)
    ensures
        final(s)@ == old(s)@ + json_escape(data@),
{
    let n = data.unicode_len();
    let mut i: usize = 0;
    assert(data@.take(0) =~= Seq::<char>::empty());
    assert(s@ =~= old(s)@ + json_escape(data@.take(0)));
    while i < n
        invariant
            i <= n,
            n == data@.len(),
            s@ == old(s)@ + json_escape(data@.take(i as int)),
        decreases n - i,
    {
        let c = data.get_char(i);
        push_esc_char(s, c);
        proof {
            lemma_json_escape_push(data@.take(i as int), c);
            assert(data@.take(i as int).push(c) =~= data@.take(i + 1));
        }
        i += 1;
    }
    assert(data@.take(n as int) =~= data@);
}

/// One more byte value appends a comma (except at the front) and its digits.
proof fn lemma_bytes_items_push(s: Seq<u8>, v: u8)
    ensures
        s.len() == 0 ==> bytes_items(s.push(v)) == dec_of(v as u64),
        s.len() > 0 ==> bytes_items(s.push(v)) == bytes_items(s) + seq![','] + dec_of(v as u64),
    decreases s.len(),
{
    if s.len() == 0 {
        assert(bytes_items(s.push(v)) =~= dec_of(v as u64));
    } else {
        assert(s.push(v).drop_first() =~= s.drop_first().push(v));
        lemma_bytes_items_push(s.drop_first(), v);
        if s.len() == 1 {
            assert(bytes_items(s.push(v)) =~= bytes_items(s) + seq![','] + dec_of(v as u64));
        } else {
            assert(bytes_items(s.push(v)) =~= bytes_items(s) + seq![','] + dec_of(v as u64));
        }
    }
}

/// Appends the comma-separated byte values of a hash.
fn push_bytes_items(s: &mut String, bytes: &[u8; 32])
    ensures
        final(s)@ == old(s)@ + bytes_items(bytes@),
{
    broadcast use vstd::array::group_array_axioms;

    let mut i: usize = 0;
    assert(bytes@.take(0) =~= Seq::<u8>::empty());
    while i < 32
        invariant
            i <= 32,
            s@ == old(s)@ + bytes_items(bytes@.take(i as int)),
        decreases 32 - i,
    {
        if i > 0 {
            push_char(s, ',');
        }
        push_dec(s, bytes[i] as u64);
        proof {
            lemma_bytes_items_push(bytes@.take(i as int), bytes@[i as int]);
            assert(bytes@.take(i as int).push(bytes@[i as int]) =~= bytes@.take(i + 1));
            assert(s@ =~= old(s)@ + bytes_items(bytes@.take(i + 1)));
        }
        i += 1;
    }
    assert(bytes@.take(32) =~= bytes@);
}

impl Block {
    /// Writes the block in the wire format.
    pub fn encode_wire(&self) -> (r: String)
        ensures
            r@ == json_of_block(*self),
    {
        let mut s = String::new();
        push_char(&mut s, '{');
        push_char(&mut s, '"');
        push_char(&mut s, 'i');
        push_char(&mut s, 'd');
        push_char(&mut s, '"');
        push_char(&mut s, ':');
        assert(s@ =~= key_id());
        push_dec(&mut s, self.id);
        push_char(&mut s, ',');
        push_char(&mut s, '"');
        push_char(&mut s, 'd');
        push_char(&mut s, 'a');
        push_char(&mut s, 't');
        push_char(&mut s, 'a');
        push_char(&mut s, '"');
        push_char(&mut s, ':');
        push_char(&mut s, '"');
        assert(s@ =~= key_id() + dec_of(self.id) + key_data());
        push_escaped(&mut s, self.data.as_str());
        push_char(&mut s, '"');
        push_char(&mut s, ',');
        push_char(&mut s, '"');
        push_char(&mut s, 'h');
        push_char(&mut s, 'a');
        push_char(&mut s, 's');
        push_char(&mut s, 'h');
        push_char(&mut s, '"');
        push_char(&mut s, ':');
        push_char(&mut s, '[');
        assert(s@ =~= key_id() + dec_of(self.id) + key_data() + json_escape(self.data@)
            + key_hash());
        push_bytes_items(&mut s, &self.hash);
        push_char(&mut s, ']');
        push_char(&mut s, ',');
        push_char(&mut s, '"');
        push_char(&mut s, 'p');
        push_char(&mut s, 'r');
        push_char(&mut s, 'e');
        push_char(&mut s, 'v');
        push_char(&mut s, '"');
        push_char(&mut s, ':');
        push_char(&mut s, '[');
        assert(s@ =~= key_id() + dec_of(self.id) + key_data() + json_escape(self.data@)
            + key_hash() + bytes_items(self.hash@) + key_prev());
        push_bytes_items(&mut s, &self.prev);
        push_char(&mut s, ']');
        push_char(&mut s, ',');
        push_char(&mut s, '"');
        push_char(&mut s, 'n');
        push_char(&mut s, 'o');
        push_char(&mut s, 'n');
        push_char(&mut s, 'c');
        push_char(&mut s, 'e');
        push_char(&mut s, '"');
        push_char(&mut s, ':');
        assert(s@ =~= key_id() + dec_of(self.id) + key_data() + json_escape(self.data@)
            + key_hash() + bytes_items(self.hash@) + key_prev() + bytes_items(self.prev@)
            + key_nonce());
        push_dec(&mut s, self.nonce);
        push_char(&mut s, '}');
        assert(s@ =~= json_of_block(*self));
        s
    }
}

/// Powers of ten.
pub open spec fn pow10(n: nat) -> int
    decreases n,
{
    if n == 0 {
        1
    } else {
        10 * pow10((n - 1) as nat)
    }
}

/// The value of a digit string, most significant digit first.
pub open spec fn digits_val(ds: Seq<char>) -> int
    decreases ds.len(),
{
    if ds.len() == 0 {
        0
    } else {
        digits_val(ds.drop_last()) * 10 + digit_val(ds.last())
    }
}

/// A range of a sequence holding a concatenation splits into its two parts.
proof fn lemma_seq_split<T>(cs: Seq<T>, i: int, a: Seq<T>, b: Seq<T>)
    requires
        0 <= i,
        i + a.len() + b.len() <= cs.len(),
        cs.subrange(i, i + a.len() + b.len()) == a + b,
    ensures
        cs.subrange(i, i + a.len()) == a,
        cs.subrange(i + a.len(), i + a.len() + b.len()) == b,
{
    assert forall|k: int| 0 <= k < a.len() implies cs.subrange(i, i + a.len())[k] == a[k] by {
        assert(cs.subrange(i, i + a.len() + b.len())[k] == (a + b)[k]);
    }
    assert(cs.subrange(i, i + a.len()) =~= a);
    assert forall|k: int| 0 <= k < b.len() implies cs.subrange(
        i + a.len(),
        i + a.len() + b.len(),
    )[k] == b[k] by {
        assert(cs.subrange(i + a.len(), i + a.len() + b.len())[k] == cs[i + a.len() + k]);
        assert(cs.subrange(i, i + a.len() + b.len())[k + a.len()] == (a + b)[k + a.len()]);
        assert((a + b)[k + a.len()] == b[k]);
    }
    assert(cs.subrange(i + a.len(), i + a.len() + b.len()) =~= b);
}

/// Every digit character carries its value.
proof fn lemma_dec_digit(d: u64)
    requires
        d < 10,
    ensures
        is_digit(dec_digit(d)),
        digit_val(dec_digit(d)) == d,
{
    if d == 0 {
        assert(dec_digit(0) == '0');
    } else if d == 1 {
        assert(dec_digit(1) == '1');
    } else if d == 2 {
        assert(dec_digit(2) == '2');
    } else if d == 3 {
        assert(dec_digit(3) == '3');
    } else if d == 4 {
        assert(dec_digit(4) == '4');
    } else if d == 5 {
        assert(dec_digit(5) == '5');
    } else if d == 6 {
        assert(dec_digit(6) == '6');
    } else if d == 7 {
        assert(dec_digit(7) == '7');
    } else if d == 8 {
        assert(dec_digit(8) == '8');
    } else {
        assert(dec_digit(9) == '9');
    }
}

/// The decimal digits of `x` are digits and carry the value `x`.
proof fn lemma_dec_of_val(x: u64)
    ensures
        dec_of(x).len() >= 1,
        forall|k: int| 0 <= k < dec_of(x).len() ==> is_digit(dec_of(x)[k]),
        digits_val(dec_of(x)) == x,
    decreases x,
{
    if x < 10 {
        lemma_dec_digit(x);
        assert(dec_of(x).drop_last() =~= Seq::<char>::empty());
        assert(digits_val(Seq::<char>::empty()) == 0);
        assert(dec_of(x).last() == dec_digit(x));
        assert(digits_val(dec_of(x)) == x);
    } else {
        lemma_dec_of_val(x / 10);
        lemma_dec_digit(x % 10);
        let ds = dec_of(x);
        assert(ds.drop_last() =~= dec_of(x / 10));
        assert(ds.last() == dec_digit(x % 10));
        assert(digits_val(ds) == (x / 10) * 10 + (x % 10));
        assert((x / 10) * 10 + (x % 10) == x) by (nonlinear_arith);
    }
}

/// Digit-string values are non-negative and powers of ten positive.
proof fn lemma_digits_val_bounds(ds: Seq<char>)
    ensures
        digits_val(ds) >= 0,
        pow10(ds.len()) >= 1,
    decreases ds.len(),
{
    if ds.len() == 0 {
    } else {
        lemma_digits_val_bounds(ds.drop_last());
        assert(ds.drop_last().len() + 1 == ds.len());
        assert(pow10(ds.len()) == 10 * pow10(ds.drop_last().len()));
        assert(digit_val(ds.last()) >= 0);
    }
}

/// The value of a digit string, split at its first digit.
proof fn lemma_digits_val_first(ds: Seq<char>)
    requires
        ds.len() >= 1,
    ensures
        digits_val(ds) == digit_val(ds.first()) * pow10((ds.len() - 1) as nat) + digits_val(
            ds.drop_first(),
        ),
    decreases ds.len(),
{
    if ds.len() == 1 {
        assert(ds.drop_last() =~= Seq::<char>::empty());
        assert(ds.drop_first() =~= Seq::<char>::empty());
        assert(ds.last() == ds.first());
    } else {
        lemma_digits_val_first(ds.drop_last());
        assert(ds.drop_last().first() == ds.first());
        assert(ds.drop_last().drop_first() =~= ds.drop_first().drop_last());
        assert(ds.drop_first().last() == ds.last());
        assert(digits_val(ds) == digits_val(ds.drop_last()) * 10 + digit_val(ds.last()));
        assert(digits_val(ds.drop_last()) == digit_val(ds.first()) * pow10(
            (ds.len() - 2) as nat,
        ) + digits_val(ds.drop_first().drop_last()));
        assert(pow10((ds.len() - 1) as nat) == 10 * pow10((ds.len() - 2) as nat));
        let a = digit_val(ds.first());
        let p = pow10((ds.len() - 2) as nat);
        let m = digits_val(ds.drop_first().drop_last());
        let l = digit_val(ds.last());
        assert((a * p + m) * 10 + l == a * (10 * p) + (m * 10 + l)) by (nonlinear_arith);
        assert(digits_val(ds.drop_first()) == m * 10 + l);
    }
}

/// Scanning a digit string with a terminator behind it accumulates its
/// value.
proof fn lemma_scan_digits(cs: Seq<char>, i: int, acc: u64, ds: Seq<char>)
    requires
        0 <= i,
        i + ds.len() <= cs.len(),
        cs.subrange(i, i + ds.len()) == ds,
        forall|k: int| 0 <= k < ds.len() ==> is_digit(ds[k]),
        i + ds.len() == cs.len() || !is_digit(cs[i + ds.len()]),
        acc * pow10(ds.len()) + digits_val(ds) <= u64::MAX,
    ensures
        scan_num(cs, i, acc) == Some(
            (((acc * pow10(ds.len()) + digits_val(ds)) as u64), i + ds.len()),
        ),
    decreases ds.len(),
{
    lemma_digits_val_bounds(ds);
    if ds.len() == 0 {
        assert(scan_num(cs, i, acc) == Some((acc, i)));
    } else {
        assert(cs[i] == ds[0]);
        let d = digit_val(ds[0]);
        let rest = ds.drop_first();
        lemma_digits_val_first(ds);
        lemma_digits_val_bounds(rest);
        assert(pow10(ds.len()) == 10 * pow10(rest.len()));
        let accq = (acc * 10 + d) as int;
        assert(accq * pow10(rest.len()) + digits_val(rest) == acc * pow10(ds.len()) + digits_val(
            ds,
        )) by (nonlinear_arith)
            requires
                accq == acc * 10 + d,
                pow10(ds.len()) == 10 * pow10(rest.len()),
                digits_val(ds) == d * pow10(rest.len()) + digits_val(rest),
        ;
        assert(acc * 10 + d <= u64::MAX) by (nonlinear_arith)
            requires
                accq * pow10(rest.len()) + digits_val(rest) <= u64::MAX,
                accq == acc * 10 + d,
                pow10(rest.len()) >= 1,
                digits_val(rest) >= 0,
                acc >= 0,
                d >= 0,
        ;
        assert(acc <= (u64::MAX - d) / 10) by (nonlinear_arith)
            requires
                acc * 10 + d <= u64::MAX,
                0 <= d <= 9,
                acc >= 0,
        ;
        assert(cs.subrange(i + 1, i + 1 + rest.len()) =~= rest);
        lemma_scan_digits(cs, i + 1, (acc * 10 + d) as u64, rest);
    }
}

/// Reading a number at an encoded value, with a non-digit behind it, yields
/// that value.
proof fn lemma_parse_num_encoding(cs: Seq<char>, i: int, x: u64)
    requires
        0 <= i,
        i + dec_of(x).len() <= cs.len(),
        cs.subrange(i, i + dec_of(x).len()) == dec_of(x),
        i + dec_of(x).len() == cs.len() || !is_digit(cs[i + dec_of(x).len()]),
    ensures
        parse_num(cs, i) == Some((x, i + dec_of(x).len())),
{
    lemma_dec_of_val(x);
    lemma_digits_val_bounds(dec_of(x));
    assert(cs[i] == dec_of(x)[0]);
    assert(0 * pow10(dec_of(x).len()) + digits_val(dec_of(x)) == x);
    lemma_scan_digits(cs, i, 0, dec_of(x));
}

/// Reading a string body at an escaped payload followed by a quote yields
/// the payload.
proof fn lemma_parse_string_encoding(cs: Seq<char>, i: int, acc: Seq<char>, data: Seq<char>)
    requires
        0 <= i,
        i + json_escape(data).len() + 1 <= cs.len(),
        cs.subrange(i, i + json_escape(data).len()) == json_escape(data),
        cs[i + json_escape(data).len()] == '"',
    ensures
        parse_string(cs, i, acc) == Some((acc + data, i + json_escape(data).len() + 1)),
    decreases data.len(),
{
    if data.len() == 0 {
        assert(cs[i] == '"');
        assert(acc + data =~= acc);
    } else {
        let c = data.first();
        let e = esc_char(c);
        let rest = data.drop_first();
        assert(json_escape(data) == e + json_escape(rest));
        assert(json_escape(data).len() == e.len() + json_escape(rest).len());
        lemma_seq_split(cs, i, e, json_escape(rest));
        assert forall|k: int| 0 <= k < e.len() implies cs[i + k] == e[k] by {
            assert(cs.subrange(i, i + e.len())[k] == e[k]);
        }
        assert(acc.push(c) + rest =~= acc + data);
        if c == '"' {
            assert(cs[i] == '\\' && cs[i + 1] == '"');
            lemma_parse_string_encoding(cs, i + 2, acc.push(c), rest);
        } else if c == '\\' {
            assert(cs[i] == '\\' && cs[i + 1] == '\\');
            lemma_parse_string_encoding(cs, i + 2, acc.push(c), rest);
        } else if c == '\u{8}' {
            assert(cs[i] == '\\' && cs[i + 1] == 'b');
            lemma_parse_string_encoding(cs, i + 2, acc.push(c), rest);
        } else if c == '\u{9}' {
            assert(cs[i] == '\\' && cs[i + 1] == 't');
            lemma_parse_string_encoding(cs, i + 2, acc.push(c), rest);
        } else if c == '\u{a}' {
            assert(cs[i] == '\\' && cs[i + 1] == 'n');
            lemma_parse_string_encoding(cs, i + 2, acc.push(c), rest);
        } else if c == '\u{c}' {
            assert(cs[i] == '\\' && cs[i + 1] == 'f');
            lemma_parse_string_encoding(cs, i + 2, acc.push(c), rest);
        } else if c == '\u{d}' {
            assert(cs[i] == '\\' && cs[i + 1] == 'r');
            lemma_parse_string_encoding(cs, i + 2, acc.push(c), rest);
        } else {
            assert(e =~= seq![c]);
            assert(cs[i + 0] == e[0]);
            assert(cs[i] == c);
            lemma_parse_string_encoding(cs, i + 1, acc.push(c), rest);
        }
    }
}

/// Reading byte values at an encoded hash followed by a closing bracket
/// yields the bytes.
proof fn lemma_parse_bytes_encoding(cs: Seq<char>, i: int, acc: Seq<u8>, bytes: Seq<u8>)
    requires
        0 <= i,
        i + bytes_items(bytes).len() < cs.len(),
        cs.subrange(i, i + bytes_items(bytes).len()) == bytes_items(bytes),
        cs[i + bytes_items(bytes).len()] == ']',
    ensures
        parse_bytes(cs, i, bytes.len() as int, acc) == Some(
            (acc + bytes, i + bytes_items(bytes).len()),
        ),
    decreases bytes.len(),
{
    if bytes.len() == 0 {
        assert(acc + bytes =~= acc);
    } else if bytes.len() == 1 {
        let v = bytes.first();
        assert(bytes_items(bytes) == dec_of(v as u64));
        assert(!is_digit(']'));
        lemma_parse_num_encoding(cs, i, v as u64);
        assert(acc.push(v) =~= acc + bytes);
    } else {
        let v = bytes.first();
        let rest = bytes.drop_first();
        let dv = dec_of(v as u64);
        let tail_items = bytes_items(rest);
        assert(bytes_items(bytes) == dv + seq![','] + tail_items);
        assert(bytes_items(bytes) =~= dv + (seq![','] + tail_items));
        assert(bytes_items(bytes).len() == dv.len() + 1 + tail_items.len());
        lemma_seq_split(cs, i, dv, seq![','] + tail_items);
        lemma_seq_split(cs, i + dv.len(), seq![','], tail_items);
        assert(cs[i + dv.len()] == ',') by {
            assert(cs.subrange(i + dv.len(), i + dv.len() + 1)[0] == ',');
        }
        assert(!is_digit(','));
        lemma_parse_num_encoding(cs, i, v as u64);
        assert(expect_lit(cs, i + dv.len(), seq![',']) == Some(i + dv.len() + 1));
        let j = i + dv.len() + 1;
        lemma_parse_bytes_encoding(cs, j, acc.push(v), rest);
        assert(acc.push(v) + rest =~= acc + bytes);
    }
}

/// Where each piece of a block's encoding stands: the tokens, values and
/// single structural characters, by position.
spec fn block_layout(b: Block, cs: Seq<char>) -> bool {
    let t_id = dec_of(b.id);
    let t_data = json_escape(b.data@);
    let t_hash = bytes_items(b.hash@);
    let t_prev = bytes_items(b.prev@);
    let t_nonce = dec_of(b.nonce);
    let p1 = key_id().len() as int;
    let p2 = p1 + t_id.len();
    let p3 = p2 + key_data().len();
    let q = p3 + t_data.len();
    let p4 = q + 1;
    let p5 = p4 + key_hash().drop_first().len();
    let p6 = p5 + t_hash.len();
    let p7 = p6 + key_prev().len();
    let p8 = p7 + t_prev.len();
    let p9 = p8 + key_nonce().len();
    let p10 = p9 + t_nonce.len();
    &&& cs.len() == p10 + 1
    &&& cs.subrange(0, p1) == key_id()
    &&& cs.subrange(p1, p2) == t_id
    &&& cs.subrange(p2, p3) == key_data()
    &&& cs.subrange(p3, q) == t_data
    &&& cs[q] == '"'
    &&& cs.subrange(p4, p5) == key_hash().drop_first()
    &&& cs.subrange(p5, p6) == t_hash
    &&& cs.subrange(p6, p7) == key_prev()
    &&& cs.subrange(p7, p8) == t_prev
    &&& cs.subrange(p8, p9) == key_nonce()
    &&& cs.subrange(p9, p10) == t_nonce
    &&& cs[p2] == ','
    &&& cs[p6] == ']'
    &&& cs[p8] == ']'
    &&& cs[p10] == '}'
}

/// A block's encoding has the layout above.
#[verifier::rlimit(100)]
#[verifier::spinoff_prover]
proof fn lemma_block_layout(b: Block)
    ensures
        block_layout(b, json_of_block(b)),
{
    let cs = json_of_block(b);
    let t_id = dec_of(b.id);
    let t_data = json_escape(b.data@);
    let t_hash = bytes_items(b.hash@);
    let t_prev = bytes_items(b.prev@);
    let t_nonce = dec_of(b.nonce);
    let u1 = key_id();
    let u2 = u1 + t_id;
    let u3 = u2 + key_data();
    let u4 = u3 + t_data;
    let u5 = u4 + key_hash();
    let u6 = u5 + t_hash;
    let u7 = u6 + key_prev();
    let u8 = u7 + t_prev;
    let u9 = u8 + key_nonce();
    let u10 = u9 + t_nonce;
    assert(cs == u10 + seq!['}']);
    let p1 = key_id().len() as int;
    let p2 = p1 + t_id.len();
    let p3 = p2 + key_data().len();
    let q = p3 + t_data.len();
    let p4 = q + 1;
    let p5 = p4 + key_hash().drop_first().len();
    let p6 = p5 + t_hash.len();
    let p7 = p6 + key_prev().len();
    let p8 = p7 + t_prev.len();
    let p9 = p8 + key_nonce().len();
    let p10 = p9 + t_nonce.len();
    assert(cs.len() == p10 + 1);
    assert(cs.subrange(0, cs.len() as int) =~= cs);
    lemma_seq_split(cs, 0, u10, seq!['}']);
    lemma_seq_split(cs, 0, u9, t_nonce);
    lemma_seq_split(cs, 0, u8, key_nonce());
    lemma_seq_split(cs, 0, u7, t_prev);
    lemma_seq_split(cs, 0, u6, key_prev());
    lemma_seq_split(cs, 0, u5, t_hash);
    lemma_seq_split(cs, 0, u4, key_hash());
    lemma_seq_split(cs, 0, u3, t_data);
    lemma_seq_split(cs, 0, u2, key_data());
    lemma_seq_split(cs, 0, u1, t_id);
    assert(cs[p2] == ',') by {
        assert(cs.subrange(p2, p3)[0] == key_data()[0]);
    }
    assert(cs[q] == '"') by {
        assert(cs.subrange(q, p5)[0] == key_hash()[0]);
    }
    assert(cs.subrange(p4, p5) =~= key_hash().drop_first()) by {
        assert forall|k: int| 0 <= k < key_hash().drop_first().len() implies cs.subrange(
            p4,
            p5,
        )[k] == key_hash().drop_first()[k] by {
            assert(cs.subrange(p4, p5)[k] == cs[p4 + k]);
            assert(cs.subrange(q, p5)[k + 1] == cs[q + k + 1]);
            assert(cs.subrange(q, p5)[k + 1] == key_hash()[k + 1]);
        }
    }
    assert(cs[p6] == ']') by {
        assert(cs.subrange(p6, p7)[0] == key_prev()[0]);
    }
    assert(cs[p8] == ']') by {
        assert(cs.subrange(p8, p9)[0] == key_nonce()[0]);
    }
    assert(cs[p10] == '}') by {
        assert(cs.subrange(p10, p10 + 1)[0] == '}');
    }
}

/// Law: the wire format round-trips. Reading back the encoding of any block
/// yields exactly its fields.
#[verifier::rlimit(100)]
#[verifier::spinoff_prover]
pub proof fn lemma_block_round_trip(b: Block)
    ensures
        parse_block_fields(json_of_block(b)) == Some((b.id, b.data@, b.hash@, b.prev@, b.nonce)),
{
    broadcast use vstd::array::group_array_axioms;

    lemma_block_layout(b);
    let cs = json_of_block(b);
    let t_id = dec_of(b.id);
    let t_data = json_escape(b.data@);
    let t_hash = bytes_items(b.hash@);
    let t_prev = bytes_items(b.prev@);
    let t_nonce = dec_of(b.nonce);
    let p1 = key_id().len() as int;
    let p2 = p1 + t_id.len();
    let p3 = p2 + key_data().len();
    let q = p3 + t_data.len();
    let p4 = q + 1;
    let p5 = p4 + key_hash().drop_first().len();
    let p6 = p5 + t_hash.len();
    let p7 = p6 + key_prev().len();
    let p8 = p7 + t_prev.len();
    let p9 = p8 + key_nonce().len();
    let p10 = p9 + t_nonce.len();
    assert(expect_lit(cs, 0, key_id()) == Some(p1));
    assert(!is_digit(','));
    lemma_parse_num_encoding(cs, p1, b.id);
    assert(expect_lit(cs, p2, key_data()) == Some(p3));
    lemma_parse_string_encoding(cs, p3, seq![], b.data@);
    assert(seq![] + b.data@ =~= b.data@);
    assert(expect_lit(cs, p4, key_hash().drop_first()) == Some(p5));
    lemma_parse_bytes_encoding(cs, p5, seq![], b.hash@);
    assert(seq![] + b.hash@ =~= b.hash@);
    assert(b.hash@.len() == 32);
    assert(expect_lit(cs, p6, key_prev()) == Some(p7));
    lemma_parse_bytes_encoding(cs, p7, seq![], b.prev@);
    assert(seq![] + b.prev@ =~= b.prev@);
    assert(b.prev@.len() == 32);
    assert(expect_lit(cs, p8, key_nonce()) == Some(p9));
    assert(!is_digit('}'));
    lemma_parse_num_encoding(cs, p9, b.nonce);
}

/// The characters of a string, as a vector.
fn str_chars(s: &str) -> (r: Vec<char>)
    ensures
        r@ == s@,
{
    let n = s.unicode_len();
    let mut r: Vec<char> = Vec::new();
    let mut i: usize = 0;
    while i < n
        invariant
            i <= n,
            n == s@.len(),
            r@ == s@.take(i as int),
        decreases n - i,
    {
        r.push(s.get_char(i));
        assert(r@ =~= s@.take(i + 1));
        i += 1;
    }
    assert(r@ =~= s@);
    r
}

/// A string from a vector of characters.
fn chars_to_string(v: &Vec<char>) -> (r: String)
    ensures
        r@ == v@,
{
    let mut r = String::new();
    let n = v.len();
    let mut i: usize = 0;
    while i < n
        invariant
            i <= n,
            n == v@.len(),
            r@ == v@.take(i as int),
        decreases n - i,
    {
        push_char(&mut r, v[i]);
        assert(r@ =~= v@.take(i + 1));
        i += 1;
    }
    assert(r@ =~= v@);
    r
}

/// A 32-byte array from a vector of exactly 32 bytes.
fn vec_to_arr32(v: &Vec<u8>) -> (r: [u8; 32])
    requires
        v@.len() == 32,
    ensures
        r@ == v@,
{
    broadcast use vstd::array::group_array_axioms;

    let mut r = [0u8; 32];
    let mut i: usize = 0;
    while i < 32
        invariant
            i <= 32,
            v@.len() == 32,
            forall|j: int| 0 <= j < i ==> r@[j] == v@[j],
        decreases 32 - i,
    {
        r[i] = v[i];
        i += 1;
    }
    assert(r@ =~= v@);
    r
}

/// Whether `c` is a decimal digit.
fn is_digit_exec(c: char) -> (r: bool)
    ensures
        r == is_digit(c),
{
    c == '0' || c == '1' || c == '2' || c == '3' || c == '4' || c == '5' || c == '6' || c == '7'
        || c == '8' || c == '9'
}

/// The value of a decimal digit.
fn digit_val_exec(c: char) -> (r: u64)
    requires
        is_digit(c),
    ensures
        r == digit_val(c),
        r <= 9,
{
    if c == '0' {
        0
    } else if c == '1' {
        1
    } else if c == '2' {
        2
    } else if c == '3' {
        3
    } else if c == '4' {
        4
    } else if c == '5' {
        5
    } else if c == '6' {
        6
    } else if c == '7' {
        7
    } else if c == '8' {
        8
    } else {
        9
    }
}

/// Reads digits from position `i` on, accumulating their value.
fn scan_num_exec(cs: &Vec<char>, i: usize, acc: u64) -> (r: Option<(u64, usize)>)
    requires
        i <= cs@.len(),
    ensures
        match r {
            Some((v, j)) => scan_num(cs@, i as int, acc) == Some((v, j as int)) && i <= j
                <= cs@.len(),
            None => scan_num(cs@, i as int, acc) is None,
        },
    decreases cs@.len() - i,
{
    if i < cs.len() {
        let c = cs[i];
        if is_digit_exec(c) {
            let d = digit_val_exec(c);
            if acc <= (u64::MAX - d) / 10 {
                assert(acc * 10 + d <= u64::MAX) by (nonlinear_arith)
                    requires
                        d <= 9,
                        acc <= (u64::MAX - d) / 10,
                ;
                return scan_num_exec(cs, i + 1, acc * 10 + d);
            } else {
                return None;
            }
        }
    }
    Some((acc, i))
}

/// Reads a number: at least one digit.
fn parse_num_exec(cs: &Vec<char>, i: usize) -> (r: Option<(u64, usize)>)
    requires
        i <= cs@.len(),
    ensures
        match r {
            Some((v, j)) => parse_num(cs@, i as int) == Some((v, j as int)) && i <= j <= cs@.len(),
            None => parse_num(cs@, i as int) is None,
        },
{
    if i < cs.len() && is_digit_exec(cs[i]) {
        scan_num_exec(cs, i, 0)
    } else {
        None
    }
}

/// Reads the token `tok` at position `i`.
fn expect_lit_exec(cs: &Vec<char>, i: usize, tok: &Vec<char>) -> (r: Option<usize>)
    requires
        i <= cs@.len(),
    ensures
        match r {
            Some(j) => expect_lit(cs@, i as int, tok@) == Some(j as int) && i <= j <= cs@.len(),
            None => expect_lit(cs@, i as int, tok@) is None,
        },
{
    let m = tok.len();
    if m > cs.len() - i {
        return None;
    }
    let mut k: usize = 0;
    while k < m
        invariant
            k <= m,
            m == tok@.len(),
            i + m <= cs@.len(),
            cs@.len() <= usize::MAX,
            forall|j: int| 0 <= j < k ==> cs@[i + j] == tok@[j],
        decreases m - k,
    {
        if cs[i + k] != tok[k] {
            assert(cs@.subrange(i as int, i + m) != tok@) by {
                assert(cs@.subrange(i as int, i + m)[k as int] != tok@[k as int]);
            }
            return None;
        }
        k += 1;
    }
    assert(cs@.subrange(i as int, i + m) =~= tok@);
    Some(i + m)
}

/// Reads a string body up to its closing quote.
fn parse_string_exec(cs: &Vec<char>, i: usize, acc: Vec<char>) -> (r: Option<(Vec<char>, usize)>)
    requires
        i <= cs@.len(),
    ensures
        match r {
            Some((v, j)) => parse_string(cs@, i as int, acc@) == Some((v@, j as int)) && i <= j
                <= cs@.len(),
            None => parse_string(cs@, i as int, acc@) is None,
        },
    decreases cs@.len() - i,
{
    if i >= cs.len() {
        return None;
    }
    let c = cs[i];
    if c == '"' {
        return Some((acc, i + 1));
    }
    let mut acc = acc;
    if c == '\\' {
        if i + 1 >= cs.len() {
            return None;
        }
        let e = cs[i + 1];
        if e == '"' {
            acc.push('"');
        } else if e == '\\' {
            acc.push('\\');
        } else if e == 'b' {
            acc.push('\u{8}');
        } else if e == 't' {
            acc.push('\u{9}');
        } else if e == 'n' {
            acc.push('\u{a}');
        } else if e == 'f' {
            acc.push('\u{c}');
        } else if e == 'r' {
            acc.push('\u{d}');
        } else {
            return None;
        }
        parse_string_exec(cs, i + 2, acc)
    } else {
        acc.push(c);
        parse_string_exec(cs, i + 1, acc)
    }
}

/// Reads `left` byte values separated by commas.
fn parse_bytes_exec(cs: &Vec<char>, i: usize, left: usize, acc: Vec<u8>) -> (r: Option<
    (Vec<u8>, usize),
>)
    requires
        i <= cs@.len(),
    ensures
        match r {
            Some((v, j)) => parse_bytes(cs@, i as int, left as int, acc@) == Some((v@, j as int))
                && i <= j <= cs@.len() && v@.len() == acc@.len() + left,
            None => parse_bytes(cs@, i as int, left as int, acc@) is None,
        },
    decreases left,
{
    if left == 0 {
        return Some((acc, i));
    }
    match parse_num_exec(cs, i) {
        None => None,
        Some((v, j)) => {
            if v > 255 {
                return None;
            }
            let mut acc = acc;
            if left == 1 {
                acc.push(v as u8);
                Some((acc, j))
            } else {
                if j < cs.len() && cs[j] == ',' {
                    assert(expect_lit(cs@, j as int, seq![',']) == Some(j + 1)) by {
                        assert(cs@.subrange(j as int, j + 1) =~= seq![',']);
                    }
                    acc.push(v as u8);
                    parse_bytes_exec(cs, j + 1, left - 1, acc)
                } else {
                    assert(expect_lit(cs@, j as int, seq![',']) is None) by {
                        if j < cs@.len() {
                            assert(cs@.subrange(j as int, j + 1)[0] != ',');
                        }
                    }
                    None
                }
            }
        },
    }
}

impl Block {
    /// Reads a block from its wire encoding; returns `None` on anything but
    /// a canonical encoding.
    pub fn decode_wire(s: &str) -> (r: Option<Block>)
        ensures
            match r {
                Some(b) => parse_block_fields(s@) == Some(
                    (b.id, b.data@, b.hash@, b.prev@, b.nonce),
                ),
                None => parse_block_fields(s@) is None,
            },
    {
        let cs = str_chars(s);
        let mut tok_id: Vec<char> = Vec::new();
        tok_id.push('{');
        tok_id.push('"');
        tok_id.push('i');
        tok_id.push('d');
        tok_id.push('"');
        tok_id.push(':');
        assert(tok_id@ =~= key_id());
        let mut tok_data: Vec<char> = Vec::new();
        tok_data.push(',');
        tok_data.push('"');
        tok_data.push('d');
        tok_data.push('a');
        tok_data.push('t');
        tok_data.push('a');
        tok_data.push('"');
        tok_data.push(':');
        tok_data.push('"');
        assert(tok_data@ =~= key_data());
        let mut tok_hash: Vec<char> = Vec::new();
        tok_hash.push(',');
        tok_hash.push('"');
        tok_hash.push('h');
        tok_hash.push('a');
        tok_hash.push('s');
        tok_hash.push('h');
        tok_hash.push('"');
        tok_hash.push(':');
        tok_hash.push('[');
        assert(tok_hash@ =~= key_hash().drop_first());
        let mut tok_prev: Vec<char> = Vec::new();
        tok_prev.push(']');
        tok_prev.push(',');
        tok_prev.push('"');
        tok_prev.push('p');
        tok_prev.push('r');
        tok_prev.push('e');
        tok_prev.push('v');
        tok_prev.push('"');
        tok_prev.push(':');
        tok_prev.push('[');
        assert(tok_prev@ =~= key_prev());
        let mut tok_nonce: Vec<char> = Vec::new();
        tok_nonce.push(']');
        tok_nonce.push(',');
        tok_nonce.push('"');
        tok_nonce.push('n');
        tok_nonce.push('o');
        tok_nonce.push('n');
        tok_nonce.push('c');
        tok_nonce.push('e');
        tok_nonce.push('"');
        tok_nonce.push(':');
        assert(tok_nonce@ =~= key_nonce());
        let i1 = match expect_lit_exec(&cs, 0, &tok_id) {
            None => {
                return None;
            },
            Some(j) => j,
        };
        let (id, i2) = match parse_num_exec(&cs, i1) {
            None => {
                return None;
            },
            Some(p) => p,
        };
        let i3 = match expect_lit_exec(&cs, i2, &tok_data) {
            None => {
                return None;
            },
            Some(j) => j,
        };
        let (data, i4) = match parse_string_exec(&cs, i3, Vec::new()) {
            None => {
                return None;
            },
            Some(p) => p,
        };
        let i5 = match expect_lit_exec(&cs, i4, &tok_hash) {
            None => {
                return None;
            },
            Some(j) => j,
        };
        let (hash, i6) = match parse_bytes_exec(&cs, i5, 32, Vec::new()) {
            None => {
                return None;
            },
            Some(p) => p,
        };
        let i7 = match expect_lit_exec(&cs, i6, &tok_prev) {
            None => {
                return None;
            },
            Some(j) => j,
        };
        let (prev, i8) = match parse_bytes_exec(&cs, i7, 32, Vec::new()) {
            None => {
                return None;
            },
            Some(p) => p,
        };
        let i9 = match expect_lit_exec(&cs, i8, &tok_nonce) {
            None => {
                return None;
            },
            Some(j) => j,
        };
        let (nonce, i10) = match parse_num_exec(&cs, i9) {
            None => {
                return None;
            },
            Some(p) => p,
        };
        let n = cs.len();
        if !(i10 < n && n - i10 == 1 && cs[i10] == '}') {
            return None;
        }
        let b = Block {
            id,
            data: chars_to_string(&data),
            hash: vec_to_arr32(&hash),
            prev: vec_to_arr32(&prev),
            nonce,
        };
        Some(b)
    }
}

} // verus!
