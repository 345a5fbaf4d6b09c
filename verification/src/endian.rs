//! Big-endian integers, the only number format of the wire protocol.

use vstd::prelude::*;

verus! {

/// The number of bytes of a length, a size or an offset on the wire.
pub const WORD: usize = 8;

/// `256` to the power `n`: one more than the largest number that `n` bytes hold.
pub open spec fn pow256(n: nat) -> nat
    decreases n,
{
    if n == 0 {
        1
    } else {
        256 * pow256((n - 1) as nat)
    }
}

/// The number that `bytes` stand for, most significant byte first.
pub open spec fn be_value(bytes: Seq<u8>) -> nat
    decreases bytes.len(),
{
    if bytes.len() == 0 {
        0
    } else {
        be_value(bytes.drop_last()) * 256 + bytes.last() as nat
    }
}

/// The `n` bytes, most significant first, that stand for `value`.
pub open spec fn be_bytes(value: nat, n: nat) -> Seq<u8>
    decreases n,
{
    if n == 0 {
        Seq::empty()
    } else {
        be_bytes(value / 256, (n - 1) as nat).push((value % 256) as u8)
    }
}

/// The eight bytes of a word on the wire.
pub open spec fn word(value: u64) -> Seq<u8> {
    be_bytes(value as nat, 8)
}

pub proof fn lemma_pow256_grows(small: nat, large: nat)
    requires
        small <= large,
    ensures
        1 <= pow256(small) <= pow256(large),
    decreases large,
{
    if small < large {
        lemma_pow256_grows(small, (large - 1) as nat);
    } else if small > 0 {
        lemma_pow256_grows((small - 1) as nat, (small - 1) as nat);
    }
}

pub proof fn lemma_pow256_word()
    ensures
        pow256(8) == 0x1_0000_0000_0000_0000,
{
    reveal_with_fuel(pow256, 9);
}

pub proof fn lemma_be_bytes_len(value: nat, n: nat)
    ensures
        be_bytes(value, n).len() == n,
    decreases n,
{
    if n > 0 {
        lemma_be_bytes_len(value / 256, (n - 1) as nat);
    }
}

pub proof fn lemma_be_value_bound(bytes: Seq<u8>)
    ensures
        be_value(bytes) < pow256(bytes.len()),
    decreases bytes.len(),
{
    if bytes.len() > 0 {
        lemma_be_value_bound(bytes.drop_last());
    }
}

/// Reading back the bytes of a number that fits in them gives the number.
pub proof fn law_value_of_bytes(value: nat, n: nat)
    requires
        value < pow256(n),
    ensures
        be_value(be_bytes(value, n)) == value,
    decreases n,
{
    if n > 0 {
        law_value_of_bytes(value / 256, (n - 1) as nat);
        assert(be_bytes(value, n).drop_last() =~= be_bytes(value / 256, (n - 1) as nat));
    }
}

/// Writing the number that some bytes stand for gives the same bytes.
pub proof fn law_bytes_of_value(bytes: Seq<u8>)
    ensures
        be_bytes(be_value(bytes), bytes.len()) == bytes,
    decreases bytes.len(),
{
    if bytes.len() > 0 {
        law_bytes_of_value(bytes.drop_last());
        let head = be_value(bytes.drop_last());
        assert((head * 256 + bytes.last() as nat) / 256 == head);
        assert(bytes.drop_last().push(bytes.last()) =~= bytes);
    }
}

/// A word is eight bytes long and reads back as the number written.
pub proof fn law_word_round_trip(value: u64)
    ensures
        word(value).len() == 8,
        be_value(word(value)) == value,
{
    lemma_be_bytes_len(value as nat, 8);
    lemma_pow256_word();
    law_value_of_bytes(value as nat, 8);
}

/// A word on the wire has its most significant byte first: each byte counts 256 times as
/// much as the one after it.
pub proof fn law_word_is_big_endian(bytes: Seq<u8>)
    requires
        bytes.len() == 8,
    ensures
        be_value(bytes) == bytes[0] * 0x100_0000_0000_0000 + bytes[1] * 0x1_0000_0000_0000
            + bytes[2] * 0x100_0000_0000 + bytes[3] * 0x1_0000_0000 + bytes[4] * 0x100_0000
            + bytes[5] * 0x1_0000 + bytes[6] * 0x100 + bytes[7],
        word(be_value(bytes) as u64) == bytes,
{
    reveal_with_fuel(be_value, 9);
    law_bytes_of_value(bytes);
    lemma_be_value_bound(bytes);
    lemma_pow256_word();
}

/// The bytes of `value` as a word.
pub fn encode_word(value: u64) -> (bytes: Vec<u8>)
    ensures
        bytes@ == word(value),
        bytes@.len() == 8,
{
    let mut bytes: Vec<u8> = Vec::new();
    bytes.resize(WORD, 0);
    let mut rest: u64 = value;
    let mut i: usize = WORD;
    assert(bytes@.skip(8) =~= Seq::<u8>::empty());
    assert(be_bytes(rest as nat, 8) + bytes@.skip(8) =~= word(value));
    while i > 0
        invariant
            i <= 8,
            bytes@.len() == 8,
            be_bytes(rest as nat, i as nat) + bytes@.skip(i as int) == word(value),
        decreases i,
    {
        let ghost before = bytes@;
        let ghost rest_before = rest;
        i -= 1;
        bytes[i] = (rest % 256) as u8;
        rest = rest / 256;
        proof {
            lemma_be_bytes_len(rest as nat, i as nat);
            assert(be_bytes(rest_before as nat, (i + 1) as nat) =~= be_bytes(
                rest as nat,
                i as nat,
            ).push(bytes@[i as int]));
            assert(be_bytes(rest as nat, i as nat) + bytes@.skip(i as int) =~= be_bytes(
                rest_before as nat,
                (i + 1) as nat,
            ) + before.skip(i + 1));
        }
    }
    assert(be_bytes(rest as nat, 0) + bytes@.skip(0) =~= bytes@);
    proof {
        lemma_be_bytes_len(value as nat, 8);
    }
    bytes
}

/// The number that a word of eight bytes stands for.
pub fn decode_word(bytes: &[u8]) -> (value: u64)
    requires
        bytes@.len() == 8,
    ensures
        value == be_value(bytes@),
        bytes@ == word(value),
{
    let mut value: u64 = 0;
    let mut i: usize = 0;
    while i < WORD
        invariant
            i <= 8,
            bytes@.len() == 8,
            value == be_value(bytes@.take(i as int)),
        decreases 8 - i,
    {
        proof {
            assert(bytes@.take(i + 1).drop_last() =~= bytes@.take(i as int));
            lemma_be_value_bound(bytes@.take(i + 1));
            lemma_pow256_grows((i + 1) as nat, 8);
            lemma_pow256_word();
        }
        value = value * 256 + bytes[i] as u64;
        i += 1;
    }
    proof {
        assert(bytes@.take(8) =~= bytes@);
        law_bytes_of_value(bytes@);
    }
    value
}

} // verus!
