//! Transactions as they travel.
use std::sync::Arc;

use vstd::prelude::*;

use crate::header::Bytes;
use crate::refs::{Digest, TransactionRef};

verus! {

/// The lists of bytes that `bytes` encodes in BCS, if it is such an encoding.
pub uninterp spec fn bcs_byte_lists(bytes: Seq<u8>) -> Option<Seq<Seq<u8>>>;

/// The round, the author, the 32 bytes of the commitment and the payload that
/// `bytes` encodes in BCS, if it is such an encoding.
pub uninterp spec fn bcs_transactions_message(bytes: Seq<u8>) -> Option<
    (u32, u8, Seq<u8>, Seq<u8>),
>;

/// The contents of lists of bytes.
pub open spec fn contents(lists: Seq<Vec<u8>>) -> Seq<Seq<u8>> {
    lists.map_values(|l: Vec<u8>| l@)
}

/// Decodes lists of bytes.
///
/// Calls `bcs::from_bytes` for `Vec<Vec<u8>>`. What it returns depends on the
/// bytes alone; which of its errors comes is left open.
#[verifier::external_body]
fn decode_byte_lists(bytes: &Vec<u8>) -> (r: Result<Vec<Vec<u8>>, bcs::Error>)
    ensures
        match r {
            Ok(lists) => bcs_byte_lists(bytes@) == Some(contents(lists@)),
            Err(_) => bcs_byte_lists(bytes@) is None,
        },
{
    bcs::from_bytes(bytes)
}

/// Decodes transactions that come with the reference to them.
///
/// Calls `bcs::from_bytes` for a round, an author, a 32-byte commitment and a
/// payload. What it returns depends on the bytes alone; which of its errors
/// comes is left open.
#[verifier::external_body]
fn decode_transactions_message(bytes: &Vec<u8>) -> (r: Result<
    (u32, u8, [u8; 32], Vec<u8>),
    bcs::Error,
>)
    ensures
        match r {
            Ok(m) => bcs_transactions_message(bytes@) == Some((m.0, m.1, m.2@, m.3@)),
            Err(_) => bcs_transactions_message(bytes@) is None,
        },
{
    bcs::from_bytes(bytes)
}

/// The transactions of a block, decoded.
pub fn decode_transactions(bytes: &Vec<u8>) -> (r: Result<Vec<Vec<u8>>, bcs::Error>)
    ensures
        match r {
            Ok(lists) => bcs_byte_lists(bytes@) == Some(contents(lists@)),
            Err(_) => bcs_byte_lists(bytes@) is None,
        },
{
    decode_byte_lists(bytes)
}

/// The number that bytes are the big-endian form of.
pub open spec fn big_endian(bytes: Seq<u8>) -> int
    decreases bytes.len(),
{
    if bytes.len() == 0 {
        0
    } else {
        big_endian(bytes.drop_last()) * 256 + bytes.last()
    }
}

spec fn pow256(n: nat) -> int
    decreases n,
{
    if n == 0 {
        1
    } else {
        256 * pow256((n - 1) as nat)
    }
}

proof fn lemma_pow256_monotone(m: nat, n: nat)
    requires
        m <= n,
    ensures
        0 < pow256(m) <= pow256(n),
    decreases n,
{
    if m < n {
        lemma_pow256_monotone(m, (n - 1) as nat);
    } else if n > 0 {
        lemma_pow256_monotone((m - 1) as nat, (n - 1) as nat);
    }
}

/// Reads 16 bytes as a big-endian number.
fn read_half(bytes: &[u8; 32], start: usize) -> (r: u128)
    requires
        start <= 16,
    ensures
        r == big_endian(bytes@.subrange(start as int, start + 16)),
{
    let mut acc: u128 = 0;
    let mut i: usize = 0;
    assert(bytes@.subrange(start as int, start as int) =~= Seq::empty());
    assert(pow256(0) == 1);
    while i < 16
        invariant
            start <= 16,
            i <= 16,
            acc == big_endian(bytes@.subrange(start as int, start + i)),
            acc < pow256(i as nat),
        decreases 16 - i,
    {
        proof {
            let s = bytes@.subrange(start as int, start + i + 1);
            assert(s.drop_last() =~= bytes@.subrange(start as int, start + i));
            assert(s.last() == bytes@[start + i]);
            assert(pow256((i + 1) as nat) == 256 * pow256(i as nat));
            lemma_pow256_monotone((i + 1) as nat, 16);
            assert(pow256(16) == 0x1_0000_0000_0000_0000_0000_0000_0000_0000int) by {
                reveal_with_fuel(pow256, 17);
            }
        }
        acc = acc * 256 + bytes[start + i] as u128;
        i = i + 1;
    }
    acc
}

/// The digest with these 32 bytes.
pub open spec fn digest_of(bytes: Seq<u8>) -> Digest {
    Digest {
        hi: big_endian(bytes.subrange(0, 16)) as u128,
        lo: big_endian(bytes.subrange(16, 32)) as u128,
    }
}

/// The digest with these bytes.
pub fn digest_from_bytes(bytes: &[u8; 32]) -> (r: Digest)
    ensures
        r == digest_of(bytes@),
{
    let hi: u128 = read_half(bytes, 0);
    let lo: u128 = read_half(bytes, 16);
    Digest { hi, lo }
}

/// Serialized transactions with the reference to them.
#[derive(Debug)]
pub struct SerializedTransactionsV2 {
    pub transaction_ref: TransactionRef,
    pub serialized_transactions: Bytes,
}

/// The reference and the payload in a message.
pub open spec fn message_of(bytes: Seq<u8>) -> Option<(TransactionRef, Seq<u8>)> {
    match bcs_transactions_message(bytes) {
        Some(m) => Some(
            (
                TransactionRef {
                    round: m.0,
                    author: m.1,
                    transactions_commitment: digest_of(m.2),
                },
                m.3,
            ),
        ),
        None => None,
    }
}

impl SerializedTransactionsV2 {
    /// Decodes a message.
    pub fn from_bytes(bytes: &Vec<u8>) -> (r: Result<Self, bcs::Error>)
        ensures
            match r {
                Ok(m) => message_of(bytes@) == Some(
                    (m.transaction_ref, m.serialized_transactions@),
                ),
                Err(_) => message_of(bytes@) is None,
            },
    {
        match decode_transactions_message(bytes) {
            Ok((round, author, commitment, payload)) => Ok(
                SerializedTransactionsV2 {
                    transaction_ref: TransactionRef {
                        round,
                        author,
                        transactions_commitment: digest_from_bytes(&commitment),
                    },
                    serialized_transactions: Arc::new(payload),
                },
            ),
            Err(e) => Err(e),
        }
    }
}

} // verus!
