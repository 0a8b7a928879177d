//! Weights of the parts every transaction is made of.
use vstd::prelude::*;

verus! {

/// Weight of the transaction fields whose size is fixed: version and lock time.
pub const TX_FIXED_FIELD_WEIGHT: u64 = (4 + 4) * 4;

/// Weight of a transaction input without its satisfaction: outpoint, sequence and the length of an
/// empty script signature.
pub const TXIN_BASE_WEIGHT: u64 = (32 + 4 + 4 + 1) * 4;

/// Weight of satisfying a taproot output by a key spend: the witness item count, the item length
/// and the signature.
pub const TR_KEYSPEND_SATISFACTION_WEIGHT: u64 = 66;

/// Weight of a transaction input that spends a taproot output by its key.
pub const TR_KEYSPEND_TXIN_WEIGHT: u64 = TXIN_BASE_WEIGHT + TR_KEYSPEND_SATISFACTION_WEIGHT;

/// Weight of a transaction output with an empty script: its value and the script length.
pub const TXOUT_BASE_WEIGHT: u64 = 4 * (8 + 1);

/// Weight of a taproot script pubkey.
pub const TR_SPK_WEIGHT: u64 = (1 + 1 + 32) * 4;

/// Bytes that a count takes in Bitcoin's variable-length integer encoding.
pub open spec fn varint_bytes(v: int) -> int {
    if v <= 0xfc {
        1
    } else if v <= 0xffff {
        3
    } else if v <= 0xffff_ffff {
        5
    } else {
        9
    }
}

/// The bytes that `v` takes in Bitcoin's variable-length integer encoding.
pub fn varint_size(v: usize) -> (size: u64)
    ensures
        size == varint_bytes(v as int),
{
    let v: u64 = v as u64;
    if v <= 0xfc {
        1
    } else if v <= 0xffff {
        3
    } else if v <= 0xffff_ffff {
        5
    } else {
        9
    }
}

} // verus!
