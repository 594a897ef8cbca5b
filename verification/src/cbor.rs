//! Blocks in the form of older databases: concise binary object representation.
use crate::block::{BlockView, CompactedBlock};
use crate::{block, hex_codec};
use vstd::prelude::*;

verus! {

/// `serde_cbor::Error`: why `serde_cbor::from_slice` refused bytes.
#[verifier::external_type_specification]
#[verifier::external_body]
pub struct ExCborError(serde_cbor::Error);

/// The block that `serde_cbor::from_slice` reads from bytes, if it reads one.
pub uninterp spec fn cbor_block(bytes: Seq<u8>) -> Option<BlockView>;

/// `serde_cbor::from_slice`, on a pair of the coinbase's identifier and value
/// and of the transactions: what it reads, and whether it reads anything at
/// all, depends on the bytes alone. From no bytes it reads nothing.
#[verifier::external_body]
fn from_slice(bytes: &[u8]) -> (r: Result<CompactedBlock, serde_cbor::Error>)
    ensures
        match r {
            Ok(block) => cbor_block(bytes@) == Some(block@),
            Err(_) => cbor_block(bytes@) is None,
        },
        bytes@.len() == 0 ==> r is Err,
{
    match serde_cbor::from_slice(bytes) {
        Ok(parts) => Ok(CompactedBlock(parts)),
        Err(e) => Err(e),
    }
}

/// The bytes that hexadecimal text stands for, and none for any other text.
pub open spec fn hex_or_nothing(text: Seq<u8>) -> Seq<u8> {
    if hex_codec::is_hex(text) {
        hex_codec::hex_bytes(text)
    } else {
        Seq::empty()
    }
}

impl CompactedBlock {
    /// The block that was read, or the empty block.
    pub fn or_empty(read: Option<CompactedBlock>) -> (block: CompactedBlock)
        ensures
            block@ == match read {
                Some(found) => found@,
                None => block::empty_block(),
            },
    {
        match read {
            Some(found) => found,
            None => CompactedBlock::empty(),
        }
    }

    /// The block that `bytes` hold. They must hold one.
    pub fn from_cbor_bytes(bytes: &[u8]) -> (block: CompactedBlock)
        requires
            cbor_block(bytes@) is Some,
        ensures
            cbor_block(bytes@) == Some(block@),
    {
        match from_slice(bytes) {
            Ok(block) => block,
            Err(_) => CompactedBlock::empty(),
        }
    }

    /// The block that `bytes` hold, if they hold one.
    pub fn try_from_cbor_bytes(bytes: &[u8]) -> (r: Option<CompactedBlock>)
        ensures
            match r {
                Some(block) => cbor_block(bytes@) == Some(block@),
                None => cbor_block(bytes@) is None,
            },
    {
        match from_slice(bytes) {
            Ok(_) => Some(CompactedBlock::from_cbor_bytes(bytes)),
            Err(_) => None,
        }
    }

    /// The block that hexadecimal text holds, or the empty block where the text
    /// is not hexadecimal or holds no block.
    pub fn from_hex_bytes(bytes: &str) -> (block: CompactedBlock)
        ensures
            block@ == match cbor_block(hex_or_nothing(hex_codec::utf8(bytes@))) {
                Some(found) => found,
                None => block::empty_block(),
            },
            !hex_codec::is_hex(hex_codec::utf8(bytes@)) ==> block@ == block::empty_block(),
    {
        let decoded: Vec<u8> = match hex_codec::decode_to_vec(bytes) {
            Ok(decoded) => decoded,
            Err(_) => Vec::new(),
        };
        assert(decoded@ =~= hex_or_nothing(hex_codec::utf8(bytes@)));
        let read = match from_slice(decoded.as_slice()) {
            Ok(block) => Some(block),
            Err(_) => None,
        };
        CompactedBlock::or_empty(read)
    }
}

/// Hexadecimal text stands for its bytes, and any other text for none.
pub proof fn law_hex_or_nothing(text: Seq<u8>)
    ensures
        hex_codec::is_hex(text) ==> hex_or_nothing(text) == hex_codec::hex_bytes(text),
        !hex_codec::is_hex(text) ==> hex_or_nothing(text).len() == 0,
{
}

} // verus!
