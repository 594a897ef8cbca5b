//! Compacted blocks, their stored forms, and the sources they are made from.
use chainhook_hord::block::CompactedBlock;
use chainhook_hord::block_format::BlockParseError;
use chainhook_hord::block_source::{
    BitcoinBlockData, BitcoinBlockFullBreakdown, BitcoinTransactionData,
    BitcoinTransactionFullBreakdown, BitcoinTransactionInputFullBreakdown,
    BitcoinTransactionInputPrevoutFullBreakdown, BitcoinTransactionMetadata,
    BitcoinTransactionOutputFullBreakdown, OutPoint, TxIn, TxOut,
};
use chainhook_hord::hex_codec::{parse_prefixed_txid, parse_txid};
use chainhook_hord::traversal::TransactionIdentifier;

fn id(first: u8) -> [u8; 8] {
    [first, 0, 0, 0, 0, 0, 0, 0xff]
}

fn hash(first: u8) -> String {
    format!("{:02x}000000000000ff{}", first, "ab".repeat(24))
}

fn sample_block() -> CompactedBlock {
    CompactedBlock((
        (id(1), 5_000_000_000),
        vec![
            (id(2), vec![(id(3), 7, 300, 40), (id(4), 8, 0, 2)], vec![10, 32]),
            (id(5), vec![], vec![]),
        ],
    ))
}

#[test]
fn empty_block_holds_nothing() {
    assert_eq!(CompactedBlock::empty().0, (([0u8; 8], 0u64), vec![]));
}

#[test]
fn block_has_the_documented_layout() {
    let block = CompactedBlock(((id(1), 0x0102), vec![(id(2), vec![(id(3), 4, 5, 6)], vec![7])]));
    let mut bytes = vec![0xee];
    block.serialize(&mut bytes);
    let mut expected = vec![0xee];
    expected.extend_from_slice(&id(1));
    expected.extend_from_slice(&[0, 0, 0, 0, 0, 0, 1, 2]);
    expected.extend_from_slice(&[0, 0, 0, 0, 0, 0, 0, 1]);
    expected.extend_from_slice(&id(2));
    expected.extend_from_slice(&[0, 0, 0, 0, 0, 0, 0, 1]);
    expected.extend_from_slice(&id(3));
    expected.extend_from_slice(&[0, 0, 0, 4, 0, 5]);
    expected.extend_from_slice(&[0, 0, 0, 0, 0, 0, 0, 6]);
    expected.extend_from_slice(&[0, 0, 0, 0, 0, 0, 0, 1]);
    expected.extend_from_slice(&[0, 0, 0, 0, 0, 0, 0, 7]);
    assert_eq!(bytes, expected);
}

#[test]
fn stored_block_reads_back() {
    let block = sample_block();
    let mut bytes = vec![];
    block.serialize(&mut bytes);
    assert_eq!(CompactedBlock::deserialize(&bytes).unwrap().0, block.0);
    bytes.extend_from_slice(&[1, 2, 3]);
    assert_eq!(CompactedBlock::try_deserialize(&bytes).unwrap().0, block.0);
}

#[test]
fn read_bytes_write_back() {
    let mut bytes = vec![];
    sample_block().serialize(&mut bytes);
    let read = CompactedBlock::try_deserialize(&bytes).unwrap();
    let mut again = vec![];
    read.serialize(&mut again);
    assert_eq!(bytes, again);
}

#[test]
fn truncated_blocks_are_refused() {
    let mut bytes = vec![];
    sample_block().serialize(&mut bytes);
    for len in 0..bytes.len() {
        assert!(CompactedBlock::try_deserialize(&bytes[..len]).is_err());
    }
    // Cut inside the coinbase, inside a count, inside a value.
    assert!(matches!(
        CompactedBlock::try_deserialize(&bytes[..15]),
        Err(BlockParseError::UnexpectedEof)
    ));
    assert!(matches!(
        CompactedBlock::try_deserialize(&bytes[..23]),
        Err(BlockParseError::CorruptedLength)
    ));
    assert!(matches!(
        CompactedBlock::try_deserialize(&bytes[..33]),
        Err(BlockParseError::CorruptedLength)
    ));
    assert!(matches!(
        CompactedBlock::deserialize(&bytes[..41]),
        Err(BlockParseError::UnexpectedEof)
    ));
}

#[test]
fn hexadecimal_identifiers() {
    assert_eq!(parse_txid(&hash(0xA1)), Some(id(0xa1)));
    assert_eq!(parse_txid("00112233445566FF"), Some([0, 0x11, 0x22, 0x33, 0x44, 0x55, 0x66, 0xff]));
    assert_eq!(parse_txid("00112233445566"), None);
    assert_eq!(parse_txid("00112233445566f"), None);
    assert_eq!(parse_txid("001122334455667g"), None);
    assert_eq!(parse_prefixed_txid(&format!("0x{}", hash(7))), Some(id(7)));
    assert_eq!(parse_prefixed_txid("0x"), None);
    assert_eq!(parse_prefixed_txid("0"), None);
    // The two bytes in front may be any characters that end there.
    assert_eq!(parse_prefixed_txid(&format!("\u{e9}{}", hash(7))), Some(id(7)));
    assert_eq!(parse_prefixed_txid(&format!("\u{20ac}{}", hash(7))), None);
}

fn full_tx(txid: u8, vin: Vec<BitcoinTransactionInputFullBreakdown>, values: &[u64]) -> BitcoinTransactionFullBreakdown {
    BitcoinTransactionFullBreakdown {
        txid: hash(txid),
        vin,
        vout: values
            .iter()
            .map(|value| BitcoinTransactionOutputFullBreakdown { value: *value })
            .collect(),
    }
}

fn full_in(txid: u8, vout: u32, height: u64, value: u64) -> BitcoinTransactionInputFullBreakdown {
    BitcoinTransactionInputFullBreakdown {
        txid: Some(hash(txid)),
        vout: Some(vout),
        prevout: Some(BitcoinTransactionInputPrevoutFullBreakdown { height, value }),
    }
}

fn coinbase_in() -> BitcoinTransactionInputFullBreakdown {
    BitcoinTransactionInputFullBreakdown { txid: None, vout: None, prevout: None }
}

fn full_block() -> BitcoinBlockFullBreakdown {
    BitcoinBlockFullBreakdown {
        height: 9,
        tx: vec![
            full_tx(1, vec![coinbase_in()], &[30, 12]),
            full_tx(2, vec![full_in(3, 0x1_0005, 0x1_0000_0007, 50)], &[20, 25]),
        ],
    }
}

fn standardized_tx(txid: u8, inputs: Vec<TxIn>, values: &[u64]) -> BitcoinTransactionData {
    BitcoinTransactionData {
        transaction_identifier: TransactionIdentifier { hash: format!("0x{}", hash(txid)) },
        metadata: BitcoinTransactionMetadata {
            inputs,
            outputs: values.iter().map(|value| TxOut { value: *value }).collect(),
        },
    }
}

fn standardized_block() -> BitcoinBlockData {
    BitcoinBlockData {
        transactions: vec![
            standardized_tx(1, vec![], &[30, 12]),
            standardized_tx(
                2,
                vec![TxIn {
                    previous_output: OutPoint {
                        txid: format!("0x{}", hash(3)),
                        vout: 0x1_0005,
                        value: 50,
                        block_height: 0x1_0000_0007,
                    },
                }],
                &[20, 25],
            ),
        ],
    }
}

#[test]
fn full_block_is_compacted() {
    let block = CompactedBlock::from_full_block(&full_block());
    // Heights keep 32 bits, output indexes 16.
    assert_eq!(block.0, ((id(1), 42), vec![(id(2), vec![(id(3), 7, 5, 50)], vec![20, 25])]));
}

#[test]
fn standardized_block_is_compacted() {
    let block = CompactedBlock::from_standardized_block(&standardized_block());
    assert_eq!(block.0, ((id(1), 42), vec![(id(2), vec![(id(3), 7, 5, 50)], vec![20, 25])]));
}

#[test]
fn both_forms_of_a_block_agree() {
    assert_eq!(
        CompactedBlock::from_full_block(&full_block()).0,
        CompactedBlock::from_standardized_block(&standardized_block()).0
    );
}

#[test]
fn blocks_without_a_compacted_form() {
    let none = BitcoinBlockFullBreakdown { height: 1, tx: vec![] };
    assert!(CompactedBlock::try_from_full_block(&none).is_none());
    let mut overflowing = full_block();
    overflowing.tx[0] = full_tx(1, vec![], &[u64::MAX, 1]);
    assert!(CompactedBlock::try_from_full_block(&overflowing).is_none());
    let mut unspent = full_block();
    unspent.tx[1].vin.push(coinbase_in());
    assert!(CompactedBlock::try_from_full_block(&unspent).is_none());
    let mut unnamed = full_block();
    unnamed.tx[1].txid = String::from("xyz");
    assert!(CompactedBlock::try_from_full_block(&unnamed).is_none());

    let none = BitcoinBlockData { transactions: vec![] };
    assert!(CompactedBlock::try_from_standardized_block(&none).is_none());
    let mut unprefixed = standardized_block();
    unprefixed.transactions[0].transaction_identifier.hash = String::from("0");
    assert!(CompactedBlock::try_from_standardized_block(&unprefixed).is_none());
    let mut unnamed = standardized_block();
    unnamed.transactions[1].metadata.inputs[0].previous_output.txid = hash(3)[..15].to_string();
    assert!(CompactedBlock::try_from_standardized_block(&unnamed).is_none());
}

#[test]
fn cbor_blocks_are_read() {
    let block = sample_block();
    let bytes = serde_cbor::to_vec(&block.0).unwrap();
    assert_eq!(CompactedBlock::try_from_cbor_bytes(&bytes).unwrap().0, block.0);
    assert_eq!(CompactedBlock::from_cbor_bytes(&bytes).0, block.0);
    assert!(CompactedBlock::try_from_cbor_bytes(&bytes[..bytes.len() - 1]).is_none());
    assert!(CompactedBlock::try_from_cbor_bytes(&[]).is_none());
}

#[test]
fn cbor_layout_is_nested_arrays() {
    let mut bytes = vec![0x82, 0x82, 0x88, 1, 2, 3, 4, 5, 6, 7, 8, 0x18, 0x64, 0x81, 0x83, 0x88];
    bytes.extend_from_slice(&[9, 9, 9, 9, 9, 9, 9, 9, 0x80, 0x81, 0x0a]);
    let block = CompactedBlock::try_from_cbor_bytes(&bytes).unwrap();
    assert_eq!(block.0, (([1, 2, 3, 4, 5, 6, 7, 8], 100), vec![([9; 8], vec![], vec![10])]));
}

#[test]
fn hexadecimal_cbor_blocks_are_read() {
    let block = sample_block();
    let text = hex::encode(serde_cbor::to_vec(&block.0).unwrap());
    assert_eq!(CompactedBlock::from_hex_bytes(&text).0, block.0);
    assert_eq!(CompactedBlock::from_hex_bytes(&text.to_uppercase()).0, block.0);
}

#[test]
fn unreadable_hexadecimal_gives_the_empty_block() {
    let empty = CompactedBlock::empty();
    assert_eq!(CompactedBlock::from_hex_bytes("zz").0, empty.0);
    assert_eq!(CompactedBlock::from_hex_bytes("abc").0, empty.0);
    assert_eq!(CompactedBlock::from_hex_bytes("").0, empty.0);
    assert_eq!(CompactedBlock::from_hex_bytes("00").0, empty.0);
    assert_eq!(CompactedBlock::or_empty(None).0, empty.0);
    assert_eq!(CompactedBlock::or_empty(Some(sample_block())).0, sample_block().0);
}
