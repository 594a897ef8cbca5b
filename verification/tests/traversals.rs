//! Tracing satoshis back to a coinbase.
use chainhook_hord::block::CompactedBlock;
use chainhook_hord::lazy_block::LazyBlock;
use chainhook_hord::traversal::{
    retrieve_satoshi_point_using_lazy_storage, retrieve_satoshi_point_using_local_storage,
    BlockIdentifier, SatoshiPointTraversal, TransactionIdentifier, TraversalProgress,
    TraversalResult,
};
use std::collections::HashMap;

fn id(first: u8) -> [u8; 8] {
    [first, 0, 0, 0, 0, 0, 0, 0]
}

fn start(block: u64, txid: u8, inscription_number: u64) -> SatoshiPointTraversal {
    SatoshiPointTraversal::try_new(
        &BlockIdentifier { index: block, hash: String::from("0xabc") },
        &TransactionIdentifier { hash: format!("0x{:02x}00000000000000ffff", txid) },
        inscription_number,
    )
    .unwrap()
}

/// Blocks 10, 20 and 30: a coinbase of block 10 is spent in block 20, and the
/// second output there in block 30.
fn chain() -> HashMap<u32, CompactedBlock> {
    let mut blocks = HashMap::new();
    blocks.insert(10, CompactedBlock(((id(0x10), 5_000_000_000), vec![])));
    blocks.insert(
        20,
        CompactedBlock((
            (id(0x20), 5_000_000_000),
            vec![
                (id(0x99), vec![], vec![1]),
                (id(0x21), vec![(id(0x10), 10, 0, 5_000_000_000)], vec![10, 4_999_999_990]),
            ],
        )),
    );
    blocks.insert(
        30,
        CompactedBlock((
            (id(0x30), 5_000_000_000),
            vec![(id(0x31), vec![(id(0x21), 20, 1, 4_999_999_990)], vec![4_999_999_990])],
        )),
    );
    blocks
}

fn trace(
    traversal: &mut SatoshiPointTraversal,
    blocks: &HashMap<u32, CompactedBlock>,
) -> Result<TraversalResult, String> {
    loop {
        let block = blocks.get(&traversal.ordinal_block_number);
        if let Some(result) = retrieve_satoshi_point_using_local_storage(traversal, block)? {
            return Ok(result);
        }
    }
}

fn stored_lazily(block: &CompactedBlock) -> LazyBlock {
    let txs = &block.0 .1;
    let mut bytes = (txs.len() as u16).to_be_bytes().to_vec();
    for (_, inputs, outputs) in txs.iter() {
        bytes.push(inputs.len() as u8);
        bytes.push(outputs.len() as u8);
    }
    bytes.extend_from_slice(&block.0 .0 .0);
    bytes.extend_from_slice(&block.0 .0 .1.to_be_bytes());
    for (txid, inputs, outputs) in txs.iter() {
        bytes.extend_from_slice(txid);
        for (txin, height, vout, value) in inputs.iter() {
            bytes.extend_from_slice(txin);
            bytes.extend_from_slice(&height.to_be_bytes());
            bytes.push(*vout as u8);
            bytes.extend_from_slice(&value.to_be_bytes());
        }
        for value in outputs.iter() {
            bytes.extend_from_slice(&value.to_be_bytes());
        }
    }
    LazyBlock::new(bytes)
}

#[test]
fn a_traversal_starts_at_the_first_satoshi() {
    let traversal = start(0x1_0000_0005, 0xab, 3);
    assert_eq!(traversal.ordinal_offset, 0);
    assert_eq!(traversal.ordinal_block_number, 5);
    assert_eq!(traversal.txid, id(0xab));
    assert_eq!(traversal.vout, 0);
    assert_eq!(traversal.hops, 0);
    assert_eq!(traversal.inscription_number, 3);
    for hash in ["", "0x", "0xzz00000000000000", "0x00"] {
        assert!(SatoshiPointTraversal::try_new(
            &BlockIdentifier { index: 1, hash: String::new() },
            &TransactionIdentifier { hash: hash.to_string() },
            0
        )
        .is_none());
    }
}

#[test]
fn a_satoshi_is_traced_through_stored_blocks() {
    let result = trace(&mut start(30, 0x31, 42), &chain()).unwrap();
    assert_eq!(result.ordinal_number, 50_000_000_010);
    assert_eq!(result.transfers, 3);
    assert_eq!(result.inscription_number, 42);
    assert_eq!(result.get_ordinal_coinbase_height(), 10);
    assert_eq!(result.get_ordinal_coinbase_offset(), 10);
}

#[test]
fn a_satoshi_is_traced_through_lazy_blocks() {
    let blocks: HashMap<u32, LazyBlock> =
        chain().iter().map(|(height, block)| (*height, stored_lazily(block))).collect();
    let mut traversal = start(30, 0x31, 42);
    let result = loop {
        let block = blocks.get(&traversal.ordinal_block_number);
        if let Some(result) =
            retrieve_satoshi_point_using_lazy_storage(&mut traversal, block).unwrap()
        {
            break result;
        }
    };
    assert_eq!(result.ordinal_number, 50_000_000_010);
    assert_eq!(result.transfers, 3);
}

#[test]
fn a_missing_block_is_named() {
    let mut blocks = chain();
    blocks.remove(&20);
    let message = trace(&mut start(30, 0x31, 0), &blocks).unwrap_err();
    assert_eq!(message, "block #20 not in database");
    let mut traversal = start(4_294_967_295, 1, 0);
    let message = retrieve_satoshi_point_using_lazy_storage(&mut traversal, None).unwrap_err();
    assert_eq!(message, "block #4294967295 not in database");
    let mut traversal = start(0, 1, 0);
    let message = retrieve_satoshi_point_using_local_storage(&mut traversal, None).unwrap_err();
    assert_eq!(message, "block #0 not in database");
}

#[test]
fn inputs_fill_outputs_in_order() {
    let block = CompactedBlock((
        (id(0), 0),
        vec![(
            id(7),
            vec![(id(1), 11, 4, 100), (id(2), 12, 5, 50), (id(3), 13, 6, 1)],
            vec![60, 30, 40],
        )],
    ));
    // 60 + 30 + 9 = 99 lies in the first input, 100 at the front of the second.
    for (vout, offset, txid, height, expected) in [
        (0usize, 59u64, 1u8, 11u32, 59u64),
        (2, 9, 1, 11, 99),
        (2, 10, 2, 12, 0),
        (2, 39, 2, 12, 29),
    ] {
        let mut traversal = start(1, 7, 0);
        traversal.vout = vout;
        traversal.ordinal_offset = offset;
        match traversal.step(&block) {
            Some(TraversalProgress::Moved(next)) => {
                assert_eq!(next.txid, id(txid));
                assert_eq!(next.ordinal_block_number, height);
                assert_eq!(next.ordinal_offset, expected);
                assert_eq!(next.vout, txid as usize + 3);
                assert_eq!(next.hops, 1);
            }
            other => panic!("{:?}", other),
        }
    }
}

#[test]
fn a_satoshi_beyond_the_inputs_stays() {
    let block = CompactedBlock(((id(0), 0), vec![(id(7), vec![(id(1), 11, 4, 100)], vec![60, 60])]));
    let mut traversal = start(1, 7, 0);
    traversal.vout = 9;
    match traversal.step(&block) {
        Some(TraversalProgress::Moved(next)) => {
            assert_eq!((next.txid, next.vout, next.ordinal_offset), (id(7), 9, 0));
            assert_eq!(next.hops, 1);
        }
        other => panic!("{:?}", other),
    }
}

#[test]
fn transactions_that_share_an_identifier_are_gone_through_in_turn() {
    let block = CompactedBlock((
        (id(0), 0),
        vec![
            (id(7), vec![(id(1), 11, 1, 100)], vec![20, 80]),
            (id(7), vec![(id(2), 12, 0, 10), (id(3), 13, 0, 90)], vec![5, 95]),
        ],
    ));
    // The first gives output 1 of its source, offset 3; the second reads that
    // as 5 + 3 satoshis into its own inputs.
    let mut traversal = start(1, 7, 0);
    traversal.ordinal_offset = 3;
    match traversal.step(&block) {
        Some(TraversalProgress::Moved(next)) => {
            assert_eq!((next.txid, next.ordinal_block_number), (id(2), 12));
            assert_eq!(next.ordinal_offset, 8);
        }
        other => panic!("{:?}", other),
    }
}

fn fee_block() -> CompactedBlock {
    CompactedBlock((
        (id(7), 100),
        vec![
            (id(1), vec![(id(11), 1, 0, 50)], vec![47]),
            (id(2), vec![(id(12), 2, 3, 20), (id(13), 3, 4, 30)], vec![40, 6]),
        ],
    ))
}

#[test]
fn fees_lead_to_their_payer() {
    for (offset, txid, expected) in [(100u64, 11u8, 47u64), (102, 11, 47), (103, 13, 26), (106, 13, 26)] {
        let mut traversal = start(1, 7, 0);
        traversal.ordinal_offset = offset;
        for progress in [traversal.step(&fee_block()), traversal.lazy_step(&stored_lazily(&fee_block()))] {
            match progress {
                Some(TraversalProgress::Moved(next)) => {
                    assert_eq!(next.txid, id(txid));
                    assert_eq!(next.ordinal_offset, expected);
                }
                other => panic!("{:?}", other),
            }
        }
    }
    // Beyond all fees nothing moves.
    let mut traversal = start(1, 7, 0);
    traversal.ordinal_offset = 107;
    match traversal.step(&fee_block()) {
        Some(TraversalProgress::Moved(next)) => {
            assert_eq!((next.txid, next.ordinal_offset, next.hops), (id(7), 107, 1));
        }
        other => panic!("{:?}", other),
    }
}

#[test]
fn sums_that_do_not_fit_end_the_traversal() {
    let wide = CompactedBlock(((id(0), 0), vec![(id(7), vec![(id(1), 1, 0, 5)], vec![u64::MAX, 5])]));
    let mut traversal = start(1, 7, 0);
    traversal.vout = 2;
    assert!(traversal.step(&wide).is_none());
    assert!(traversal.lazy_step(&stored_lazily(&wide)).is_none());
    let creating = CompactedBlock(((id(7), 1), vec![(id(1), vec![(id(2), 1, 0, 5)], vec![6])]));
    let mut traversal = start(1, 7, 0);
    traversal.ordinal_offset = 1;
    assert!(traversal.step(&creating).is_none());
    let mut traversal = start(1, 7, 0);
    traversal.hops = u32::MAX;
    assert!(traversal.step(&fee_block()).is_none());
    assert!(traversal.lazy_step(&stored_lazily(&fee_block())).is_none());
}

#[test]
fn lazy_blocks_that_lack_something_end_the_traversal() {
    let traversal = start(1, 0x55, 0);
    // The transaction is not there: a decoded block lets the traversal stay.
    assert!(traversal.lazy_step(&stored_lazily(&fee_block())).is_none());
    assert!(matches!(traversal.step(&fee_block()), Some(TraversalProgress::Moved(_))));
    // The block is cut inside the coinbase.
    let mut short = stored_lazily(&fee_block());
    short.bytes.truncate(10);
    assert!(start(1, 7, 0).lazy_step(&short).is_none());
    // More transactions than the header can place.
    let crowded = LazyBlock { bytes: vec![0; 70_000], tx_len: 32_767 };
    assert!(traversal.lazy_step(&crowded).is_none());
}

#[test]
fn reaching_a_coinbase_names_the_satoshi() {
    let block = CompactedBlock(((id(7), 10), vec![]));
    let mut traversal = start(210_001, 7, 6);
    traversal.ordinal_offset = 9;
    for progress in [traversal.step(&block), traversal.lazy_step(&stored_lazily(&block))] {
        match progress {
            Some(TraversalProgress::Reached(result)) => {
                assert_eq!(result.ordinal_number, 1_050_002_500_000_009);
                assert_eq!(result.transfers, 1);
                assert_eq!(result.inscription_number, 6);
            }
            other => panic!("{:?}", other),
        }
    }
}
