//! Blocks that are decoded one transaction at a time.
use chainhook_hord::block::CompactedBlock;
use chainhook_hord::lazy_block::{Cursor, LazyBlock};

fn id(first: u8) -> [u8; 8] {
    [first, 1, 2, 3, 4, 5, 6, 7]
}

/// Two transactions: one with two inputs and one output, one with two outputs.
fn lazy_bytes() -> Vec<u8> {
    let mut bytes = vec![0, 2, 2, 1, 0, 2];
    bytes.extend_from_slice(&id(0xc0));
    bytes.extend_from_slice(&625_000_000u64.to_be_bytes());
    bytes.extend_from_slice(&id(0xa1));
    for (txin, height, vout, value) in [(id(0xb1), 77u32, 3u8, 1000u64), (id(0xb2), 78, 4, 2000)] {
        bytes.extend_from_slice(&txin);
        bytes.extend_from_slice(&height.to_be_bytes());
        bytes.push(vout);
        bytes.extend_from_slice(&value.to_be_bytes());
    }
    bytes.extend_from_slice(&2500u64.to_be_bytes());
    bytes.extend_from_slice(&id(0xa2));
    bytes.extend_from_slice(&5u64.to_be_bytes());
    bytes.extend_from_slice(&6u64.to_be_bytes());
    bytes
}

#[test]
fn header_fields() {
    let block = LazyBlock::new(lazy_bytes());
    assert_eq!(block.tx_len, 2);
    assert_eq!(block.get_coinbase_data_pos(), 6);
    assert_eq!(block.get_coinbase_txid(), &id(0xc0)[..]);
    assert_eq!(block.get_coinbase_sats(), 625_000_000);
    assert_eq!(block.get_u64_at_pos(14), 625_000_000);
    assert_eq!(block.get_transactions_data_pos(), 22);
    assert_eq!(block.get_transaction_format(0), (2, 1, 8 + 42 + 8));
    assert_eq!(block.get_transaction_format(1), (0, 2, 8 + 16));
}

#[test]
fn transaction_at_a_position() {
    let bytes = lazy_bytes();
    let block = LazyBlock::new(bytes.clone());
    let mut cursor = Cursor::new(&bytes);
    cursor.set_position(30);
    let tx = block.get_lazy_transaction_at_pos(&mut cursor, id(0xa1), 2, 1);
    assert_eq!(tx.txid, id(0xa1));
    assert_eq!(tx.inputs.len(), 2);
    assert_eq!(tx.inputs[0].txin, id(0xb1));
    assert_eq!(tx.inputs[0].block_height, 77);
    assert_eq!(tx.inputs[0].vout, 3);
    assert_eq!(tx.inputs[0].txin_value, 1000);
    assert_eq!(tx.inputs[1].txin_value, 2000);
    assert_eq!(tx.outputs, vec![2500]);
    assert_eq!(cursor.position, 80);
}

#[test]
fn search_finds_the_first_with_the_identifier() {
    let block = LazyBlock::new(lazy_bytes());
    assert!(block.is_search_readable(&id(0xa2)));
    let tx = block.find_and_serialize_transaction_with_txid(&id(0xa2)).unwrap();
    assert_eq!(tx.outputs, vec![5, 6]);
    let tx = block.find_and_serialize_transaction_with_txid(&id(0xa1)).unwrap();
    assert_eq!(tx.inputs.len(), 2);
    assert!(block.find_and_serialize_transaction_with_txid(&id(0xa3)).is_none());
    assert!(block.find_and_serialize_transaction_with_txid(&[1, 2]).is_none());

    // Two transactions with one identifier: the first wins.
    let twins = CompactedBlock(((id(0), 1), vec![(id(9), vec![], vec![11]), (id(9), vec![], vec![12])]));
    let mut bytes = vec![];
    twins.serialize_to_lazy_format(&mut bytes);
    let block = LazyBlock::new(bytes);
    let tx = block.find_and_serialize_transaction_with_txid(&id(9)).unwrap();
    assert_eq!(tx.outputs, vec![11]);
}

#[test]
fn search_looks_at_one_transaction_even_where_there_is_none() {
    // No transactions, but bytes where the first one would stand.
    let mut bytes = vec![0, 0];
    bytes.extend_from_slice(&[1, 1, 0, 0, 0, 0, 0, 0]);
    bytes.extend_from_slice(&[0; 8]);
    bytes.extend_from_slice(&id(0xdd));
    bytes.extend_from_slice(&[0; 29]);
    let block = LazyBlock::new(bytes);
    assert!(block.is_search_readable(&id(0xdd)));
    let tx = block.find_and_serialize_transaction_with_txid(&id(0xdd)).unwrap();
    assert_eq!((tx.inputs.len(), tx.outputs.len()), (1, 1));
    assert!(block.iter_tx().next().is_none());
}

#[test]
fn search_in_a_block_cut_short() {
    let mut bytes = lazy_bytes();
    bytes.truncate(40);
    let block = LazyBlock::new(bytes);
    assert!(!block.is_search_readable(&id(0xa1)));
    // Where an identifier is missing, zeros are read.
    assert!(!block.is_search_readable(&[0; 8]));
    assert!(block.is_search_readable(&id(0xa9)));
    assert!(block.find_and_serialize_transaction_with_txid(&id(0xa9)).is_none());
    assert!(!LazyBlock::new(vec![0, 2, 1]).is_search_readable(&id(1)));
}

#[test]
fn walk_over_the_transactions() {
    let block = LazyBlock::new(lazy_bytes());
    let mut iter = block.iter_tx();
    assert!(iter.has_readable_next());
    let first = iter.next().unwrap();
    assert_eq!(first.txid, id(0xa1));
    assert_eq!(first.outputs, vec![2500]);
    let second = iter.next().unwrap();
    assert_eq!(second.txid, id(0xa2));
    assert_eq!(second.outputs, vec![5, 6]);
    assert!(!iter.has_readable_next());
    assert!(iter.next().is_none());
    assert!(iter.next().is_none());
}

#[test]
fn blocks_without_inputs_read_back_from_the_lazy_form() {
    let block = CompactedBlock((
        (id(0xc1), 50),
        vec![(id(1), vec![], vec![3, 4]), (id(2), vec![], vec![]), (id(3), vec![], vec![9])],
    ));
    let mut bytes = vec![];
    block.serialize_to_lazy_format(&mut bytes);
    let lazy = LazyBlock::new(bytes);
    assert_eq!(lazy.tx_len, 3);
    assert_eq!(lazy.get_coinbase_txid(), &id(0xc1)[..]);
    assert_eq!(lazy.get_coinbase_sats(), 50);
    let mut iter = lazy.iter_tx();
    for (txid, _, outputs) in block.0 .1.iter() {
        let tx = iter.next().unwrap();
        assert_eq!(&tx.txid, txid);
        assert!(tx.inputs.is_empty());
        assert_eq!(&tx.outputs, outputs);
    }
    assert!(iter.next().is_none());
}

#[test]
fn an_input_takes_one_byte_more_than_is_read() {
    // The output index is written in two bytes and read from one.
    let block = CompactedBlock(((id(0xc1), 50), vec![(id(1), vec![(id(2), 5, 0x0304, 7)], vec![8])]));
    let mut bytes = vec![];
    block.serialize_to_lazy_format(&mut bytes);
    assert_eq!(bytes.len(), 2 + 2 + 16 + 8 + 22 + 8);
    let lazy = LazyBlock::new(bytes);
    assert_eq!(lazy.get_transaction_format(0), (1, 1, 8 + 21 + 8));
    let tx = lazy.iter_tx().next().unwrap();
    assert_eq!(tx.txid, id(1));
    assert_eq!(tx.inputs[0].txin, id(2));
    assert_eq!(tx.inputs[0].block_height, 5);
    assert_eq!(tx.inputs[0].vout, 3);
    assert_eq!(tx.inputs[0].txin_value, 0x0400_0000_0000_0000);
    assert_eq!(tx.outputs, vec![0x0700_0000_0000_0000]);
}
