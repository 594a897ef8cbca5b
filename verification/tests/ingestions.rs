//! Ingesting blocks that come out of order.
use chainhook_hord::block::CompactedBlock;
use chainhook_hord::block_source::{
    BitcoinBlockFullBreakdown, BitcoinTransactionFullBreakdown,
    BitcoinTransactionOutputFullBreakdown,
};
use chainhook_hord::blocks_db::{block_key, BlocksDbWrite};
use chainhook_hord::ingestion::{
    compress_block, is_waited_for, BlockIngestion, IngestionAction,
};

/// Ingests blocks named by their heights, and says what was processed, how
/// often the database was flushed, and whether the ingestion was complete.
fn ingest(start: u64, end: u64, arrivals: &[u64]) -> (Vec<u64>, usize, bool) {
    let mut ingestion = BlockIngestion::<u64>::try_new(start, end).unwrap();
    let mut processed = vec![];
    let mut flushes = 0;
    for height in arrivals.iter() {
        assert!(ingestion.is_receiving());
        let writes = ingestion.receive(*height as u32, &CompactedBlock::empty(), *height, *height);
        assert_eq!(writes.len(), 2);
        match &writes[0] {
            BlocksDbWrite::Put { key, .. } => assert_eq!(key, &block_key(*height as u32)),
            other => panic!("{:?}", other),
        }
        loop {
            match ingestion.next_action() {
                IngestionAction::Process(block) => processed.push(block),
                IngestionAction::Complete => return (processed, flushes, true),
                IngestionAction::Flush => {
                    flushes += 1;
                    break;
                }
                IngestionAction::Receive => break,
            }
        }
    }
    (processed, flushes, false)
}

#[test]
fn blocks_are_processed_in_order() {
    let expected: Vec<u64> = (800_000..=800_004).collect();
    for arrivals in [
        [800_000, 800_001, 800_002, 800_003, 800_004],
        [800_004, 800_003, 800_002, 800_001, 800_000],
        [800_002, 800_000, 800_004, 800_001, 800_003],
    ] {
        assert_eq!(ingest(800_000, 800_004, &arrivals), (expected.clone(), 0, true));
    }
    // What waits for a block that has not come is kept back.
    assert_eq!(ingest(800_000, 800_004, &[800_001, 800_000, 800_003]), (vec![800_000, 800_001], 0, false));
}

#[test]
fn low_starts_process_nothing() {
    assert_eq!(ingest(765_000, 765_002, &[765_000, 765_001, 765_002]), (vec![], 0, true));
    assert_eq!(ingest(1, 2, &[1, 2]), (vec![], 0, true));
    // The first height that is looked at is the one after.
    assert_eq!(ingest(765_001, 765_002, &[765_001, 765_002]), (vec![765_001, 765_002], 0, true));
}

#[test]
fn open_starts_take_the_first_block() {
    assert_eq!(ingest(0, 10, &[5, 800_001, 800_000, 800_002]), (vec![800_001, 800_002], 0, false));
}

#[test]
fn insertions_are_flushed() {
    let arrivals: Vec<u64> = (1..=10_001).collect();
    assert_eq!(ingest(1, 20_000, &arrivals[..4_999]), (vec![], 0, false));
    assert_eq!(ingest(1, 20_000, &arrivals[..5_000]), (vec![], 1, false));
    assert_eq!(ingest(1, 20_000, &arrivals), (vec![], 2, false));
    // Completion comes before flushing.
    assert_eq!(ingest(1, 5_000, &arrivals[..5_000]), (vec![], 0, true));
}

#[test]
fn ranges_that_cannot_be_ingested() {
    assert!(BlockIngestion::<u64>::try_new(5, 4).is_none());
    assert!(BlockIngestion::<u64>::try_new(0, u64::MAX).is_none());
    assert!(BlockIngestion::<u64>::try_new(1, u64::MAX).is_some());
    let mut ingestion = BlockIngestion::<u64>::try_new(5, 5).unwrap();
    assert!(ingestion.is_receiving());
    assert!(matches!(ingestion.next_action(), IngestionAction::Receive));
    ingestion.receive(5, &CompactedBlock::empty(), 5, 5);
    assert!(!ingestion.is_receiving());
    assert!(matches!(ingestion.next_action(), IngestionAction::Complete));
    assert!(!ingestion.is_receiving());
}

#[test]
fn high_blocks_are_waited_for() {
    assert!(!is_waited_for(764_999));
    assert!(is_waited_for(765_000));
}

#[test]
fn downloaded_blocks_are_compressed() {
    let block = BitcoinBlockFullBreakdown {
        height: 0x1_0000_0003,
        tx: vec![BitcoinTransactionFullBreakdown {
            txid: "0102030405060708".repeat(4),
            vin: vec![],
            vout: vec![BitcoinTransactionOutputFullBreakdown { value: 4 }],
        }],
    };
    let (height, compacted) = compress_block(&block).unwrap();
    assert_eq!(height, 3);
    assert_eq!(compacted.0, (([1, 2, 3, 4, 5, 6, 7, 8], 4), vec![]));
    assert!(compress_block(&BitcoinBlockFullBreakdown { height: 1, tx: vec![] }).is_none());
}
