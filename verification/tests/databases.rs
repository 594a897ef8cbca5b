//! The databases of blocks and of inscriptions.
use chainhook_hord::block::CompactedBlock;
use chainhook_hord::block_format::BlockParseError;
use chainhook_hord::blocks_db::{
    block_key, delete_blocks_in_block_range, find_block_at_block_height, find_last_block_inserted,
    find_lazy_block_at_block_height, insert_entry_in_blocks, last_insert_key,
    remove_entry_from_blocks, try_find_block_at_block_height, BlocksDbWrite,
};
use chainhook_hord::hord_db::{
    create_or_open_readwrite_db, delete_data_in_hord_db, open_existing_readonly_db,
    unable_to_open_blocks_db, DbFileState, DbOpenMode, HORD_BLOCKS_DB_FILE_NAME,
    HORD_DB_FILE_NAME,
};
use chainhook_hord::inscription_queries::{
    all_inscriptions_query, block_at_block_height_sqlite_query, find_all_inscriptions,
    find_block_at_block_height_sqlite, find_inscription_with_id,
    find_inscription_with_ordinal_number, find_inscriptions_at_wached_outpoint,
    find_latest_inscription_block_height, find_latest_inscription_number,
    find_latest_inscription_number_at_block_height, inscription_with_id_query,
    inscription_with_ordinal_number_query, inscriptions_at_wached_outpoint_query,
    latest_inscription_block_height_query, latest_inscription_number_at_block_height_query,
    latest_inscription_number_query, try_find_all_inscriptions, InscriptionOriginRow,
    InscriptionRow,
};
use chainhook_hord::inscriptions::{
    delete_blocks_in_block_range_sqlite, delete_inscriptions_in_block_range, initialize_hord_db,
    patch_inscription_number, remove_entry_from_inscriptions, store_new_inscription,
    try_store_new_inscription, update_transfered_inscription, OrdinalInscriptionRevealData,
    SqlValue, Statement,
};
use chainhook_hord::traversal::BlockIdentifier;
use std::collections::BTreeMap;

fn block(value: u64) -> CompactedBlock {
    CompactedBlock((([1; 8], value), vec![([2; 8], vec![([3; 8], 4, 5, 6)], vec![7, 8])]))
}

fn apply(db: &mut BTreeMap<Vec<u8>, Vec<u8>>, writes: Vec<BlocksDbWrite>) {
    for write in writes.into_iter() {
        match write {
            BlocksDbWrite::Put { key, value } => {
                db.insert(key, value);
            }
            BlocksDbWrite::Delete { key } => {
                db.remove(&key);
            }
        }
    }
}

fn stored(db: &BTreeMap<Vec<u8>, Vec<u8>>, height: u32) -> Option<&[u8]> {
    db.get(&block_key(height)).map(|bytes| bytes.as_slice())
}

fn last(db: &BTreeMap<Vec<u8>, Vec<u8>>) -> u32 {
    find_last_block_inserted(db.get(&last_insert_key()).map(|bytes| bytes.as_slice()))
}

#[test]
fn keys_of_the_blocks_database() {
    assert_eq!(block_key(0x0102_0304), vec![1, 2, 3, 4]);
    assert_eq!(last_insert_key(), b"metadata::last_insert".to_vec());
}

#[test]
fn inserted_blocks_are_found() {
    let mut db = BTreeMap::new();
    assert_eq!(last(&db), 0);
    apply(&mut db, insert_entry_in_blocks(5, &block(50)));
    apply(&mut db, insert_entry_in_blocks(3, &block(30)));
    assert_eq!(last(&db), 3);
    assert_eq!(find_block_at_block_height(stored(&db, 5)).unwrap().0, block(50).0);
    assert_eq!(find_block_at_block_height(stored(&db, 3)).unwrap().0, block(30).0);
    assert!(find_block_at_block_height(stored(&db, 4)).is_none());
    let lazy = find_lazy_block_at_block_height(stored(&db, 5).map(|bytes| bytes.to_vec())).unwrap();
    assert_eq!(lazy.tx_len, 0x0101);
    assert_eq!(lazy.bytes, stored(&db, 5).unwrap());
    assert!(find_lazy_block_at_block_height(None).is_none());
    assert_eq!(db.len(), 3);
}

#[test]
fn entries_that_hold_no_block() {
    assert!(matches!(try_find_block_at_block_height(None), Ok(None)));
    assert!(matches!(
        try_find_block_at_block_height(Some(&[1, 2, 3])),
        Err(BlockParseError::UnexpectedEof)
    ));
    assert!(matches!(
        try_find_block_at_block_height(Some(&[0; 20])),
        Err(BlockParseError::CorruptedLength)
    ));
    assert!(matches!(try_find_block_at_block_height(Some(&[0; 24])), Ok(Some(_))));
    assert_eq!(find_last_block_inserted(Some(&[0, 0, 1, 2, 9])), 258);
}

#[test]
fn removed_ranges_are_gone() {
    let mut db = BTreeMap::new();
    for height in 1..=6 {
        apply(&mut db, insert_entry_in_blocks(height, &block(height as u64)));
    }
    apply(&mut db, delete_blocks_in_block_range(3, 5));
    for height in 1..=6 {
        assert_eq!(stored(&db, height).is_some(), !(3..=5).contains(&height));
    }
    assert_eq!(last(&db), 2);
    apply(&mut db, vec![remove_entry_from_blocks(6)]);
    assert!(stored(&db, 6).is_none());
    assert_eq!(last(&db), 2);
    // A range without blocks still moves the last insertion.
    apply(&mut db, delete_blocks_in_block_range(2, 1));
    assert!(stored(&db, 2).is_some());
    assert_eq!(last(&db), 1);
    assert_eq!(delete_blocks_in_block_range(u32::MAX, u32::MAX).len(), 2);
}

#[test]
fn removal_undoes_insertion() {
    let mut db = BTreeMap::new();
    apply(&mut db, insert_entry_in_blocks(1, &block(1)));
    let before = db.clone();
    apply(&mut db, insert_entry_in_blocks(2, &block(2)));
    apply(&mut db, vec![remove_entry_from_blocks(2)]);
    assert_eq!(stored(&db, 1), stored(&before, 1));
    assert_eq!(stored(&db, 2), None);
}

#[test]
fn data_is_deleted_from_both_databases() {
    let deletion = delete_data_in_hord_db(0x1_0000_0002, 3);
    let mut db = BTreeMap::new();
    for height in 1..=4 {
        apply(&mut db, insert_entry_in_blocks(height, &block(1)));
    }
    apply(&mut db, deletion.blocks);
    assert_eq!(last(&db), 1);
    assert!(stored(&db, 1).is_some() && stored(&db, 4).is_some());
    assert!(stored(&db, 2).is_none() && stored(&db, 3).is_none());
    assert_eq!(deletion.inscriptions.sql, delete_inscriptions_in_block_range(2, 3).sql);
    assert_eq!(params(&deletion.inscriptions), vec!["2", "3"]);
}

#[test]
fn opening_the_databases() {
    assert_eq!(HORD_DB_FILE_NAME, "hord.sqlite");
    assert_eq!(HORD_BLOCKS_DB_FILE_NAME, "hord.rocksdb");
    assert!(matches!(
        create_or_open_readwrite_db(DbFileState::Present, "p"),
        Ok(DbOpenMode::ReadWrite)
    ));
    assert!(matches!(
        create_or_open_readwrite_db(DbFileState::Absent, "p"),
        Ok(DbOpenMode::ReadWriteCreate)
    ));
    assert_eq!(
        create_or_open_readwrite_db(DbFileState::Unknown, "a/b").unwrap_err(),
        "FATAL: could not stat a/b"
    );
    assert!(matches!(
        open_existing_readonly_db(DbFileState::Present, "p"),
        Ok(DbOpenMode::ReadOnly)
    ));
    assert_eq!(
        open_existing_readonly_db(DbFileState::Absent, "a/b").unwrap_err(),
        "FATAL: could not find a/b"
    );
    assert_eq!(
        open_existing_readonly_db(DbFileState::Unknown, "a/b").unwrap_err(),
        "FATAL: could not stat a/b"
    );
    assert_eq!(unable_to_open_blocks_db("no disk"), "unable to open blocks_db: no disk");
}

fn params(statement: &Statement) -> Vec<String> {
    statement
        .params
        .iter()
        .map(|param| match param {
            SqlValue::Integer(n) => n.to_string(),
            SqlValue::Text(text) => format!("'{}'", text),
        })
        .collect()
}

#[test]
fn schema_statements() {
    let statements = initialize_hord_db();
    assert_eq!(statements.len(), 5);
    assert!(statements[0].starts_with("CREATE TABLE IF NOT EXISTS inscriptions (\n"));
    assert!(statements[0].contains("inscription_id TEXT NOT NULL PRIMARY KEY,\n"));
    assert!(statements[1].starts_with("CREATE TABLE IF NOT EXISTS transfers (\n"));
    assert!(statements[2].ends_with("ON inscriptions(outpoint_to_watch);"));
    assert!(statements[3].ends_with("ON inscriptions(ordinal_number);"));
    assert!(statements[4].ends_with("ON inscriptions(block_height);"));
}

#[test]
fn changing_statements() {
    let data = OrdinalInscriptionRevealData {
        inscription_id: String::from("abci0"),
        inscription_number: 7,
        ordinal_number: 8,
        satpoint_post_inscription: String::from("tx:1:0"),
    };
    let identifier = BlockIdentifier { index: 9, hash: String::from("0xff") };
    let statement = store_new_inscription(&data, &identifier);
    assert_eq!(statement.sql, "INSERT INTO inscriptions (inscription_id, outpoint_to_watch, ordinal_number, inscription_number, offset, block_height, block_hash) VALUES (?1, ?2, ?3, ?4, ?5, ?6, ?7)");
    assert_eq!(params(&statement), vec!["'abci0'", "'tx:1'", "8", "7", "0", "9", "'0xff'"]);
    let statement = update_transfered_inscription("abci0", "tx:2", 3);
    assert_eq!(
        statement.sql,
        "UPDATE inscriptions SET outpoint_to_watch = ?, offset = ? WHERE inscription_id = ?"
    );
    assert_eq!(params(&statement), vec!["'tx:2'", "3", "'abci0'"]);
    let statement = patch_inscription_number("abci0", 11);
    assert_eq!(
        statement.sql,
        "UPDATE inscriptions SET inscription_number = ? WHERE inscription_id = ?"
    );
    assert_eq!(params(&statement), vec!["11", "'abci0'"]);
    let statement = delete_inscriptions_in_block_range(1, 2);
    assert_eq!(
        statement.sql,
        "DELETE FROM inscriptions WHERE block_height >= ?1 AND block_height <= ?2"
    );
    assert_eq!(params(&statement), vec!["1", "2"]);
    let statement = remove_entry_from_inscriptions("abci0");
    assert_eq!(statement.sql, "DELETE FROM inscriptions WHERE inscription_id = ?1");
    assert_eq!(params(&statement), vec!["'abci0'"]);
    let statement = delete_blocks_in_block_range_sqlite(3, 4);
    assert_eq!(statement.sql, "DELETE FROM blocks WHERE id >= ?1 AND id <= ?2");
    assert_eq!(params(&statement), vec!["3", "4"]);
}

#[test]
fn satpoints_that_cannot_be_cut() {
    let identifier = BlockIdentifier { index: 9, hash: String::new() };
    for satpoint in ["", "0", "a\u{20ac}"] {
        let data = OrdinalInscriptionRevealData {
            inscription_id: String::new(),
            inscription_number: 0,
            ordinal_number: 0,
            satpoint_post_inscription: satpoint.to_string(),
        };
        assert!(try_store_new_inscription(&data, &identifier).is_none());
    }
}

#[test]
fn questions() {
    let statement = latest_inscription_block_height_query();
    assert_eq!(
        statement.sql,
        "SELECT block_height FROM inscriptions ORDER BY block_height DESC LIMIT 1"
    );
    assert!(statement.params.is_empty());
    let statement = latest_inscription_number_at_block_height_query(&12);
    assert_eq!(statement.sql, "SELECT inscription_number FROM inscriptions WHERE block_height < ? ORDER BY inscription_number DESC LIMIT 1");
    assert_eq!(params(&statement), vec!["12"]);
    let statement = latest_inscription_number_query();
    assert_eq!(
        statement.sql,
        "SELECT inscription_number FROM inscriptions ORDER BY inscription_number DESC LIMIT 1"
    );
    let statement = inscription_with_ordinal_number_query(&13);
    assert_eq!(
        statement.sql,
        "SELECT inscription_id FROM inscriptions WHERE ordinal_number = ?"
    );
    assert_eq!(params(&statement), vec!["13"]);
    let statement = inscription_with_id_query("xi0");
    assert_eq!(statement.sql, "SELECT inscription_number, ordinal_number, block_hash FROM inscriptions WHERE inscription_id = ?");
    assert_eq!(params(&statement), vec!["'xi0'"]);
    let statement = all_inscriptions_query();
    assert_eq!(statement.sql, "SELECT inscription_number, ordinal_number, block_height, inscription_id FROM inscriptions ORDER BY inscription_number ASC");
    let statement = inscriptions_at_wached_outpoint_query("tx:1");
    assert_eq!(statement.sql, "SELECT inscription_id, inscription_number, ordinal_number, offset FROM inscriptions WHERE outpoint_to_watch = ? ORDER BY offset ASC");
    assert_eq!(params(&statement), vec!["'tx:1'"]);
    let statement = block_at_block_height_sqlite_query(14);
    assert_eq!(statement.sql, "SELECT compacted_bytes FROM blocks WHERE id = ?");
    assert_eq!(params(&statement), vec!["14"]);
}

#[test]
fn first_rows() {
    assert_eq!(find_latest_inscription_block_height(&vec![5, 4]), Ok(Some(5)));
    assert_eq!(find_latest_inscription_block_height(&vec![]), Ok(None));
    assert_eq!(find_latest_inscription_number_at_block_height(&vec![6]), Ok(Some(6)));
    assert_eq!(find_latest_inscription_number_at_block_height(&vec![]), Ok(None));
    assert_eq!(find_latest_inscription_number(&vec![7]), Ok(Some(7)));
    assert_eq!(find_latest_inscription_number(&vec![]), Ok(None));
    let ids = vec![String::from("ai0"), String::from("bi0")];
    assert_eq!(find_inscription_with_ordinal_number(&ids), Some(String::from("ai0")));
    assert_eq!(find_inscription_with_ordinal_number(&vec![]), None);
}

#[test]
fn inscriptions_are_found_by_block() {
    let rows = vec![
        InscriptionOriginRow { inscription_number: 1, ordinal_number: 10, block_hash: String::from("0xa") },
        InscriptionOriginRow { inscription_number: 2, ordinal_number: 20, block_hash: String::from("0xb") },
        InscriptionOriginRow { inscription_number: 3, ordinal_number: 30, block_hash: String::from("0xb") },
    ];
    let found = find_inscription_with_id("0xb", &rows).unwrap();
    assert_eq!((found.inscription_number, found.ordinal_number, found.transfers), (2, 20, 0));
    assert!(find_inscription_with_id("0xc", &rows).is_none());
    assert!(find_inscription_with_id("0xc", &vec![]).is_none());
}

fn row(inscription_number: u64, block_height: u64, id: &str) -> InscriptionRow {
    InscriptionRow {
        inscription_number,
        ordinal_number: inscription_number * 100,
        block_height,
        inscription_id: id.to_string(),
    }
}

#[test]
fn inscriptions_are_listed_by_height() {
    let rows = vec![row(1, 9, "aai0"), row(2, 7, "bbi0"), row(3, 9, "cci0")];
    let index = find_all_inscriptions(&rows);
    assert_eq!(index.len(), 2);
    let nine = &index[&9];
    assert_eq!(nine.len(), 2);
    assert_eq!(nine[0].0.hash, "0xaa");
    assert_eq!(nine[0].1.inscription_number, 1);
    assert_eq!(nine[0].1.ordinal_number, 100);
    assert_eq!(nine[0].1.transfers, 0);
    assert_eq!(nine[1].0.hash, "0xcc");
    assert_eq!(index[&7][0].0.hash, "0xbb");
    assert!(find_all_inscriptions(&vec![]).is_empty());
    assert!(try_find_all_inscriptions(&vec![row(1, 1, "i")]).is_none());
    assert_eq!(find_all_inscriptions(&vec![row(1, 1, "i0")])[&1][0].0.hash, "0x");
}

#[test]
fn watched_outpoints() {
    let rows = vec![(String::from("ai0"), 1, 2, 3), (String::from("bi0"), 4, 5, 6)];
    let found = find_inscriptions_at_wached_outpoint(Ok(rows)).unwrap();
    assert_eq!(found.len(), 2);
    assert_eq!(found[0].inscription_id, "ai0");
    assert_eq!((found[0].inscription_number, found[0].ordinal_number, found[0].offset), (1, 2, 3));
    assert_eq!(found[1].clone().inscription_id, "bi0");
    assert_eq!(
        find_inscriptions_at_wached_outpoint(Err(String::from("no such table"))).unwrap_err(),
        "unable to query inscriptions table: no such table"
    );
}

#[test]
fn blocks_of_older_databases() {
    let text = hex::encode(serde_cbor::to_vec(&block(5).0).unwrap());
    let found = find_block_at_block_height_sqlite(&vec![text, String::from("zz")]).unwrap();
    assert_eq!(found.0, block(5).0);
    let found = find_block_at_block_height_sqlite(&vec![String::from("zz")]).unwrap();
    assert_eq!(found.0, CompactedBlock::empty().0);
    assert!(find_block_at_block_height_sqlite(&vec![]).is_none());
}
