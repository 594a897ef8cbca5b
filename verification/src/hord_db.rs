//! The two databases together: where they stand, how they are opened, and how
//! a range of blocks is removed from both.
use crate::blocks_db::BlocksDbWrite;
use crate::inscriptions::{SqlValueView, Statement, StatementView};
use crate::{blocks_db, inscriptions};
use vstd::prelude::*;
use vstd::string::*;

verus! {

/// The file of the database of inscriptions.
pub const HORD_DB_FILE_NAME: &'static str = "hord.sqlite";

/// The directory of the database of blocks.
pub const HORD_BLOCKS_DB_FILE_NAME: &'static str = "hord.rocksdb";

/// What is known of a database's file.
#[derive(Debug)]
pub enum DbFileState {
    Present,
    Absent,
    /// Nothing can be learnt of it.
    Unknown,
}

/// How a database is opened.
#[derive(Debug)]
pub enum DbOpenMode {
    ReadOnly,
    ReadWrite,
    /// The file, and the directories it stands in, are created first.
    ReadWriteCreate,
}

fn fatal(what: &str, path: &str) -> (message: String)
    ensures
        message@ == "FATAL: could not "@ + what@ + " "@ + path@,
{
    let mut message: String = "FATAL: could not ".to_owned();
    message.append(what);
    message.append(" ");
    message.append(path);
    message
}

/// How the database of inscriptions is opened for writing: it is created
/// where it does not exist. The error is fatal.
pub fn create_or_open_readwrite_db(state: DbFileState, path: &str) -> (r: Result<
    DbOpenMode,
    String,
>)
    ensures
        match state {
            DbFileState::Present => r == Ok::<DbOpenMode, String>(DbOpenMode::ReadWrite),
            DbFileState::Absent => r == Ok::<DbOpenMode, String>(DbOpenMode::ReadWriteCreate),
            DbFileState::Unknown => r matches Err(message) && message@ == "FATAL: could not "@
                + "stat"@ + " "@ + path@,
        },
{
    match state {
        DbFileState::Present => Ok(DbOpenMode::ReadWrite),
        DbFileState::Absent => Ok(DbOpenMode::ReadWriteCreate),
        DbFileState::Unknown => Err(fatal("stat", path)),
    }
}

/// How the database of inscriptions is opened for reading: it must exist. The
/// error is fatal.
pub fn open_existing_readonly_db(state: DbFileState, path: &str) -> (r: Result<DbOpenMode, String>)
    ensures
        match state {
            DbFileState::Present => r == Ok::<DbOpenMode, String>(DbOpenMode::ReadOnly),
            DbFileState::Absent => r matches Err(message) && message@ == "FATAL: could not "@
                + "find"@ + " "@ + path@,
            DbFileState::Unknown => r matches Err(message) && message@ == "FATAL: could not "@
                + "stat"@ + " "@ + path@,
        },
{
    match state {
        DbFileState::Present => Ok(DbOpenMode::ReadOnly),
        DbFileState::Absent => Err(fatal("find", path)),
        DbFileState::Unknown => Err(fatal("stat", path)),
    }
}

/// What is said when the database of blocks cannot be opened.
pub fn unable_to_open_blocks_db(reason: &str) -> (message: String)
    ensures
        message@ == "unable to open blocks_db: "@ + reason@,
{
    let mut message: String = "unable to open blocks_db: ".to_owned();
    message.append(reason);
    message
}

/// What removes a range of blocks from both databases.
#[derive(Debug)]
pub struct HordDbDeletion {
    pub blocks: Vec<BlocksDbWrite>,
    pub inscriptions: Statement,
}

/// What removes the blocks from `start_block` to `end_block`, and the
/// inscriptions in them. Of both heights the lower 32 bits count.
pub fn delete_data_in_hord_db(start_block: u64, end_block: u64) -> (deletion: HordDbDeletion)
    requires
        start_block % 0x1_0000_0000 >= 1,
    ensures
        blocks_db::writes_view(deletion.blocks@) == blocks_db::range_removal(
            (start_block % 0x1_0000_0000) as u32,
            (end_block % 0x1_0000_0000) as u32,
        ),
        deletion.inscriptions@ == (StatementView {
            sql: inscriptions::DELETE_INSCRIPTIONS@,
            params: seq![
                SqlValueView::Integer(start_block % 0x1_0000_0000),
                SqlValueView::Integer(end_block % 0x1_0000_0000),
            ],
        }),
{
    let start: u32 = (start_block % 0x1_0000_0000) as u32;
    let end: u32 = (end_block % 0x1_0000_0000) as u32;
    HordDbDeletion {
        blocks: blocks_db::delete_blocks_in_block_range(start, end),
        inscriptions: inscriptions::delete_inscriptions_in_block_range(start, end),
    }
}

/// Deleting the blocks of a range removes those blocks, and no others, from
/// the database of blocks, makes the one before the range the last one
/// inserted, and asks for the inscriptions of the same range to be removed.
pub proof fn law_deletion_removes_the_range(
    start_block: u64,
    end_block: u64,
    deletion: HordDbDeletion,
    db: Map<Seq<u8>, Seq<u8>>,
    height: u32,
)
    requires
        1 <= start_block <= u32::MAX,
        end_block <= u32::MAX,
        call_ensures(delete_data_in_hord_db, (start_block, end_block), deletion),
    ensures
        ({
            let after = blocks_db::apply_writes(db, blocks_db::writes_view(deletion.blocks@));
            let key = blocks_db::key_of_block(height);
            &&& after.dom().contains(key) == (db.dom().contains(key) && !(start_block <= height
                <= end_block))
            &&& !(start_block <= height <= end_block) ==> after[key] == db[key]
            &&& blocks_db::last_inserted(Some(after[blocks_db::key_of_last_insert()]))
                == start_block - 1
        }),
        deletion.inscriptions@.params == seq![
            SqlValueView::Integer(start_block),
            SqlValueView::Integer(end_block),
        ],
        deletion.inscriptions@.sql
            == "DELETE FROM inscriptions WHERE block_height >= ?1 AND block_height <= ?2"@,
{
    blocks_db::law_removed_range_is_gone(db, start_block as u32, end_block as u32, height);
}

/// Heights that differ by a multiple of 2 to the power of 32 are the same to a deletion.
pub proof fn law_deletion_goes_by_32_bits(
    start_block: u64,
    end_block: u64,
    deletion: HordDbDeletion,
    start_multiple: nat,
    end_multiple: nat,
    other: HordDbDeletion,
)
    requires
        1 <= start_block <= u32::MAX,
        end_block <= u32::MAX,
        start_block + 0x1_0000_0000 * start_multiple <= u64::MAX,
        end_block + 0x1_0000_0000 * end_multiple <= u64::MAX,
        call_ensures(delete_data_in_hord_db, (start_block, end_block), deletion),
        call_ensures(
            delete_data_in_hord_db,
            (
                (start_block + 0x1_0000_0000 * start_multiple) as u64,
                (end_block + 0x1_0000_0000 * end_multiple) as u64,
            ),
            other,
        ),
    ensures
        blocks_db::writes_view(other.blocks@) == blocks_db::writes_view(deletion.blocks@),
        other.inscriptions@ == deletion.inscriptions@,
{
}

} // verus!
