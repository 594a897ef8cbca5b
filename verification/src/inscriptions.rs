//! The database of inscriptions: the statements that change it.
use crate::text;
use crate::traversal::BlockIdentifier;
use vstd::prelude::*;

verus! {

/// The value of a parameter.
#[derive(Debug)]
pub enum SqlValue {
    Integer(u64),
    Text(String),
}

/// A statement and the values of its parameters, in order.
#[derive(Debug)]
pub struct Statement {
    pub sql: &'static str,
    pub params: Vec<SqlValue>,
}

pub enum SqlValueView {
    Integer(u64),
    Text(Seq<char>),
}

#[verifier::ext_equal]
pub struct StatementView {
    pub sql: Seq<char>,
    pub params: Seq<SqlValueView>,
}

impl View for SqlValue {
    type V = SqlValueView;

    open spec fn view(&self) -> SqlValueView {
        match *self {
            SqlValue::Integer(n) => SqlValueView::Integer(n),
            SqlValue::Text(text) => SqlValueView::Text(text@),
        }
    }
}

pub open spec fn params_view(params: Seq<SqlValue>) -> Seq<SqlValueView> {
    params.map_values(|param: SqlValue| param@)
}

impl View for Statement {
    type V = StatementView;

    open spec fn view(&self) -> StatementView {
        StatementView { sql: self.sql@, params: params_view(self.params@) }
    }
}

/// A statement without parameters.
pub(crate) fn plain(sql: &'static str) -> (statement: Statement)
    ensures
        statement@ == (StatementView { sql: sql@, params: Seq::empty() }),
{
    let statement = Statement { sql, params: Vec::new() };
    assert(statement@.params =~= Seq::empty());
    statement
}

/// A statement with one parameter.
pub(crate) fn with_one(sql: &'static str, a: SqlValue) -> (statement: Statement)
    ensures
        statement@ == (StatementView { sql: sql@, params: seq![a@] }),
{
    let mut params: Vec<SqlValue> = Vec::new();
    params.push(a);
    let statement = Statement { sql, params };
    assert(statement@.params =~= seq![a@]);
    statement
}

/// A statement with two parameters.
fn with_two(sql: &'static str, a: SqlValue, b: SqlValue) -> (statement: Statement)
    ensures
        statement@ == (StatementView { sql: sql@, params: seq![a@, b@] }),
{
    let mut params: Vec<SqlValue> = Vec::new();
    params.push(a);
    params.push(b);
    let statement = Statement { sql, params };
    assert(statement@.params =~= seq![a@, b@]);
    statement
}

pub const CREATE_INSCRIPTIONS: &'static str = "CREATE TABLE IF NOT EXISTS inscriptions (
            inscription_id TEXT NOT NULL PRIMARY KEY,
            block_height INTEGER NOT NULL,
            block_hash TEXT NOT NULL,
            outpoint_to_watch TEXT NOT NULL,
            ordinal_number INTEGER NOT NULL,
            inscription_number INTEGER NOT NULL,
            offset INTEGER NOT NULL
        )";

pub const CREATE_TRANSFERS: &'static str = "CREATE TABLE IF NOT EXISTS transfers (
            block_height INTEGER NOT NULL PRIMARY KEY
        )";

pub const INDEX_OUTPOINTS: &'static str = "CREATE INDEX IF NOT EXISTS index_inscriptions_on_outpoint_to_watch ON inscriptions(outpoint_to_watch);";

pub const INDEX_ORDINAL_NUMBERS: &'static str = "CREATE INDEX IF NOT EXISTS index_inscriptions_on_ordinal_number ON inscriptions(ordinal_number);";

pub const INDEX_BLOCK_HEIGHTS: &'static str = "CREATE INDEX IF NOT EXISTS index_inscriptions_on_block_height ON inscriptions(block_height);";

/// The statements that create the tables and indexes, in order. One that
/// fails does not keep the next from being run.
pub fn initialize_hord_db() -> (statements: Vec<&'static str>)
    ensures
        statements@ == seq![
            CREATE_INSCRIPTIONS,
            CREATE_TRANSFERS,
            INDEX_OUTPOINTS,
            INDEX_ORDINAL_NUMBERS,
            INDEX_BLOCK_HEIGHTS,
        ],
{
    let mut statements: Vec<&'static str> = Vec::new();
    statements.push(CREATE_INSCRIPTIONS);
    statements.push(CREATE_TRANSFERS);
    statements.push(INDEX_OUTPOINTS);
    statements.push(INDEX_ORDINAL_NUMBERS);
    statements.push(INDEX_BLOCK_HEIGHTS);
    assert(statements@ =~= seq![
        CREATE_INSCRIPTIONS,
        CREATE_TRANSFERS,
        INDEX_OUTPOINTS,
        INDEX_ORDINAL_NUMBERS,
        INDEX_BLOCK_HEIGHTS,
    ]);
    statements
}

/// What is known of an inscription when it is revealed, as far as it is stored.
#[derive(Debug)]
pub struct OrdinalInscriptionRevealData {
    pub inscription_id: String,
    pub inscription_number: u64,
    pub ordinal_number: u64,
    /// The transaction, the output and the offset that hold the inscription.
    pub satpoint_post_inscription: String,
}

pub const INSERT_INSCRIPTION: &'static str = "INSERT INTO inscriptions (inscription_id, outpoint_to_watch, ordinal_number, inscription_number, offset, block_height, block_hash) VALUES (?1, ?2, ?3, ?4, ?5, ?6, ?7)";

/// The statement that stores an inscription: the outpoint to watch is the
/// satpoint without the offset, which is its last two bytes.
pub open spec fn insertion_of(
    data: OrdinalInscriptionRevealData,
    block: BlockIdentifier,
) -> StatementView {
    StatementView {
        sql: INSERT_INSCRIPTION@,
        params: seq![
            SqlValueView::Text(data.inscription_id@),
            SqlValueView::Text(text::cut(data.satpoint_post_inscription@)),
            SqlValueView::Integer(data.ordinal_number),
            SqlValueView::Integer(data.inscription_number),
            SqlValueView::Integer(0),
            SqlValueView::Integer(block.index),
            SqlValueView::Text(block.hash@),
        ],
    }
}

/// The statement that stores an inscription. `None` where the last two bytes
/// of the satpoint cannot be cut off.
pub fn try_store_new_inscription(
    inscription_data: &OrdinalInscriptionRevealData,
    block_identifier: &BlockIdentifier,
) -> (r: Option<Statement>)
    ensures
        match r {
            Some(statement) => {
                &&& text::can_cut(inscription_data.satpoint_post_inscription@)
                &&& statement@ == insertion_of(*inscription_data, *block_identifier)
            },
            None => !text::can_cut(inscription_data.satpoint_post_inscription@),
        },
{
    let outpoint = match text::without_last_two_bytes(
        inscription_data.satpoint_post_inscription.as_str(),
    ) {
        Some(outpoint) => outpoint,
        None => {
            return None;
        },
    };
    let mut params: Vec<SqlValue> = Vec::new();
    params.push(SqlValue::Text(inscription_data.inscription_id.clone()));
    params.push(SqlValue::Text(outpoint.to_owned()));
    params.push(SqlValue::Integer(inscription_data.ordinal_number));
    params.push(SqlValue::Integer(inscription_data.inscription_number));
    params.push(SqlValue::Integer(0));
    params.push(SqlValue::Integer(block_identifier.index));
    params.push(SqlValue::Text(block_identifier.hash.clone()));
    let statement = Statement { sql: INSERT_INSCRIPTION, params };
    assert(statement@ =~= insertion_of(*inscription_data, *block_identifier));
    Some(statement)
}

/// The statement that stores an inscription.
pub fn store_new_inscription(
    inscription_data: &OrdinalInscriptionRevealData,
    block_identifier: &BlockIdentifier,
) -> (statement: Statement)
    requires
        text::can_cut(inscription_data.satpoint_post_inscription@),
    ensures
        statement@ == insertion_of(*inscription_data, *block_identifier),
{
    match try_store_new_inscription(inscription_data, block_identifier) {
        Some(statement) => statement,
        None => plain(INSERT_INSCRIPTION),
    }
}

pub const UPDATE_TRANSFERED_INSCRIPTION: &'static str = "UPDATE inscriptions SET outpoint_to_watch = ?, offset = ? WHERE inscription_id = ?";

/// The statement that moves an inscription to another outpoint.
pub fn update_transfered_inscription(
    inscription_id: &str,
    outpoint_post_transfer: &str,
    offset: u64,
) -> (statement: Statement)
    ensures
        statement@ == (StatementView {
            sql: UPDATE_TRANSFERED_INSCRIPTION@,
            params: seq![
                SqlValueView::Text(outpoint_post_transfer@),
                SqlValueView::Integer(offset),
                SqlValueView::Text(inscription_id@),
            ],
        }),
{
    let mut params: Vec<SqlValue> = Vec::new();
    params.push(SqlValue::Text(outpoint_post_transfer.to_owned()));
    params.push(SqlValue::Integer(offset));
    params.push(SqlValue::Text(inscription_id.to_owned()));
    let statement = Statement { sql: UPDATE_TRANSFERED_INSCRIPTION, params };
    assert(statement@.params =~= seq![
        SqlValueView::Text(outpoint_post_transfer@),
        SqlValueView::Integer(offset),
        SqlValueView::Text(inscription_id@),
    ]);
    statement
}

pub const PATCH_INSCRIPTION_NUMBER: &'static str = "UPDATE inscriptions SET inscription_number = ? WHERE inscription_id = ?";

/// The statement that gives an inscription another number.
pub fn patch_inscription_number(inscription_id: &str, inscription_number: u64) -> (statement:
    Statement)
    ensures
        statement@ == (StatementView {
            sql: PATCH_INSCRIPTION_NUMBER@,
            params: seq![
                SqlValueView::Integer(inscription_number),
                SqlValueView::Text(inscription_id@),
            ],
        }),
{
    with_two(
        PATCH_INSCRIPTION_NUMBER,
        SqlValue::Integer(inscription_number),
        SqlValue::Text(inscription_id.to_owned()),
    )
}

pub const DELETE_INSCRIPTIONS: &'static str = "DELETE FROM inscriptions WHERE block_height >= ?1 AND block_height <= ?2";

/// The statement that removes the inscriptions of a range of blocks.
pub fn delete_inscriptions_in_block_range(start_block: u32, end_block: u32) -> (statement:
    Statement)
    ensures
        statement@ == (StatementView {
            sql: DELETE_INSCRIPTIONS@,
            params: seq![
                SqlValueView::Integer(start_block as u64),
                SqlValueView::Integer(end_block as u64),
            ],
        }),
{
    with_two(
        DELETE_INSCRIPTIONS,
        SqlValue::Integer(start_block as u64),
        SqlValue::Integer(end_block as u64),
    )
}

pub const DELETE_INSCRIPTION: &'static str = "DELETE FROM inscriptions WHERE inscription_id = ?1";

/// The statement that removes an inscription.
pub fn remove_entry_from_inscriptions(inscription_id: &str) -> (statement: Statement)
    ensures
        statement@ == (StatementView {
            sql: DELETE_INSCRIPTION@,
            params: seq![SqlValueView::Text(inscription_id@)],
        }),
{
    with_one(DELETE_INSCRIPTION, SqlValue::Text(inscription_id.to_owned()))
}

pub const DELETE_BLOCKS: &'static str = "DELETE FROM blocks WHERE id >= ?1 AND id <= ?2";

/// The statement that removes a range of blocks from a database of the older form.
pub fn delete_blocks_in_block_range_sqlite(start_block: u32, end_block: u32) -> (statement:
    Statement)
    ensures
        statement@ == (StatementView {
            sql: DELETE_BLOCKS@,
            params: seq![
                SqlValueView::Integer(start_block as u64),
                SqlValueView::Integer(end_block as u64),
            ],
        }),
{
    with_two(
        DELETE_BLOCKS,
        SqlValue::Integer(start_block as u64),
        SqlValue::Integer(end_block as u64),
    )
}

/// A value is itself to the database.
pub proof fn law_sql_values(n: u64, text: String)
    ensures
        SqlValue::Integer(n)@ == SqlValueView::Integer(n),
        SqlValue::Text(text)@ == SqlValueView::Text(text@),
{
}

/// A statement is its text and the values of its parameters, in their order.
pub proof fn law_statement_parts(statement: &Statement, k: int)
    ensures
        statement@.sql == statement.sql@,
        statement@.params.len() == statement.params@.len(),
        0 <= k < statement.params@.len() ==> statement@.params[k] == statement.params@[k]@,
{
}

/// An inscription is stored with its identifier, its numbers, the height and
/// the hash of its block, at offset 0 of the output that its satpoint names
/// before the last two bytes.
pub proof fn law_inscription_is_stored_with_its_numbers(
    data: OrdinalInscriptionRevealData,
    block: BlockIdentifier,
    front: Seq<char>,
    tail: Seq<char>,
)
    requires
        data.satpoint_post_inscription@ == front + tail,
        vstd::utf8::encode_utf8(tail).len() == 2,
    ensures
        text::can_cut(data.satpoint_post_inscription@),
        ({
            let stored = insertion_of(data, block);
            &&& stored.sql
                == "INSERT INTO inscriptions (inscription_id, outpoint_to_watch, ordinal_number, inscription_number, offset, block_height, block_hash) VALUES (?1, ?2, ?3, ?4, ?5, ?6, ?7)"@
            &&& stored.params.len() == 7
            &&& stored.params[0] == SqlValueView::Text(data.inscription_id@)
            &&& stored.params[1] == SqlValueView::Text(front)
            &&& stored.params[2] == SqlValueView::Integer(data.ordinal_number)
            &&& stored.params[3] == SqlValueView::Integer(data.inscription_number)
            &&& stored.params[4] == SqlValueView::Integer(0)
            &&& stored.params[5] == SqlValueView::Integer(block.index)
            &&& stored.params[6] == SqlValueView::Text(block.hash@)
        }),
{
    text::law_cut_takes_two_bytes(front, tail);
}

/// The tables and indexes are these, and are created in this order.
pub proof fn law_schema()
    ensures
        CREATE_INSCRIPTIONS@ == "CREATE TABLE IF NOT EXISTS inscriptions (
            inscription_id TEXT NOT NULL PRIMARY KEY,
            block_height INTEGER NOT NULL,
            block_hash TEXT NOT NULL,
            outpoint_to_watch TEXT NOT NULL,
            ordinal_number INTEGER NOT NULL,
            inscription_number INTEGER NOT NULL,
            offset INTEGER NOT NULL
        )"@,
        CREATE_TRANSFERS@ == "CREATE TABLE IF NOT EXISTS transfers (
            block_height INTEGER NOT NULL PRIMARY KEY
        )"@,
        INDEX_OUTPOINTS@
            == "CREATE INDEX IF NOT EXISTS index_inscriptions_on_outpoint_to_watch ON inscriptions(outpoint_to_watch);"@,
        INDEX_ORDINAL_NUMBERS@
            == "CREATE INDEX IF NOT EXISTS index_inscriptions_on_ordinal_number ON inscriptions(ordinal_number);"@,
        INDEX_BLOCK_HEIGHTS@
            == "CREATE INDEX IF NOT EXISTS index_inscriptions_on_block_height ON inscriptions(block_height);"@,
{
}

/// A transfer is stored with the outpoint and the offset that it is given, and
/// for the inscription that is named.
pub proof fn law_transfer_is_stored(id: &str, outpoint: &str, offset: u64, statement: Statement)
    requires
        call_ensures(update_transfered_inscription, (id, outpoint, offset), statement),
    ensures
        statement@.params.len() == 3,
        statement@.params[0] == SqlValueView::Text(outpoint@),
        statement@.params[1] == SqlValueView::Integer(offset),
        statement@.params[2] == SqlValueView::Text(id@),
{
}

/// A number is stored as it is given, and for the inscription that is named.
pub proof fn law_number_is_stored(id: &str, number: u64, statement: Statement)
    requires
        call_ensures(patch_inscription_number, (id, number), statement),
    ensures
        statement@.params.len() == 2,
        statement@.params[0] == SqlValueView::Integer(number),
        statement@.params[1] == SqlValueView::Text(id@),
{
}

/// The heights of a range are handed to the database as they are given.
pub proof fn law_ranges_are_handed_over(
    start: u32,
    end: u32,
    inscriptions: Statement,
    blocks: Statement,
)
    requires
        call_ensures(delete_inscriptions_in_block_range, (start, end), inscriptions),
        call_ensures(delete_blocks_in_block_range_sqlite, (start, end), blocks),
    ensures
        inscriptions@.params.len() == 2 && blocks@.params.len() == 2,
        inscriptions@.params[0] == SqlValueView::Integer(start as u64),
        inscriptions@.params[1] == SqlValueView::Integer(end as u64),
        blocks@.params[0] == SqlValueView::Integer(start as u64),
        blocks@.params[1] == SqlValueView::Integer(end as u64),
{
}

/// The inscription that is removed is the one that is named.
pub proof fn law_named_inscription_is_removed(id: &str, statement: Statement)
    requires
        call_ensures(remove_entry_from_inscriptions, (id,), statement),
    ensures
        statement@.params.len() == 1,
        statement@.params[0] == SqlValueView::Text(id@),
{
}

} // verus!
