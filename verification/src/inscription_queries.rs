//! Questions to the database of inscriptions, and what the rows that come back
//! stand for.
use crate::block::CompactedBlock;
use crate::inscriptions::{SqlValue, SqlValueView, Statement, StatementView};
use crate::traversal::{TransactionIdentifier, TraversalResult};
use crate::{block, cbor, hex_codec, inscriptions, text};
use std::collections::BTreeMap;
use vstd::prelude::*;
use vstd::string::*;

verus! {

pub const SELECT_LATEST_BLOCK_HEIGHT: &'static str = "SELECT block_height FROM inscriptions ORDER BY block_height DESC LIMIT 1";

pub const SELECT_LATEST_NUMBER_BELOW: &'static str = "SELECT inscription_number FROM inscriptions WHERE block_height < ? ORDER BY inscription_number DESC LIMIT 1";

pub const SELECT_LATEST_NUMBER: &'static str = "SELECT inscription_number FROM inscriptions ORDER BY inscription_number DESC LIMIT 1";

pub const SELECT_ID_OF_ORDINAL: &'static str = "SELECT inscription_id FROM inscriptions WHERE ordinal_number = ?";

pub const SELECT_ORIGIN_OF_ID: &'static str = "SELECT inscription_number, ordinal_number, block_hash FROM inscriptions WHERE inscription_id = ?";

pub const SELECT_ALL: &'static str = "SELECT inscription_number, ordinal_number, block_height, inscription_id FROM inscriptions ORDER BY inscription_number ASC";

pub const SELECT_AT_OUTPOINT: &'static str = "SELECT inscription_id, inscription_number, ordinal_number, offset FROM inscriptions WHERE outpoint_to_watch = ? ORDER BY offset ASC";

pub const SELECT_BLOCK: &'static str = "SELECT compacted_bytes FROM blocks WHERE id = ?";

pub open spec fn first<T>(rows: Seq<T>) -> Option<T> {
    if rows.len() > 0 {
        Some(rows[0])
    } else {
        None
    }
}

fn first_number(rows: &Vec<u64>) -> (r: Option<u64>)
    ensures
        r == first(rows@),
{
    if rows.len() > 0 {
        Some(rows[0])
    } else {
        None
    }
}

/// Asks for the greatest height of a block with an inscription.
pub fn latest_inscription_block_height_query() -> (statement: Statement)
    ensures
        statement@ == (StatementView {
            sql: SELECT_LATEST_BLOCK_HEIGHT@,
            params: Seq::empty(),
        }),
{
    inscriptions::plain(SELECT_LATEST_BLOCK_HEIGHT)
}

/// The height in the first row, if there is a row.
pub fn find_latest_inscription_block_height(rows: &Vec<u64>) -> (r: Result<Option<u64>, String>)
    ensures
        r == Ok::<Option<u64>, String>(first(rows@)),
{
    Ok(first_number(rows))
}

/// Asks for the greatest number of an inscription below a height.
pub fn latest_inscription_number_at_block_height_query(block_height: &u64) -> (statement:
    Statement)
    ensures
        statement@ == (StatementView {
            sql: SELECT_LATEST_NUMBER_BELOW@,
            params: seq![SqlValueView::Integer(*block_height)],
        }),
{
    inscriptions::with_one(SELECT_LATEST_NUMBER_BELOW, SqlValue::Integer(*block_height))
}

/// The number in the first row, if there is a row.
pub fn find_latest_inscription_number_at_block_height(rows: &Vec<u64>) -> (r: Result<
    Option<u64>,
    String,
>)
    ensures
        r == Ok::<Option<u64>, String>(first(rows@)),
{
    Ok(first_number(rows))
}

/// Asks for the greatest number of an inscription.
pub fn latest_inscription_number_query() -> (statement: Statement)
    ensures
        statement@ == (StatementView { sql: SELECT_LATEST_NUMBER@, params: Seq::empty() }),
{
    inscriptions::plain(SELECT_LATEST_NUMBER)
}

/// The number in the first row, if there is a row.
pub fn find_latest_inscription_number(rows: &Vec<u64>) -> (r: Result<Option<u64>, String>)
    ensures
        r == Ok::<Option<u64>, String>(first(rows@)),
{
    Ok(first_number(rows))
}

/// Asks for the inscription on a satoshi.
pub fn inscription_with_ordinal_number_query(ordinal_number: &u64) -> (statement: Statement)
    ensures
        statement@ == (StatementView {
            sql: SELECT_ID_OF_ORDINAL@,
            params: seq![SqlValueView::Integer(*ordinal_number)],
        }),
{
    inscriptions::with_one(SELECT_ID_OF_ORDINAL, SqlValue::Integer(*ordinal_number))
}

/// The identifier in the first row, if there is a row.
pub fn find_inscription_with_ordinal_number(rows: &Vec<String>) -> (r: Option<String>)
    ensures
        match r {
            Some(id) => rows@.len() > 0 && id@ == rows@[0]@,
            None => rows@.len() == 0,
        },
{
    if rows.len() > 0 {
        Some(rows[0].clone())
    } else {
        None
    }
}

/// A row that says where an inscription comes from.
#[derive(Debug)]
pub struct InscriptionOriginRow {
    pub inscription_number: u64,
    pub ordinal_number: u64,
    pub block_hash: String,
}

/// Asks where an inscription comes from.
pub fn inscription_with_id_query(inscription_id: &str) -> (statement: Statement)
    ensures
        statement@ == (StatementView {
            sql: SELECT_ORIGIN_OF_ID@,
            params: seq![SqlValueView::Text(inscription_id@)],
        }),
{
    inscriptions::with_one(SELECT_ORIGIN_OF_ID, SqlValue::Text(inscription_id.to_owned()))
}

/// What the first row from `from` on with the block's hash says.
pub open spec fn origin_in_block(
    rows: Seq<InscriptionOriginRow>,
    block_hash: Seq<char>,
    from: nat,
) -> Option<TraversalResult>
    decreases rows.len() - from,
{
    if from >= rows.len() {
        None
    } else if rows[from as int].block_hash@ == block_hash {
        Some(
            TraversalResult {
                inscription_number: rows[from as int].inscription_number,
                ordinal_number: rows[from as int].ordinal_number,
                transfers: 0,
            },
        )
    } else {
        origin_in_block(rows, block_hash, from + 1)
    }
}

/// The inscription's numbers, if the block with this hash reveals it.
pub fn find_inscription_with_id(block_hash: &str, rows: &Vec<InscriptionOriginRow>) -> (r: Option<
    TraversalResult,
>)
    ensures
        r == origin_in_block(rows@, block_hash@, 0),
{
    let searched: String = block_hash.to_owned();
    let mut i: usize = 0;
    while i < rows.len()
        invariant
            i <= rows@.len(),
            searched@ == block_hash@,
            origin_in_block(rows@, block_hash@, i as nat) == origin_in_block(
                rows@,
                block_hash@,
                0,
            ),
        decreases rows@.len() - i,
    {
        if rows[i].block_hash == searched {
            return Some(
                TraversalResult {
                    inscription_number: rows[i].inscription_number,
                    ordinal_number: rows[i].ordinal_number,
                    transfers: 0,
                },
            );
        }
        i = i + 1;
    }
    None
}

/// A row that describes an inscription.
#[derive(Debug)]
pub struct InscriptionRow {
    pub inscription_number: u64,
    pub ordinal_number: u64,
    pub block_height: u64,
    pub inscription_id: String,
}

/// Asks for all inscriptions, in the order of their numbers.
pub fn all_inscriptions_query() -> (statement: Statement)
    ensures
        statement@ == (StatementView { sql: SELECT_ALL@, params: Seq::empty() }),
{
    inscriptions::plain(SELECT_ALL)
}

/// The transaction that reveals an inscription, and the inscription's numbers:
/// the inscription's identifier is that of the transaction and two bytes more.
pub open spec fn entry_of(row: InscriptionRow) -> (Seq<char>, TraversalResult) {
    (
        "0x"@ + text::cut(row.inscription_id@),
        TraversalResult {
            inscription_number: row.inscription_number,
            ordinal_number: row.ordinal_number,
            transfers: 0,
        },
    )
}

/// The entries of the rows at `height` among the first `count` rows, in order.
pub open spec fn entries_at(rows: Seq<InscriptionRow>, height: u64, count: nat) -> Seq<
    (Seq<char>, TraversalResult),
>
    decreases count,
{
    if count == 0 {
        Seq::empty()
    } else {
        let before = entries_at(rows, height, (count - 1) as nat);
        if rows[count - 1].block_height == height {
            before.push(entry_of(rows[count - 1]))
        } else {
            before
        }
    }
}

pub open spec fn entries_view(entries: Seq<(TransactionIdentifier, TraversalResult)>) -> Seq<
    (Seq<char>, TraversalResult),
> {
    entries.map_values(
        |entry: (TransactionIdentifier, TraversalResult)| (entry.0.hash@, entry.1),
    )
}

/// Whether `index` lists the first `count` rows by height.
pub open spec fn is_index(
    index: Map<u64, Vec<(TransactionIdentifier, TraversalResult)>>,
    rows: Seq<InscriptionRow>,
    count: nat,
) -> bool {
    &&& forall|height: u64|
        #![trigger index.dom().contains(height)]
        index.dom().contains(height) <==> entries_at(rows, height, count).len() > 0
    &&& forall|height: u64|
        #![trigger index[height]]
        index.dom().contains(height) ==> entries_view(index[height]@) == entries_at(
            rows,
            height,
            count,
        )
}

/// Whether every identifier is long enough for two bytes to be cut off.
pub open spec fn ids_can_be_cut(rows: Seq<InscriptionRow>) -> bool {
    forall|k: int| 0 <= k < rows.len() ==> text::can_cut((#[trigger] rows[k]).inscription_id@)
}

/// The inscriptions by the height of their block. `None` where the last two
/// bytes of an identifier cannot be cut off.
pub fn try_find_all_inscriptions(rows: &Vec<InscriptionRow>) -> (r: Option<
    BTreeMap<u64, Vec<(TransactionIdentifier, TraversalResult)>>,
>)
    ensures
        match r {
            Some(index) => ids_can_be_cut(rows@) && is_index(index@, rows@, rows@.len()),
            None => !ids_can_be_cut(rows@),
        },
{
    broadcast use vstd::std_specs::btree::group_btree_axioms;

    let mut results: BTreeMap<u64, Vec<(TransactionIdentifier, TraversalResult)>> =
        BTreeMap::new();
    let mut i: usize = 0;
    while i < rows.len()
        invariant
            i <= rows@.len(),
            is_index(results@, rows@, i as nat),
            forall|k: int| 0 <= k < i ==> text::can_cut((#[trigger] rows@[k]).inscription_id@),
        decreases rows@.len() - i,
    {
        let row = &rows[i];
        let front = match text::without_last_two_bytes(row.inscription_id.as_str()) {
            Some(front) => front,
            None => {
                assert(!text::can_cut(rows@[i as int].inscription_id@));
                return None;
            },
        };
        let mut hash: String = "0x".to_owned();
        hash.append(front);
        let traversal = TraversalResult {
            inscription_number: row.inscription_number,
            ordinal_number: row.ordinal_number,
            transfers: 0,
        };
        let ghost before = results@;
        let height: u64 = row.block_height;
        let mut entries = match results.remove(&height) {
            Some(entries) => entries,
            None => Vec::new(),
        };
        let ghost listed = entries@;
        entries.push((TransactionIdentifier { hash }, traversal));
        let ghost now = entries@;
        results.insert(height, entries);
        proof {
            assert(entries_view(listed) =~= entries_at(rows@, height, i as nat));
            assert(entries_view(now) =~= entries_view(listed).push(entry_of(*row)));
            assert forall|other: u64| #[trigger] results@.dom().contains(other) <==> entries_at(
                rows@,
                other,
                i as nat + 1,
            ).len() > 0 by {
                assert(before.dom().contains(other) <==> entries_at(
                    rows@,
                    other,
                    i as nat,
                ).len() > 0);
            }
            assert forall|other: u64|
                #![trigger results@[other]]
                results@.dom().contains(other) implies entries_view(results@[other]@)
                == entries_at(rows@, other, i as nat + 1) by {
                if other != height {
                    assert(results@[other] == before[other]);
                    assert(before.dom().contains(other));
                }
            }
        }
        i = i + 1;
    }
    Some(results)
}

/// The inscriptions by the height of their block.
pub fn find_all_inscriptions(rows: &Vec<InscriptionRow>) -> (index: BTreeMap<
    u64,
    Vec<(TransactionIdentifier, TraversalResult)>,
>)
    requires
        ids_can_be_cut(rows@),
    ensures
        is_index(index@, rows@, rows@.len()),
{
    match try_find_all_inscriptions(rows) {
        Some(index) => index,
        None => BTreeMap::new(),
    }
}

/// Every row is listed at its height, in the order of the rows.
pub proof fn law_every_inscription_is_listed(rows: Seq<InscriptionRow>, k: int, count: nat)
    requires
        0 <= k < count <= rows.len(),
    ensures
        ({
            let height = rows[k].block_height;
            let place = entries_at(rows, height, k as nat).len();
            &&& place < entries_at(rows, height, count).len()
            &&& entries_at(rows, height, count)[place as int] == entry_of(rows[k])
        }),
    decreases count,
{
    if k < count - 1 {
        law_every_inscription_is_listed(rows, k, (count - 1) as nat);
    }
}

/// Nothing else is listed: every entry is that of a row at its height.
pub proof fn law_only_inscriptions_are_listed(
    rows: Seq<InscriptionRow>,
    height: u64,
    count: nat,
    place: int,
)
    requires
        count <= rows.len(),
        0 <= place < entries_at(rows, height, count).len(),
    ensures
        exists|k: int|
            0 <= k < count && (#[trigger] rows[k]).block_height == height && entries_at(
                rows,
                height,
                count,
            )[place] == entry_of(rows[k]),
    decreases count,
{
    let fewer = (count - 1) as nat;
    if place < entries_at(rows, height, fewer).len() {
        law_only_inscriptions_are_listed(rows, height, fewer, place);
    } else {
        assert(rows[count - 1].block_height == height);
    }
}

/// An inscription on an output that is watched, and how far into the output it lies.
#[derive(Clone, Debug)]
pub struct WatchedSatpoint {
    pub inscription_id: String,
    pub inscription_number: u64,
    pub ordinal_number: u64,
    pub offset: u64,
}

/// Asks for the inscriptions on an output, from its front to its end.
pub fn inscriptions_at_wached_outpoint_query(outpoint: &str) -> (statement: Statement)
    ensures
        statement@ == (StatementView {
            sql: SELECT_AT_OUTPOINT@,
            params: seq![SqlValueView::Text(outpoint@)],
        }),
{
    inscriptions::with_one(SELECT_AT_OUTPOINT, SqlValue::Text(outpoint.to_owned()))
}

/// A row that describes an inscription on an output: its identifier, its
/// number, that of its satoshi, and how far into the output it lies.
pub type WatchedSatpointRow = (String, u64, u64, u64);

/// Whether `satpoint` is what `row` describes.
pub open spec fn is_described_by(satpoint: WatchedSatpoint, row: WatchedSatpointRow) -> bool {
    &&& satpoint.inscription_id@ == row.0@
    &&& satpoint.inscription_number == row.1
    &&& satpoint.ordinal_number == row.2
    &&& satpoint.offset == row.3
}

/// The inscriptions that the rows describe, in order, or, where the database
/// did not answer, why.
pub fn find_inscriptions_at_wached_outpoint(rows: Result<Vec<WatchedSatpointRow>, String>) -> (r:
    Result<Vec<WatchedSatpoint>, String>)
    ensures
        match rows {
            Ok(found) => {
                &&& r matches Ok(satpoints)
                &&& satpoints@.len() == found@.len()
                &&& forall|k: int|
                    0 <= k < found@.len() ==> is_described_by(
                        #[trigger] satpoints@[k],
                        found@[k],
                    )
            },
            Err(reason) => r matches Err(message) && message@
                == "unable to query inscriptions table: "@ + reason@,
        },
{
    match rows {
        Ok(found) => {
            let mut satpoints: Vec<WatchedSatpoint> = Vec::new();
            let mut i: usize = 0;
            while i < found.len()
                invariant
                    i <= found@.len(),
                    satpoints@.len() == i,
                    forall|k: int|
                        0 <= k < i ==> is_described_by(#[trigger] satpoints@[k], found@[k]),
                decreases found@.len() - i,
            {
                let row = &found[i];
                satpoints.push(
                    WatchedSatpoint {
                        inscription_id: row.0.clone(),
                        inscription_number: row.1,
                        ordinal_number: row.2,
                        offset: row.3,
                    },
                );
                i = i + 1;
            }
            Ok(satpoints)
        },
        Err(reason) => {
            let mut message: String = "unable to query inscriptions table: ".to_owned();
            message.append(reason.as_str());
            Err(message)
        },
    }
}

/// Asks for a block in a database of the older form.
pub fn block_at_block_height_sqlite_query(block_height: u32) -> (statement: Statement)
    ensures
        statement@ == (StatementView {
            sql: SELECT_BLOCK@,
            params: seq![SqlValueView::Integer(block_height as u64)],
        }),
{
    inscriptions::with_one(SELECT_BLOCK, SqlValue::Integer(block_height as u64))
}

/// The block in the first row, which holds it in hexadecimal, if there is a row.
pub fn find_block_at_block_height_sqlite(rows: &Vec<String>) -> (r: Option<CompactedBlock>)
    ensures
        match r {
            Some(block) => {
                &&& rows@.len() > 0
                &&& block@ == match cbor::cbor_block(
                    cbor::hex_or_nothing(hex_codec::utf8(rows@[0]@)),
                ) {
                    Some(found) => found,
                    None => block::empty_block(),
                }
            },
            None => rows@.len() == 0,
        },
{
    if rows.len() > 0 {
        Some(CompactedBlock::from_hex_bytes(rows[0].as_str()))
    } else {
        None
    }
}

proof fn lemma_entries_are_the_rows(rows: Seq<InscriptionRow>, height: u64, count: nat)
    requires
        count <= rows.len(),
    ensures
        ({
            let at = rows.take(count as int).filter(
                |row: InscriptionRow| row.block_height == height,
            );
            &&& entries_at(rows, height, count).len() == at.len()
            &&& forall|i: int|
                0 <= i < at.len() ==> #[trigger] entries_at(rows, height, count)[i] == entry_of(
                    at[i],
                )
        }),
    decreases count,
{
    reveal(Seq::filter);
    if count > 0 {
        lemma_entries_are_the_rows(rows, height, (count - 1) as nat);
        assert(rows.take(count as int).drop_last() =~= rows.take(count - 1));
    }
}

/// Inscriptions are listed by height as the rows have them: at each height,
/// the rows of that height in their order, each with the transaction `0x` and
/// the identifier without its last two bytes, and with its own numbers.
pub proof fn law_index_is_the_rows_by_height(
    index: Map<u64, Vec<(TransactionIdentifier, TraversalResult)>>,
    rows: Seq<InscriptionRow>,
    height: u64,
    i: int,
)
    requires
        is_index(index, rows, rows.len()),
    ensures
        ({
            let at = rows.filter(|row: InscriptionRow| row.block_height == height);
            let listed = index[height]@;
            &&& index.dom().contains(height) <==> at.len() > 0
            &&& at.len() > 0 ==> listed.len() == at.len()
            &&& 0 <= i < at.len() ==> {
                &&& listed[i].0.hash@ == "0x"@ + text::cut(at[i].inscription_id@)
                &&& listed[i].1.inscription_number == at[i].inscription_number
                &&& listed[i].1.ordinal_number == at[i].ordinal_number
                &&& listed[i].1.transfers == 0
            }
        }),
{
    let at = rows.filter(|row: InscriptionRow| row.block_height == height);
    lemma_entries_are_the_rows(rows, height, rows.len());
    assert(rows.take(rows.len() as int) =~= rows);
    assert(index.dom().contains(height) <==> entries_at(rows, height, rows.len()).len() > 0);
    if at.len() > 0 {
        let listed = index[height]@;
        assert(entries_view(listed) == entries_at(rows, height, rows.len()));
        assert(listed.len() == entries_view(listed).len());
        if 0 <= i < at.len() {
            assert(entries_view(listed)[i] == (listed[i].0.hash@, listed[i].1));
            assert(entries_at(rows, height, rows.len())[i] == entry_of(at[i]));
        }
    }
}

/// A row is listed at its height, among the others, with its own numbers.
pub proof fn law_every_row_is_listed(
    index: Map<u64, Vec<(TransactionIdentifier, TraversalResult)>>,
    rows: Seq<InscriptionRow>,
    k: int,
) -> (place: int)
    requires
        is_index(index, rows, rows.len()),
        0 <= k < rows.len(),
    ensures
        index.dom().contains(rows[k].block_height),
        0 <= place < index[rows[k].block_height]@.len(),
        ({
            let (transaction, numbers) = index[rows[k].block_height]@[place];
            &&& transaction.hash@ == "0x"@ + text::cut(rows[k].inscription_id@)
            &&& numbers.inscription_number == rows[k].inscription_number
            &&& numbers.ordinal_number == rows[k].ordinal_number
            &&& numbers.transfers == 0
        }),
{
    let height = rows[k].block_height;
    let place = entries_at(rows, height, k as nat).len() as int;
    law_every_inscription_is_listed(rows, k, rows.len());
    assert(index.dom().contains(height) <==> entries_at(rows, height, rows.len()).len() > 0);
    let listed = index[height]@;
    assert(entries_view(listed) == entries_at(rows, height, rows.len()));
    assert(listed.len() == entries_view(listed).len());
    assert(entries_view(listed)[place] == (listed[place].0.hash@, listed[place].1));
    place
}

/// All inscriptions can be listed just when each has an identifier from which
/// two bytes can be cut off.
pub proof fn law_identifiers_that_can_be_listed(rows: Seq<InscriptionRow>)
    ensures
        ids_can_be_cut(rows) <==> forall|k: int|
            0 <= k < rows.len() ==> text::can_cut((#[trigger] rows[k]).inscription_id@),
{
}

/// What is found of an inscription is what the first row with the block's hash
/// says, and nothing is found just when no row has it.
pub proof fn law_origin_is_in_the_first_row_of_the_block(
    rows: Seq<InscriptionOriginRow>,
    block_hash: Seq<char>,
    from: nat,
    k: int,
)
    requires
        from <= k < rows.len(),
        rows[k].block_hash@ == block_hash,
        forall|j: int| from <= j < k ==> (#[trigger] rows[j]).block_hash@ != block_hash,
    ensures
        origin_in_block(rows, block_hash, from) matches Some(result) && {
            &&& result.inscription_number == rows[k].inscription_number
            &&& result.ordinal_number == rows[k].ordinal_number
            &&& result.transfers == 0
        },
    decreases k - from,
{
    if from < k {
        assert(rows[from as int].block_hash@ != block_hash);
        law_origin_is_in_the_first_row_of_the_block(rows, block_hash, from + 1, k);
    }
}

/// Where no row has the block's hash, nothing is found.
pub proof fn law_no_origin_outside_the_block(
    rows: Seq<InscriptionOriginRow>,
    block_hash: Seq<char>,
    from: nat,
)
    requires
        forall|j: int| from <= j < rows.len() ==> (#[trigger] rows[j]).block_hash@ != block_hash,
    ensures
        origin_in_block(rows, block_hash, from) is None,
    decreases rows.len() - from,
{
    if from < rows.len() {
        assert(rows[from as int].block_hash@ != block_hash);
        law_no_origin_outside_the_block(rows, block_hash, from + 1);
    }
}

/// The first row is what is found, and nothing where there is none.
pub proof fn law_first_row<T>(rows: Seq<T>)
    ensures
        rows.len() > 0 ==> first(rows) == Some(rows[0]),
        rows.len() == 0 ==> first(rows) is None,
{
}

/// A row describes an inscription with its identifier, its numbers and its offset.
pub proof fn law_described_satpoint(satpoint: WatchedSatpoint, row: WatchedSatpointRow)
    ensures
        is_described_by(satpoint, row) <==> {
            &&& satpoint.inscription_id@ == row.0@
            &&& satpoint.inscription_number == row.1
            &&& satpoint.ordinal_number == row.2
            &&& satpoint.offset == row.3
        },
{
}

/// All inscriptions are listed by height as the rows have them, whenever they
/// can be listed.
pub proof fn law_listing_is_the_rows_by_height(
    rows: &Vec<InscriptionRow>,
    r: Option<BTreeMap<u64, Vec<(TransactionIdentifier, TraversalResult)>>>,
    height: u64,
    i: int,
)
    requires
        call_ensures(try_find_all_inscriptions, (rows,), r),
    ensures
        r is Some <==> forall|k: int|
            0 <= k < rows@.len() ==> text::can_cut((#[trigger] rows@[k]).inscription_id@),
        r matches Some(index) ==> {
            let at = rows@.filter(|row: InscriptionRow| row.block_height == height);
            &&& index@.dom().contains(height) <==> at.len() > 0
            &&& at.len() > 0 ==> index@[height]@.len() == at.len()
            &&& 0 <= i < at.len() ==> {
                let (transaction, numbers) = index@[height]@[i];
                &&& transaction.hash@ == "0x"@ + text::cut(at[i].inscription_id@)
                &&& numbers.inscription_number == at[i].inscription_number
                &&& numbers.ordinal_number == at[i].ordinal_number
                &&& numbers.transfers == 0
            }
        },
{
    if let Some(index) = r {
        law_index_is_the_rows_by_height(index@, rows@, height, i);
    }
}

/// What is asked for is handed to the database as it is given.
pub proof fn law_questions_are_handed_over(
    number: u64,
    height: u32,
    text: &str,
    by_height: Statement,
    by_ordinal: Statement,
    by_id: Statement,
    by_outpoint: Statement,
    block: Statement,
)
    requires
        call_ensures(latest_inscription_number_at_block_height_query, (&number,), by_height),
        call_ensures(inscription_with_ordinal_number_query, (&number,), by_ordinal),
        call_ensures(inscription_with_id_query, (text,), by_id),
        call_ensures(inscriptions_at_wached_outpoint_query, (text,), by_outpoint),
        call_ensures(block_at_block_height_sqlite_query, (height,), block),
    ensures
        by_height@.params == seq![SqlValueView::Integer(number)],
        by_ordinal@.params == seq![SqlValueView::Integer(number)],
        by_id@.params == seq![SqlValueView::Text(text@)],
        by_outpoint@.params == seq![SqlValueView::Text(text@)],
        block@.params == seq![SqlValueView::Integer(height as u64)],
{
}

/// Of numbers that come back, the first one is found, unchanged.
pub proof fn law_first_number_is_found(
    rows: &Vec<u64>,
    height: Result<Option<u64>, String>,
    below: Result<Option<u64>, String>,
    latest: Result<Option<u64>, String>,
)
    requires
        call_ensures(find_latest_inscription_block_height, (rows,), height),
        call_ensures(find_latest_inscription_number_at_block_height, (rows,), below),
        call_ensures(find_latest_inscription_number, (rows,), latest),
    ensures
        rows@.len() == 0 ==> height == Ok::<Option<u64>, String>(None) && below == height && latest
            == height,
        rows@.len() > 0 ==> height == Ok::<Option<u64>, String>(Some(rows@[0])) && below == height
            && latest == height,
{
}

/// What is found of an inscription are the numbers of the first row with the
/// block's hash, unchanged, and nothing just where no row has it.
pub proof fn law_origin_is_found_by_block(
    block_hash: &str,
    rows: &Vec<InscriptionOriginRow>,
    r: Option<TraversalResult>,
    k: int,
)
    requires
        call_ensures(find_inscription_with_id, (block_hash, rows), r),
    ensures
        r is None <==> forall|j: int|
            0 <= j < rows@.len() ==> (#[trigger] rows@[j]).block_hash@ != block_hash@,
        0 <= k < rows@.len() && rows@[k].block_hash@ == block_hash@ && (forall|j: int|
            0 <= j < k ==> (#[trigger] rows@[j]).block_hash@ != block_hash@) ==> (r matches Some(
            found,
        ) && found.inscription_number == rows@[k].inscription_number && found.ordinal_number
            == rows@[k].ordinal_number && found.transfers == 0),
{
    if forall|j: int| 0 <= j < rows@.len() ==> (#[trigger] rows@[j]).block_hash@ != block_hash@ {
        law_no_origin_outside_the_block(rows@, block_hash@, 0);
    } else {
        let j = choose|j: int|
            0 <= j < rows@.len() && (#[trigger] rows@[j]).block_hash@ == block_hash@;
        lemma_origin_is_found(rows@, block_hash@, 0, j);
    }
    if 0 <= k < rows@.len() && rows@[k].block_hash@ == block_hash@ && (forall|j: int|
        0 <= j < k ==> (#[trigger] rows@[j]).block_hash@ != block_hash@) {
        law_origin_is_in_the_first_row_of_the_block(rows@, block_hash@, 0, k);
    }
}

proof fn lemma_origin_is_found(
    rows: Seq<InscriptionOriginRow>,
    block_hash: Seq<char>,
    from: nat,
    j: int,
)
    requires
        from <= j < rows.len(),
        rows[j].block_hash@ == block_hash,
    ensures
        origin_in_block(rows, block_hash, from) is Some,
    decreases j - from,
{
    if rows[from as int].block_hash@ != block_hash {
        lemma_origin_is_found(rows, block_hash, from + 1, j);
    }
}

} // verus!
