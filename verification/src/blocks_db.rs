//! The database of blocks: what is written to it, and what its entries say.
//!
//! A block stands under its height, and the height of the block that was
//! inserted last under a key of its own.
use crate::block::CompactedBlock;
use crate::block_format::{BlockParseError, Parsed};
use crate::lazy_block::LazyBlock;
use crate::{block_format, hex_codec, wire};
use vstd::prelude::*;

verus! {

/// A change to the database.
#[derive(Debug)]
pub enum BlocksDbWrite {
    Put { key: Vec<u8>, value: Vec<u8> },
    Delete { key: Vec<u8> },
}

pub enum WriteView {
    Put(Seq<u8>, Seq<u8>),
    Delete(Seq<u8>),
}

impl View for BlocksDbWrite {
    type V = WriteView;

    open spec fn view(&self) -> WriteView {
        match *self {
            BlocksDbWrite::Put { key, value } => WriteView::Put(key@, value@),
            BlocksDbWrite::Delete { key } => WriteView::Delete(key@),
        }
    }
}

pub open spec fn writes_view(writes: Seq<BlocksDbWrite>) -> Seq<WriteView> {
    writes.map_values(|write: BlocksDbWrite| write@)
}

/// The database's contents after a change.
pub open spec fn apply_write(db: Map<Seq<u8>, Seq<u8>>, write: WriteView) -> Map<
    Seq<u8>,
    Seq<u8>,
> {
    match write {
        WriteView::Put(key, value) => db.insert(key, value),
        WriteView::Delete(key) => db.remove(key),
    }
}

/// The database's contents after changes, made in order.
pub open spec fn apply_writes(db: Map<Seq<u8>, Seq<u8>>, writes: Seq<WriteView>) -> Map<
    Seq<u8>,
    Seq<u8>,
>
    decreases writes.len(),
{
    if writes.len() == 0 {
        db
    } else {
        apply_write(apply_writes(db, writes.drop_last()), writes.last())
    }
}

/// The key of the block at `height`.
pub open spec fn key_of_block(height: u32) -> Seq<u8> {
    wire::be_bytes(height as nat, 4)
}

/// The key of the height of the block that was inserted last.
pub open spec fn key_of_last_insert() -> Seq<u8> {
    hex_codec::utf8("metadata::last_insert"@)
}

/// The key of the block at `block_height`.
pub fn block_key(block_height: u32) -> (key: Vec<u8>)
    ensures
        key@ == key_of_block(block_height),
{
    let mut key: Vec<u8> = Vec::new();
    wire::push_be(&mut key, block_height as u64, 4);
    assert(key@ =~= key_of_block(block_height));
    key
}

/// The key of the height of the block that was inserted last.
pub fn last_insert_key() -> (key: Vec<u8>)
    ensures
        key@ == key_of_last_insert(),
{
    let mut key: Vec<u8> = Vec::new();
    wire::push_all(&mut key, "metadata::last_insert".as_bytes());
    assert(key@ =~= key_of_last_insert());
    key
}

/// What is written when a block is inserted: the block, and its height as the last one.
pub open spec fn insertion(height: u32, stored: Seq<u8>) -> Seq<WriteView> {
    seq![
        WriteView::Put(key_of_block(height), stored),
        WriteView::Put(key_of_last_insert(), key_of_block(height)),
    ]
}

/// What inserting a block writes.
pub fn insert_entry_in_blocks(block_height: u32, compacted_block: &CompactedBlock) -> (writes: Vec<
    BlocksDbWrite,
>)
    ensures
        writes_view(writes@) == insertion(
            block_height,
            block_format::block_bytes(compacted_block@),
        ),
{
    let mut bytes: Vec<u8> = Vec::new();
    compacted_block.serialize(&mut bytes);
    assert(bytes@ =~= block_format::block_bytes(compacted_block@));
    let mut writes: Vec<BlocksDbWrite> = Vec::new();
    writes.push(BlocksDbWrite::Put { key: block_key(block_height), value: bytes });
    writes.push(BlocksDbWrite::Put { key: last_insert_key(), value: block_key(block_height) });
    assert(writes_view(writes@) =~= insertion(
        block_height,
        block_format::block_bytes(compacted_block@),
    ));
    writes
}

/// The height that an entry for the last insertion holds: the number in its
/// first four bytes, and 0 where there is no entry.
pub open spec fn last_inserted(stored: Option<Seq<u8>>) -> nat {
    match stored {
        Some(bytes) => wire::be_value(bytes.take(4)),
        None => 0,
    }
}

/// The entry's bytes, if there is an entry.
pub open spec fn stored_view(stored: Option<&[u8]>) -> Option<Seq<u8>> {
    match stored {
        Some(bytes) => Some(bytes@),
        None => None,
    }
}

/// The height of the block that was inserted last, of which `stored` is the entry.
pub fn find_last_block_inserted(stored: Option<&[u8]>) -> (height: u32)
    requires
        stored matches Some(bytes) ==> bytes@.len() >= 4,
    ensures
        height == last_inserted(stored_view(stored)),
{
    match stored {
        Some(bytes) => {
            let height: u64 = wire::be_at(bytes, 0, 4);
            proof {
                wire::lemma_be_limits();
                assert(bytes@.subrange(0, 4) =~= bytes@.take(4));
            }
            height as u32
        },
        None => 0,
    }
}

/// The block whose entry is `stored`. An entry that holds no block is an error.
pub fn try_find_block_at_block_height(stored: Option<&[u8]>) -> (r: Result<
    Option<CompactedBlock>,
    BlockParseError,
>)
    ensures
        match stored {
            None => r == Ok::<Option<CompactedBlock>, BlockParseError>(None),
            Some(bytes) => match block_format::parse_block(bytes@) {
                Parsed::Value(read, _) => r matches Ok(Some(block)) && block@ == read,
                Parsed::Failure(e) => r == Err::<Option<CompactedBlock>, BlockParseError>(e),
            },
        },
{
    match stored {
        None => Ok(None),
        Some(bytes) => match CompactedBlock::try_deserialize(bytes) {
            Ok(block) => Ok(Some(block)),
            Err(e) => Err(e),
        },
    }
}

/// The block whose entry is `stored`, if there is an entry.
pub fn find_block_at_block_height(stored: Option<&[u8]>) -> (r: Option<CompactedBlock>)
    requires
        stored matches Some(bytes) ==> block_format::parse_block(bytes@) is Value,
    ensures
        match stored {
            None => r is None,
            Some(bytes) => r matches Some(block) && block_format::parse_block(bytes@)->Value_0
                == block@,
        },
{
    match stored {
        None => None,
        Some(bytes) => match CompactedBlock::try_deserialize(bytes) {
            Ok(block) => Some(block),
            Err(_) => None,
        },
    }
}

/// The block whose entry is `stored`, left in its stored form, if there is an entry.
pub fn find_lazy_block_at_block_height(stored: Option<Vec<u8>>) -> (r: Option<LazyBlock>)
    requires
        stored matches Some(bytes) ==> bytes@.len() >= 2,
    ensures
        match stored {
            None => r is None,
            Some(bytes) => r matches Some(block) && block.bytes == bytes && block.tx_len
                == wire::be_value(bytes@.subrange(0, 2)),
        },
{
    match stored {
        None => None,
        Some(bytes) => Some(LazyBlock::new(bytes)),
    }
}

/// What removing a block writes.
pub fn remove_entry_from_blocks(block_height: u32) -> (write: BlocksDbWrite)
    ensures
        write@ == WriteView::Delete(key_of_block(block_height)),
{
    BlocksDbWrite::Delete { key: block_key(block_height) }
}

/// What removes the blocks from `start` on, `count` of them.
pub open spec fn removals(start: u32, count: nat) -> Seq<WriteView> {
    Seq::new(count, |k: int| WriteView::Delete(key_of_block((start + k) as u32)))
}

/// How many heights there are from `start` to `end`.
pub open spec fn range_len(start: u32, end: u32) -> nat {
    if start <= end {
        (end - start + 1) as nat
    } else {
        0
    }
}

/// What is written when the blocks from `start` to `end` are removed: the one
/// before them is then the last one.
pub open spec fn range_removal(start: u32, end: u32) -> Seq<WriteView> {
    removals(start, range_len(start, end)).push(
        WriteView::Put(key_of_last_insert(), key_of_block((start - 1) as u32)),
    )
}

/// What removing the blocks from `start_block` to `end_block` writes.
pub fn delete_blocks_in_block_range(start_block: u32, end_block: u32) -> (writes: Vec<
    BlocksDbWrite,
>)
    requires
        start_block >= 1,
    ensures
        writes_view(writes@) == range_removal(start_block, end_block),
{
    let mut writes: Vec<BlocksDbWrite> = Vec::new();
    let mut block_height: u64 = start_block as u64;
    assert(writes_view(writes@) =~= removals(start_block, 0));
    while block_height <= end_block as u64
        invariant
            start_block <= block_height,
            start_block <= end_block ==> block_height <= end_block + 1,
            start_block > end_block ==> block_height == start_block,
            writes_view(writes@) == removals(start_block, (block_height - start_block) as nat),
        decreases end_block + 1 - block_height,
    {
        let ghost before = writes@;
        writes.push(remove_entry_from_blocks(block_height as u32));
        assert(writes_view(writes@) =~= writes_view(before).push(
            WriteView::Delete(key_of_block(block_height as u32)),
        ));
        assert(writes_view(writes@) =~= removals(
            start_block,
            (block_height + 1 - start_block) as nat,
        ));
        block_height = block_height + 1;
    }
    let ghost before = writes@;
    writes.push(BlocksDbWrite::Put { key: last_insert_key(), value: block_key(start_block - 1) });
    assert(writes_view(writes@) =~= writes_view(before).push(writes@.last()@));
    writes
}

/// A key of a block is never that of another block, nor that of the last insertion.
pub proof fn law_keys_are_distinct(a: u32, b: u32)
    ensures
        key_of_block(a) == key_of_block(b) ==> a == b,
        key_of_block(a) != key_of_last_insert(),
{
    wire::lemma_be_limits();
    wire::law_be_read_of_write(a as nat, 4);
    wire::law_be_read_of_write(b as nat, 4);
    wire::lemma_be_bytes_len(a as nat, 4);
    reveal_strlit("metadata::last_insert");
    let text = "metadata::last_insert"@;
    assert(vstd::utf8::is_ascii_chars(text));
    vstd::utf8::is_ascii_chars_encode_utf8(text);
}

/// An inserted block is found again at its height, and is the last one
/// inserted. Other blocks stay as they are.
pub proof fn law_inserted_block_is_found(
    db: Map<Seq<u8>, Seq<u8>>,
    height: u32,
    block: &CompactedBlock,
    other: u32,
)
    ensures
        ({
            let stored = block_format::block_bytes(block@);
            let after = apply_writes(db, insertion(height, stored));
            &&& after.dom().contains(key_of_block(height))
            &&& after[key_of_block(height)] == stored
            &&& block_format::parse_block(stored) == Parsed::Value(block@, stored.len() as int)
            &&& after.dom().contains(key_of_last_insert())
            &&& last_inserted(Some(after[key_of_last_insert()])) == height
            &&& other != height ==> {
                &&& after.dom().contains(key_of_block(other)) == db.dom().contains(
                    key_of_block(other),
                )
                &&& after[key_of_block(other)] == db[key_of_block(other)]
            }
        }),
{
    let stored = block_format::block_bytes(block@);
    law_keys_are_distinct(height, other);
    law_keys_are_distinct(other, height);
    crate::block::law_block_wf(block);
    block_format::law_block_read_of_write(block@, Seq::empty());
    assert(stored + Seq::empty() =~= stored);
    lemma_insertion(db, height, stored);
    wire::lemma_be_limits();
    wire::lemma_be_bytes_len(height as nat, 4);
    wire::law_be_read_of_write(height as nat, 4);
    assert(key_of_block(height).take(4) =~= key_of_block(height));
}

proof fn lemma_removals(db: Map<Seq<u8>, Seq<u8>>, start: u32, count: nat, key: Seq<u8>)
    requires
        start + count <= 0x1_0000_0000,
    ensures
        ({
            let after = apply_writes(db, removals(start, count));
            let removed = exists|k: int| 0 <= k < count && key == #[trigger] key_of_block(
                (start + k) as u32,
            );
            &&& after.dom().contains(key) == (db.dom().contains(key) && !removed)
            &&& !removed ==> after[key] == db[key]
        }),
    decreases count,
{
    if count > 0 {
        let fewer = (count - 1) as nat;
        let writes = removals(start, count);
        assert(writes.drop_last() =~= removals(start, fewer));
        lemma_removals(db, start, fewer, key);
        let last = key_of_block((start + fewer) as u32);
        assert(writes.last() == WriteView::Delete(last));
        if key == last {
            assert(0 <= fewer < count && key == key_of_block((start + fewer) as u32));
        }
    }
}

/// Removing a range removes the blocks in it and no others, and makes the one
/// before the range the last one inserted.
pub proof fn law_removed_range_is_gone(
    db: Map<Seq<u8>, Seq<u8>>,
    start: u32,
    end: u32,
    height: u32,
)
    requires
        start >= 1,
    ensures
        ({
            let after = apply_writes(db, range_removal(start, end));
            let key = key_of_block(height);
            &&& after.dom().contains(key) == (db.dom().contains(key) && !(start <= height <= end))
            &&& !(start <= height <= end) ==> after[key] == db[key]
            &&& after.dom().contains(key_of_last_insert())
            &&& last_inserted(Some(after[key_of_last_insert()])) == start - 1
        }),
{
    let count = range_len(start, end);
    let key = key_of_block(height);
    let writes = range_removal(start, end);
    assert(writes.drop_last() =~= removals(start, count));
    lemma_removals(db, start, count, key);
    law_keys_are_distinct(height, height);
    if start <= height <= end {
        assert(key == key_of_block((start + (height - start)) as u32));
    }
    assert forall|k: int| 0 <= k < count && key == #[trigger] key_of_block(
        (start + k) as u32,
    ) implies start <= height <= end by {
        law_keys_are_distinct(height, (start + k) as u32);
    }
    let last = key_of_block((start - 1) as u32);
    wire::lemma_be_limits();
    wire::lemma_be_bytes_len((start - 1) as nat, 4);
    wire::law_be_read_of_write((start - 1) as nat, 4);
    assert(last.take(4) =~= last);
}

/// A block that is removed right after it was inserted is not there, and the
/// other blocks are as they were.
pub proof fn law_removal_undoes_insertion(
    db: Map<Seq<u8>, Seq<u8>>,
    height: u32,
    stored: Seq<u8>,
    other: u32,
)
    requires
        !db.dom().contains(key_of_block(height)),
    ensures
        ({
            let inserted = apply_writes(db, insertion(height, stored));
            let after = apply_write(inserted, WriteView::Delete(key_of_block(height)));
            let key = key_of_block(other);
            &&& after.dom().contains(key) == db.dom().contains(key)
            &&& db.dom().contains(key) ==> after[key] == db[key]
        }),
{
    law_keys_are_distinct(other, height);
    lemma_insertion(db, height, stored);
}

/// The database's contents after blocks were inserted, one after the other.
pub open spec fn after_insertions(
    db: Map<Seq<u8>, Seq<u8>>,
    inserted: Seq<(u32, Seq<u8>)>,
) -> Map<Seq<u8>, Seq<u8>>
    decreases inserted.len(),
{
    if inserted.len() == 0 {
        db
    } else {
        apply_writes(
            after_insertions(db, inserted.drop_last()),
            insertion(inserted.last().0, inserted.last().1),
        )
    }
}

proof fn lemma_insertion(db: Map<Seq<u8>, Seq<u8>>, height: u32, stored: Seq<u8>)
    ensures
        apply_writes(db, insertion(height, stored)) == db.insert(
            key_of_block(height),
            stored,
        ).insert(key_of_last_insert(), key_of_block(height)),
{
    let writes = insertion(height, stored);
    let first = writes.drop_last();
    assert(first =~= seq![writes[0]]);
    assert(first.drop_last() =~= Seq::empty());
    assert(apply_writes(db, first.drop_last()) == db);
    assert(apply_writes(db, first) == apply_write(db, writes[0]));
}

/// Of the blocks that were inserted at one height, the last one is there.
pub proof fn law_latest_insertion_stays(
    db: Map<Seq<u8>, Seq<u8>>,
    inserted: Seq<(u32, Seq<u8>)>,
    j: int,
)
    requires
        0 <= j < inserted.len(),
        forall|k: int| j < k < inserted.len() ==> (#[trigger] inserted[k]).0 != inserted[j].0,
    ensures
        ({
            let after = after_insertions(db, inserted);
            &&& after.dom().contains(key_of_block(inserted[j].0))
            &&& after[key_of_block(inserted[j].0)] == inserted[j].1
            &&& last_inserted(Some(after[key_of_last_insert()])) == inserted.last().0
        }),
    decreases inserted.len(),
{
    let front = inserted.drop_last();
    let (height, stored) = inserted.last();
    lemma_insertion(after_insertions(db, front), height, stored);
    law_keys_are_distinct(inserted[j].0, height);
    if j < front.len() {
        assert forall|k: int| j < k < front.len() implies (#[trigger] front[k]).0
            != front[j].0 by {
            assert(inserted[k].0 != inserted[j].0);
        }
        law_latest_insertion_stays(db, front, j);
        assert(inserted[inserted.len() - 1].0 != inserted[j].0);
    }
    wire::lemma_be_limits();
    wire::lemma_be_bytes_len(height as nat, 4);
    wire::law_be_read_of_write(height as nat, 4);
    assert(key_of_block(height).take(4) =~= key_of_block(height));
}

/// Changes are made in their order; one entry is put or deleted by each, and
/// no other is touched.
pub proof fn law_writes_are_made_in_order(
    db: Map<Seq<u8>, Seq<u8>>,
    writes: Seq<WriteView>,
    key: Seq<u8>,
    value: Seq<u8>,
    other: Seq<u8>,
)
    ensures
        apply_writes(db, Seq::empty()) == db,
        ({
            let before = apply_writes(db, writes);
            let put = apply_writes(db, writes.push(WriteView::Put(key, value)));
            let deleted = apply_writes(db, writes.push(WriteView::Delete(key)));
            &&& put.dom().contains(key) && put[key] == value
            &&& !deleted.dom().contains(key)
            &&& other != key ==> {
                &&& put.dom().contains(other) == before.dom().contains(other)
                &&& before.dom().contains(other) ==> put[other] == before[other]
                &&& deleted.dom().contains(other) == before.dom().contains(other)
                &&& before.dom().contains(other) ==> deleted[other] == before[other]
            }
        }),
{
    assert(writes.push(WriteView::Put(key, value)).drop_last() =~= writes);
    assert(writes.push(WriteView::Delete(key)).drop_last() =~= writes);
}

/// A change is what it says.
pub proof fn law_write_parts(key: Vec<u8>, value: Vec<u8>)
    ensures
        (BlocksDbWrite::Put { key, value })@ == WriteView::Put(key@, value@),
        (BlocksDbWrite::Delete { key })@ == WriteView::Delete(key@),
{
}

/// Changes are what each of them is, in their order.
pub proof fn law_writes_parts(writes: Seq<BlocksDbWrite>, k: int)
    requires
        0 <= k < writes.len(),
    ensures
        writes_view(writes).len() == writes.len(),
        writes_view(writes)[k] == writes[k]@,
{
}

/// A block's key is its height in four bytes, the most significant first, and
/// the height of the last insertion is kept in the same form.
pub proof fn law_key_is_the_height(height: u32, more: Seq<u8>)
    ensures
        key_of_block(height).len() == 4,
        height == key_of_block(height)[0] * 0x100_0000 + key_of_block(height)[1] * 0x1_0000
            + key_of_block(height)[2] * 0x100 + key_of_block(height)[3],
        last_inserted(Some(key_of_block(height) + more)) == height,
        last_inserted(None) == 0,
{
    let n = height as nat;
    reveal_with_fuel(wire::be_bytes, 5);
    wire::lemma_be_limits();
    wire::lemma_be_bytes_len(n, 4);
    wire::law_be_read_of_write(n, 4);
    let key = key_of_block(height);
    assert(key[3] == n % 256);
    assert(key[2] == (n / 256) % 256);
    assert(key[1] == (n / 256 / 256) % 256);
    assert(key[0] == (n / 256 / 256 / 256) % 256);
    assert((key + more).take(4) =~= key);
}

/// The last insertion has a key of its own.
pub proof fn law_key_of_last_insert()
    ensures
        key_of_last_insert() == vstd::utf8::encode_utf8("metadata::last_insert"@),
{
}

/// The height of the last insertion is the number in the first four bytes of its entry.
pub proof fn law_last_inserted(bytes: Seq<u8>)
    requires
        bytes.len() >= 4,
    ensures
        last_inserted(Some(bytes)) == bytes[0] * 0x100_0000 + bytes[1] * 0x1_0000 + bytes[2] * 0x100
            + bytes[3],
{
    reveal_with_fuel(wire::be_value, 5);
    let four = bytes.take(4);
    assert(four.drop_last().drop_last().drop_last().drop_last().len() == 0);
}

/// Inserting a block changes its own entry and that of the last insertion, and nothing else.
pub proof fn law_insertion_changes_two_entries(
    db: Map<Seq<u8>, Seq<u8>>,
    height: u32,
    stored: Seq<u8>,
    key: Seq<u8>,
)
    ensures
        ({
            let after = apply_writes(db, insertion(height, stored));
            &&& after[key_of_block(height)] == stored
            &&& after[key_of_last_insert()] == key_of_block(height)
            &&& key != key_of_block(height) && key != key_of_last_insert() ==> {
                &&& after.dom().contains(key) == db.dom().contains(key)
                &&& db.dom().contains(key) ==> after[key] == db[key]
            }
        }),
{
    lemma_insertion(db, height, stored);
    law_keys_are_distinct(height, height);
}

/// Removing a range changes nothing but the entries of its blocks and that of
/// the last insertion.
pub proof fn law_range_removal_changes_nothing_else(
    db: Map<Seq<u8>, Seq<u8>>,
    start: u32,
    end: u32,
    key: Seq<u8>,
)
    requires
        start >= 1,
        key != key_of_last_insert(),
        forall|height: u32| start <= height <= end ==> key != #[trigger] key_of_block(height),
    ensures
        ({
            let after = apply_writes(db, range_removal(start, end));
            &&& after.dom().contains(key) == db.dom().contains(key)
            &&& db.dom().contains(key) ==> after[key] == db[key]
        }),
{
    let count = range_len(start, end);
    let writes = range_removal(start, end);
    assert(writes.drop_last() =~= removals(start, count));
    lemma_removals(db, start, count, key);
}

/// What is kept of an entry is its bytes.
pub proof fn law_stored_entry(bytes: &[u8])
    ensures
        stored_view(Some(bytes)) == Some(bytes@),
        stored_view(None) is None,
{
}

/// What is found at the height of an inserted block is the block, and its
/// height is that of the last insertion.
pub proof fn law_insert_and_find(
    db: Map<Seq<u8>, Seq<u8>>,
    height: u32,
    block: &CompactedBlock,
    writes: Vec<BlocksDbWrite>,
    entry: &[u8],
    found: Option<CompactedBlock>,
    tried: Result<Option<CompactedBlock>, BlockParseError>,
    last_entry: &[u8],
    last: u32,
)
    requires
        call_ensures(insert_entry_in_blocks, (height, block), writes),
        entry@ == apply_writes(db, writes_view(writes@))[key_of_block(height)],
        call_ensures(find_block_at_block_height, (Some(entry),), found),
        call_ensures(try_find_block_at_block_height, (Some(entry),), tried),
        last_entry@ == apply_writes(db, writes_view(writes@))[key_of_last_insert()],
        call_ensures(find_last_block_inserted, (Some(last_entry),), last),
    ensures
        found matches Some(read) && read@ == block@,
        tried matches Ok(Some(read)) && read@ == block@,
        last == height,
{
    law_inserted_block_is_found(db, height, block, height);
}

/// What removes the blocks of a range, removes them and no others.
pub proof fn law_range_is_removed(
    db: Map<Seq<u8>, Seq<u8>>,
    start: u32,
    end: u32,
    writes: Vec<BlocksDbWrite>,
    height: u32,
)
    requires
        start >= 1,
        call_ensures(delete_blocks_in_block_range, (start, end), writes),
    ensures
        ({
            let after = apply_writes(db, writes_view(writes@));
            let key = key_of_block(height);
            &&& after.dom().contains(key) == (db.dom().contains(key) && !(start <= height <= end))
            &&& !(start <= height <= end) ==> after[key] == db[key]
            &&& last_inserted(Some(after[key_of_last_insert()])) == start - 1
        }),
{
    law_removed_range_is_gone(db, start, end, height);
}

/// What removes a block, removes it and no other.
pub proof fn law_one_block_is_removed(
    db: Map<Seq<u8>, Seq<u8>>,
    height: u32,
    write: BlocksDbWrite,
    other: u32,
)
    requires
        call_ensures(remove_entry_from_blocks, (height,), write),
    ensures
        ({
            let after = apply_write(db, write@);
            let key = key_of_block(other);
            &&& !after.dom().contains(key_of_block(height))
            &&& other != height ==> after.dom().contains(key) == db.dom().contains(key)
            &&& other != height ==> after[key] == db[key]
        }),
{
    law_keys_are_distinct(height, other);
}

/// A block that is left in its stored form keeps all of its bytes, and has as
/// many transactions as its first two bytes say.
pub proof fn law_lazy_block_keeps_its_bytes(bytes: Vec<u8>, found: Option<LazyBlock>)
    requires
        bytes@.len() >= 2,
        call_ensures(find_lazy_block_at_block_height, (Some(bytes),), found),
    ensures
        found matches Some(lazy) && lazy.bytes@ == bytes@ && lazy.tx_len == 256 * bytes@[0]
            + bytes@[1],
{
    reveal_with_fuel(wire::be_value, 3);
    let two = bytes@.subrange(0, 2);
    assert(two.drop_last().drop_last().len() == 0);
}

} // verus!
