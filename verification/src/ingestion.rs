//! Filling the databases with downloaded blocks.
//!
//! Blocks are downloaded and compacted by many threads and come out of order.
//! Each is stored as it comes. From the height on at which inscriptions are
//! looked for, a block is moreover kept back until the blocks before it were
//! processed.
use crate::block::CompactedBlock;
use crate::block_source::BitcoinBlockFullBreakdown;
use crate::blocks_db::BlocksDbWrite;
use crate::{block_format, block_source, blocks_db};
use std::collections::HashMap;
use vstd::prelude::*;

verus! {

/// Inscriptions are looked for in the blocks above this height.
pub const ORDINAL_COMPUTING_HEIGHT: u64 = 765_000;

/// After so many insertions the database is flushed.
pub const WRITES_PER_FLUSH: u64 = 5_000;

/// Whether the download or compaction of the block at `block_height` is waited
/// for before that of the next one is started.
pub fn is_waited_for(block_height: u64) -> (r: bool)
    ensures
        r == (block_height >= ORDINAL_COMPUTING_HEIGHT),
{
    block_height >= ORDINAL_COMPUTING_HEIGHT
}

/// The compacted form of a downloaded block, and the height under which it is
/// stored: the lower 32 bits of its own. `None` where the block has no compacted form.
pub fn compress_block(block_data: &BitcoinBlockFullBreakdown) -> (r: Option<(u32, CompactedBlock)>)
    ensures
        match r {
            Some((block_index, compacted)) => {
                &&& block_source::full_block_compactable(*block_data)
                &&& block_index == block_data.height as u64 % 0x1_0000_0000
                &&& compacted@ == block_source::full_block(*block_data)
            },
            None => !block_source::full_block_compactable(*block_data),
        },
{
    match CompactedBlock::try_from_full_block(block_data) {
        Some(compacted) => Some(
            ((block_data.height as u64 % 0x1_0000_0000) as u32, compacted),
        ),
        None => None,
    }
}

/// What the ingestion is about to do.
#[derive(Debug)]
pub enum IngestionPhase {
    /// It waits for a block.
    Receiving,
    /// It looks for blocks that can be processed.
    Draining,
    /// It looks whether it is done.
    Counting,
}

/// What is to be done next.
#[derive(Debug)]
pub enum IngestionAction<T> {
    /// The block is to be processed.
    Process(T),
    /// All blocks are stored.
    Complete,
    /// The database is to be flushed.
    Flush,
    /// The next block is to be waited for.
    Receive,
}

/// The state of an ingestion of the blocks of a range.
#[derive(Debug)]
pub struct BlockIngestion<T> {
    number_of_blocks_to_process: u64,
    blocks_stored: u64,
    num_writes: u64,
    cursor: u64,
    inbox: HashMap<u64, T>,
    phase: IngestionPhase,
}

#[verifier::ext_equal]
pub struct IngestionView<T> {
    /// How many blocks there are.
    pub number_of_blocks_to_process: nat,
    /// How many of them are stored.
    pub blocks_stored: nat,
    /// How many were stored since the database was flushed.
    pub num_writes: nat,
    /// The height of the block that is processed next.
    pub cursor: nat,
    /// The blocks that are kept back, by height.
    pub inbox: Map<u64, T>,
    pub phase: IngestionPhase,
}

impl<T> View for BlockIngestion<T> {
    type V = IngestionView<T>;

    closed spec fn view(&self) -> IngestionView<T> {
        IngestionView {
            number_of_blocks_to_process: self.number_of_blocks_to_process as nat,
            blocks_stored: self.blocks_stored as nat,
            num_writes: self.num_writes as nat,
            cursor: self.cursor as nat,
            inbox: self.inbox@,
            phase: self.phase,
        }
    }
}

impl<T> IngestionView<T> {
    /// An ingestion before the first block.
    pub open spec fn start(start_block: u64, end_block: u64) -> IngestionView<T> {
        IngestionView {
            number_of_blocks_to_process: (end_block - start_block + 1) as nat,
            blocks_stored: 0,
            num_writes: 0,
            cursor: start_block as nat,
            inbox: Map::empty(),
            phase: IngestionPhase::Receiving,
        }
    }

    /// Counts stay in their bounds, and no height is the greatest number there is.
    pub open spec fn wf(self) -> bool {
        &&& self.number_of_blocks_to_process <= u64::MAX
        &&& self.blocks_stored <= self.number_of_blocks_to_process
        &&& self.num_writes <= WRITES_PER_FLUSH
        &&& self.phase is Receiving && self.blocks_stored < self.number_of_blocks_to_process
            ==> self.num_writes < WRITES_PER_FLUSH
        &&& self.cursor <= u64::MAX
        &&& forall|height: u64| #[trigger]
            self.inbox.dom().contains(height) ==> height < u64::MAX
    }

    /// The state after a block came. Above the height at which inscriptions
    /// are looked for it is kept back for processing, and an ingestion that
    /// started at height 0 then takes it for the first.
    pub open spec fn received(self, height: u64, block: T) -> IngestionView<T> {
        let counted = IngestionView {
            blocks_stored: self.blocks_stored + 1,
            num_writes: self.num_writes + 1,
            ..self
        };
        if height > ORDINAL_COMPUTING_HEIGHT {
            IngestionView {
                cursor: if self.cursor == 0 {
                    height as nat
                } else {
                    self.cursor
                },
                inbox: self.inbox.insert(height, block),
                phase: IngestionPhase::Draining,
                ..counted
            }
        } else {
            IngestionView { phase: IngestionPhase::Counting, ..counted }
        }
    }

    /// Whether the block that is processed next is there.
    pub open spec fn can_process(self) -> bool {
        self.phase is Draining && self.inbox.dom().contains(self.cursor as u64)
    }

    /// What is to be done next.
    pub open spec fn action(self) -> IngestionAction<T> {
        if self.phase is Receiving {
            IngestionAction::Receive
        } else if self.can_process() {
            IngestionAction::Process(self.inbox[self.cursor as u64])
        } else if self.blocks_stored == self.number_of_blocks_to_process {
            IngestionAction::Complete
        } else if self.num_writes % WRITES_PER_FLUSH as nat == 0 {
            IngestionAction::Flush
        } else {
            IngestionAction::Receive
        }
    }

    /// The state after that.
    pub open spec fn after_action(self) -> IngestionView<T> {
        if self.can_process() {
            IngestionView {
                cursor: self.cursor + 1,
                inbox: self.inbox.remove(self.cursor as u64),
                ..self
            }
        } else {
            IngestionView {
                phase: IngestionPhase::Receiving,
                num_writes: if self.action() is Flush {
                    0
                } else {
                    self.num_writes
                },
                ..self
            }
        }
    }
}

/// Whether `start_block` to `end_block` is a range of blocks that can be counted.
pub open spec fn is_block_range(start_block: u64, end_block: u64) -> bool {
    start_block <= end_block && end_block - start_block < u64::MAX
}

impl<T> BlockIngestion<T> {
    /// An ingestion of the blocks from `start_block` to `end_block`. `None`
    /// where these are no blocks, or more than can be counted.
    pub fn try_new(start_block: u64, end_block: u64) -> (r: Option<BlockIngestion<T>>)
        ensures
            match r {
                Some(ingestion) => {
                    &&& is_block_range(start_block, end_block)
                    &&& ingestion@ == IngestionView::<T>::start(start_block, end_block)
                    &&& ingestion@.wf()
                },
                None => !is_block_range(start_block, end_block),
            },
    {
        broadcast use vstd::std_specs::hash::group_hash_axioms;

        if start_block > end_block || end_block - start_block == u64::MAX {
            return None;
        }
        Some(
            BlockIngestion {
                number_of_blocks_to_process: end_block - start_block + 1,
                blocks_stored: 0,
                num_writes: 0,
                cursor: start_block,
                inbox: HashMap::new(),
                phase: IngestionPhase::Receiving,
            },
        )
    }

    /// Whether a block can be taken: one is waited for, and not all are stored.
    pub fn is_receiving(&self) -> (r: bool)
        requires
            self@.wf(),
        ensures
            r == (self@.phase is Receiving && self@.blocks_stored
                < self@.number_of_blocks_to_process),
    {
        match self.phase {
            IngestionPhase::Receiving => self.blocks_stored < self.number_of_blocks_to_process,
            _ => false,
        }
    }

    /// Takes a block, in both its forms, and says what is written for it.
    pub fn receive(
        &mut self,
        block_height: u32,
        compacted_block: &CompactedBlock,
        raw_height: u64,
        raw_block: T,
    ) -> (writes: Vec<BlocksDbWrite>)
        requires
            old(self)@.wf(),
            old(self)@.phase is Receiving,
            old(self)@.blocks_stored < old(self)@.number_of_blocks_to_process,
            raw_height < u64::MAX,
        ensures
            final(self)@ == old(self)@.received(raw_height, raw_block),
            final(self)@.wf(),
            blocks_db::writes_view(writes@) == blocks_db::insertion(
                block_height,
                block_format::block_bytes(compacted_block@),
            ),
    {
        broadcast use vstd::std_specs::hash::group_hash_axioms;

        let writes = blocks_db::insert_entry_in_blocks(block_height, compacted_block);
        self.blocks_stored = self.blocks_stored + 1;
        self.num_writes = self.num_writes + 1;
        if raw_height > ORDINAL_COMPUTING_HEIGHT {
            if self.cursor == 0 {
                self.cursor = raw_height;
            }
            self.inbox.insert(raw_height, raw_block);
            self.phase = IngestionPhase::Draining;
        } else {
            self.phase = IngestionPhase::Counting;
        }
        writes
    }

    /// Says what is to be done next. After `Complete` there is nothing more.
    pub fn next_action(&mut self) -> (action: IngestionAction<T>)
        requires
            old(self)@.wf(),
        ensures
            action == old(self)@.action(),
            final(self)@ == old(self)@.after_action(),
            final(self)@.wf(),
    {
        broadcast use vstd::std_specs::hash::group_hash_axioms;

        match self.phase {
            IngestionPhase::Receiving => {
                return IngestionAction::Receive;
            },
            IngestionPhase::Draining => {
                let cursor: u64 = self.cursor;
                match self.inbox.remove(&cursor) {
                    Some(next_block) => {
                        self.cursor = cursor + 1;
                        return IngestionAction::Process(next_block);
                    },
                    None => {
                        assert(self.inbox@ =~= old(self).inbox@);
                    },
                }
            },
            IngestionPhase::Counting => {},
        }
        self.phase = IngestionPhase::Receiving;
        if self.blocks_stored == self.number_of_blocks_to_process {
            IngestionAction::Complete
        } else if self.num_writes % WRITES_PER_FLUSH == 0 {
            self.num_writes = 0;
            IngestionAction::Flush
        } else {
            IngestionAction::Receive
        }
    }
}

} // verus!
