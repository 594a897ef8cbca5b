//! Blocks that stay in their stored form and are decoded one transaction at a time.
//!
//! A lazy block starts with the number of its transactions, in two bytes, and
//! with one byte for the inputs and one for the outputs of each of them. The
//! coinbase's identifier and value follow, then the transactions themselves.
use crate::block::{InputView, TransactionView};
use crate::{block_format, wire};
use vstd::prelude::*;

verus! {

pub const TXID_LEN: usize = 8;

pub const SATS_LEN: usize = 8;

/// Identifier, height, output index and value of an input.
pub const INPUT_SIZE: usize = 21;

pub const OUTPUT_SIZE: usize = 8;

/// The largest number of transactions, and the largest transaction index,
/// whose place in the header is still a sixteen bit number.
pub const MAX_TX_LEN: u16 = 32766;

#[derive(Debug)]
pub struct LazyBlock {
    pub bytes: Vec<u8>,
    pub tx_len: u16,
}

#[derive(Debug)]
pub struct LazyBlockTransaction {
    pub txid: [u8; 8],
    pub inputs: Vec<LazyBlockTransactionInput>,
    pub outputs: Vec<u64>,
}

#[derive(Debug)]
pub struct LazyBlockTransactionInput {
    pub txin: [u8; 8],
    pub block_height: u32,
    pub vout: u8,
    pub txin_value: u64,
}

impl View for LazyBlockTransactionInput {
    type V = InputView;

    open spec fn view(&self) -> InputView {
        InputView {
            txin: self.txin@,
            block_height: self.block_height,
            vout: self.vout as u16,
            value: self.txin_value,
        }
    }
}

pub open spec fn lazy_inputs_view(inputs: Seq<LazyBlockTransactionInput>) -> Seq<InputView> {
    inputs.map_values(|input: LazyBlockTransactionInput| input@)
}

impl View for LazyBlockTransaction {
    type V = TransactionView;

    open spec fn view(&self) -> TransactionView {
        TransactionView {
            txid: self.txid@,
            inputs: lazy_inputs_view(self.inputs@),
            outputs: self.outputs@,
        }
    }
}

/// A reader's place in a byte string.
#[derive(Debug)]
pub struct Cursor<'a> {
    pub bytes: &'a Vec<u8>,
    pub position: u64,
}

/// The input whose encoding starts at `pos`.
pub open spec fn lazy_input_at(bytes: Seq<u8>, pos: int) -> InputView {
    InputView {
        txin: bytes.subrange(pos, pos + 8),
        block_height: wire::be_value(bytes.subrange(pos + 8, pos + 12)) as u32,
        vout: bytes[pos + 12] as u16,
        value: block_format::word_at(bytes, pos + 13) as u64,
    }
}

pub open spec fn lazy_inputs_at(bytes: Seq<u8>, pos: int, count: nat) -> Seq<InputView> {
    Seq::new(count, |k: int| lazy_input_at(bytes, pos + 21 * k))
}

/// The eight bytes at `pos`, or eight zeros where the bytes end before that.
pub open spec fn txid_at(bytes: Seq<u8>, pos: int) -> Seq<u8> {
    if pos + 8 <= bytes.len() {
        bytes.subrange(pos, pos + 8)
    } else {
        seq![0u8, 0, 0, 0, 0, 0, 0, 0]
    }
}

/// Whether `inputs_len` inputs and `outputs_len` outputs can be read at `pos`.
pub open spec fn body_readable(
    bytes: Seq<u8>,
    pos: int,
    inputs_len: nat,
    outputs_len: nat,
) -> bool {
    ||| inputs_len == 0 && outputs_len == 0
    ||| pos + 21 * inputs_len + 8 * outputs_len <= bytes.len()
}

impl<'a> Cursor<'a> {
    /// A cursor at the start of `bytes`.
    pub fn new(bytes: &'a Vec<u8>) -> (cursor: Cursor<'a>)
        ensures
            cursor.bytes == bytes,
            cursor.position == 0,
    {
        Cursor { bytes, position: 0 }
    }

    pub fn set_position(&mut self, position: u64)
        ensures
            final(self).bytes == old(self).bytes,
            final(self).position == position,
    {
        self.position = position;
    }

    /// Reads an identifier. Where the bytes end too early the identifier is
    /// all zeros and the cursor goes to the end.
    fn read_txid(&mut self) -> (txid: [u8; 8])
        ensures
            final(self).bytes == old(self).bytes,
            txid@ == txid_at(old(self).bytes@, old(self).position as int),
            final(self).position == if old(self).position + 8 <= old(self).bytes@.len() {
                old(self).position + 8
            } else {
                old(self).bytes@.len() as int
            },
    {
        let len: u64 = self.bytes.len() as u64;
        if self.position <= len && len - self.position >= 8 {
            let at: usize = self.position as usize;
            self.position = self.position + 8;
            wire::eight_bytes_at(self.bytes.as_slice(), at)
        } else {
            self.position = len;
            let zeros: [u8; 8] = [0, 0, 0, 0, 0, 0, 0, 0];
            assert(zeros@ =~= seq![0u8, 0, 0, 0, 0, 0, 0, 0]);
            zeros
        }
    }
}

/// How many inputs the header gives for the transaction at `index`.
pub open spec fn inputs_count(bytes: Seq<u8>, index: int) -> nat {
    bytes[2 + 2 * index] as nat
}

/// How many outputs the header gives for the transaction at `index`.
pub open spec fn outputs_count(bytes: Seq<u8>, index: int) -> nat {
    bytes[3 + 2 * index] as nat
}

/// How many bytes the transaction at `index` takes.
pub open spec fn transaction_size(bytes: Seq<u8>, index: int) -> nat {
    8 + 21 * inputs_count(bytes, index) + 8 * outputs_count(bytes, index)
}

/// How many bytes the first `count` transactions take.
pub open spec fn transactions_size(bytes: Seq<u8>, count: nat) -> nat
    decreases count,
{
    if count == 0 {
        0
    } else {
        transactions_size(bytes, (count - 1) as nat) + transaction_size(bytes, count - 1)
    }
}

proof fn lemma_transactions_size_bound(bytes: Seq<u8>, count: nat)
    ensures
        transactions_size(bytes, count) <= 7403 * count,
    decreases count,
{
    if count > 0 {
        lemma_transactions_size_bound(bytes, (count - 1) as nat);
    }
}

impl LazyBlock {
    /// Where the coinbase's data stand.
    pub open spec fn coinbase_pos(&self) -> int {
        2 + 2 * self.tx_len
    }

    /// Where the transaction at `index` stands.
    pub open spec fn transaction_pos(&self, index: int) -> int {
        self.coinbase_pos() + 16 + transactions_size(self.bytes@, index as nat)
    }

    /// Whether the header has the counts of the transaction at `index`.
    pub open spec fn format_readable(&self, index: int) -> bool {
        0 <= index <= MAX_TX_LEN && 3 + 2 * index < self.bytes@.len()
    }

    /// Whether the transaction at `index` can be decoded.
    pub open spec fn transaction_readable(&self, index: int) -> bool {
        &&& self.format_readable(index)
        &&& body_readable(
            self.bytes@,
            self.transaction_pos(index) + 8,
            inputs_count(self.bytes@, index),
            outputs_count(self.bytes@, index),
        )
    }

    /// The transaction at `index`.
    pub open spec fn transaction(&self, index: int) -> TransactionView {
        let inputs_len = inputs_count(self.bytes@, index);
        let pos = self.transaction_pos(index);
        TransactionView {
            txid: txid_at(self.bytes@, pos),
            inputs: lazy_inputs_at(self.bytes@, pos + 8, inputs_len),
            outputs: block_format::outputs_at(
                self.bytes@,
                pos + 8 + 21 * inputs_len,
                outputs_count(self.bytes@, index),
            ),
        }
    }

    /// The first index from `from` on whose transaction has the identifier
    /// `searched`. The index `from` is looked at whatever the number of transactions.
    pub open spec fn find_from(&self, searched: Seq<u8>, from: nat) -> Option<int>
        decreases self.tx_len - from,
    {
        if self.transaction(from as int).txid == searched {
            Some(from as int)
        } else if from + 1 < self.tx_len {
            self.find_from(searched, from + 1)
        } else {
            None
        }
    }

    /// Whether the search from `from` on only reads what is there.
    pub open spec fn search_readable(&self, searched: Seq<u8>, from: nat) -> bool
        decreases self.tx_len - from,
    {
        &&& self.format_readable(from as int)
        &&& if self.transaction(from as int).txid == searched {
            self.transaction_readable(from as int)
        } else if from + 1 < self.tx_len {
            self.search_readable(searched, from + 1)
        } else {
            true
        }
    }

    /// Takes the number of transactions from the first two bytes.
    pub fn new(bytes: Vec<u8>) -> (block: LazyBlock)
        requires
            bytes@.len() >= 2,
        ensures
            block.bytes == bytes,
            block.tx_len == wire::be_value(bytes@.subrange(0, 2)),
    {
        let tx_len: u64 = wire::be_at(bytes.as_slice(), 0, 2);
        proof {
            wire::lemma_be_limits();
        }
        LazyBlock { bytes, tx_len: tx_len as u16 }
    }

    pub fn get_coinbase_data_pos(&self) -> (pos: usize)
        requires
            self.tx_len <= MAX_TX_LEN,
        ensures
            pos == self.coinbase_pos(),
    {
        (2 + self.tx_len * 2) as usize
    }

    pub fn get_u64_at_pos(&self, pos: usize) -> (n: u64)
        requires
            pos + 8 <= self.bytes@.len(),
        ensures
            n == block_format::word_at(self.bytes@, pos as int),
    {
        wire::be_at(self.bytes.as_slice(), pos, 8)
    }

    pub fn get_coinbase_txid(&self) -> (txid: &[u8])
        requires
            self.tx_len <= MAX_TX_LEN,
            self.coinbase_pos() + 8 <= self.bytes@.len(),
        ensures
            txid@ == self.bytes@.subrange(self.coinbase_pos(), self.coinbase_pos() + 8),
    {
        let pos: usize = self.get_coinbase_data_pos();
        vstd::slice::slice_subrange(self.bytes.as_slice(), pos, pos + TXID_LEN)
    }

    pub fn get_coinbase_sats(&self) -> (sats: u64)
        requires
            self.tx_len <= MAX_TX_LEN,
            self.coinbase_pos() + 16 <= self.bytes@.len(),
        ensures
            sats == block_format::word_at(self.bytes@, self.coinbase_pos() + 8),
    {
        let pos: usize = self.get_coinbase_data_pos() + TXID_LEN;
        self.get_u64_at_pos(pos)
    }

    pub fn get_transactions_data_pos(&self) -> (pos: usize)
        requires
            self.tx_len <= MAX_TX_LEN,
        ensures
            pos == self.transaction_pos(0),
    {
        self.get_coinbase_data_pos() + TXID_LEN + SATS_LEN
    }

    /// How many inputs and outputs the transaction at `index` has, and how many bytes it takes.
    pub fn get_transaction_format(&self, index: u16) -> (format: (u8, u8, usize))
        requires
            self.format_readable(index as int),
        ensures
            format.0 == inputs_count(self.bytes@, index as int),
            format.1 == outputs_count(self.bytes@, index as int),
            format.2 == transaction_size(self.bytes@, index as int),
    {
        let inputs_len_pos: usize = (2 + index * 2) as usize;
        let inputs: u8 = self.bytes[inputs_len_pos];
        let outputs: u8 = self.bytes[inputs_len_pos + 1];
        let size: usize = TXID_LEN + (inputs as usize * INPUT_SIZE) + (outputs as usize
            * OUTPUT_SIZE);
        (inputs, outputs, size)
    }

    /// Whether the transaction at `index`, behind `offset` bytes of others, can be decoded.
    fn is_transaction_readable(&self, index: u16, offset: usize) -> (r: bool)
        requires
            index <= self.tx_len <= MAX_TX_LEN,
            offset == transactions_size(self.bytes@, index as nat),
        ensures
            r == self.transaction_readable(index as int),
    {
        if self.bytes.len() <= 3 + 2 * index as usize {
            return false;
        }
        let (inputs_len, outputs_len, size) = self.get_transaction_format(index);
        if inputs_len == 0 && outputs_len == 0 {
            return true;
        }
        proof {
            lemma_transactions_size_bound(self.bytes@, index as nat);
        }
        self.get_transactions_data_pos() + offset + size <= self.bytes.len()
    }

    /// Decodes the inputs and outputs at the cursor, and moves it behind them.
    pub fn get_lazy_transaction_at_pos(
        &self,
        cursor: &mut Cursor,
        txid: [u8; 8],
        inputs_len: u8,
        outputs_len: u8,
    ) -> (tx: LazyBlockTransaction)
        requires
            body_readable(
                old(cursor).bytes@,
                old(cursor).position as int,
                inputs_len as nat,
                outputs_len as nat,
            ),
        ensures
            tx@ == (TransactionView {
                txid: txid@,
                inputs: lazy_inputs_at(
                    old(cursor).bytes@,
                    old(cursor).position as int,
                    inputs_len as nat,
                ),
                outputs: block_format::outputs_at(
                    old(cursor).bytes@,
                    old(cursor).position + 21 * inputs_len,
                    outputs_len as nat,
                ),
            }),
            final(cursor).bytes == old(cursor).bytes,
            final(cursor).position == old(cursor).position + 21 * inputs_len + 8 * outputs_len,
    {
        let ghost bytes = cursor.bytes@;
        let ghost start = cursor.position as int;
        let mut inputs: Vec<LazyBlockTransactionInput> = Vec::new();
        let mut outputs: Vec<u64> = Vec::new();
        if inputs_len == 0 && outputs_len == 0 {
            let tx = LazyBlockTransaction { txid, inputs, outputs };
            assert(tx@.inputs =~= lazy_inputs_at(bytes, start, 0));
            assert(tx@.outputs =~= block_format::outputs_at(bytes, start + 21 * inputs_len, 0));
            return tx;
        }
        let source: &Vec<u8> = cursor.bytes;
        assert(source.len() == bytes.len());
        let mut at: usize = cursor.position as usize;
        let mut i: u8 = 0;
        assert(lazy_inputs_view(inputs@) =~= lazy_inputs_at(bytes, start, 0));
        while i < inputs_len
            invariant
                i <= inputs_len,
                bytes == source@,
                at == start + 21 * i,
                start + 21 * inputs_len + 8 * outputs_len <= source.len(),
                lazy_inputs_view(inputs@) == lazy_inputs_at(bytes, start, i as nat),
            decreases inputs_len - i,
        {
            let ghost before = inputs@;
            let txin: [u8; 8] = wire::eight_bytes_at(source.as_slice(), at);
            let block_height: u64 = wire::be_at(source.as_slice(), at + 8, 4);
            let vout: u8 = source[at + 12];
            let txin_value: u64 = wire::be_at(source.as_slice(), at + 13, 8);
            proof {
                wire::lemma_be_limits();
            }
            inputs.push(
                LazyBlockTransactionInput {
                    txin,
                    block_height: block_height as u32,
                    vout,
                    txin_value,
                },
            );
            proof {
                let now = lazy_inputs_view(inputs@);
                assert(now =~= lazy_inputs_view(before).push(inputs@.last()@));
                assert(inputs@.last()@ =~= lazy_input_at(bytes, at as int));
                assert(now =~= lazy_inputs_at(bytes, start, i as nat + 1));
            }
            at = at + INPUT_SIZE;
            i = i + 1;
        }
        let ghost outputs_start = at as int;
        let mut j: u8 = 0;
        assert(outputs@ =~= block_format::outputs_at(bytes, outputs_start, 0));
        while j < outputs_len
            invariant
                j <= outputs_len,
                bytes == source@,
                at == outputs_start + 8 * j,
                outputs_start + 8 * outputs_len <= source.len(),
                outputs@ == block_format::outputs_at(bytes, outputs_start, j as nat),
            decreases outputs_len - j,
        {
            let value: u64 = wire::be_at(source.as_slice(), at, 8);
            outputs.push(value);
            assert(outputs@ =~= block_format::outputs_at(bytes, outputs_start, j as nat + 1));
            at = at + OUTPUT_SIZE;
            j = j + 1;
        }
        cursor.position = at as u64;
        LazyBlockTransaction { txid, inputs, outputs }
    }

    /// Whether looking for `searched_txid` only reads what is there.
    pub fn is_search_readable(&self, searched_txid: &[u8]) -> (r: bool)
        requires
            self.tx_len <= MAX_TX_LEN,
        ensures
            r == self.search_readable(searched_txid@, 0),
    {
        let mut cursor = Cursor::new(&self.bytes);
        let mut cumulated_offset: usize = 0;
        let mut i: u16 = 0;
        loop
            invariant
                cursor.bytes == self.bytes,
                cumulated_offset == transactions_size(self.bytes@, i as nat),
                i == 0 || i < self.tx_len,
                self.tx_len <= MAX_TX_LEN,
                self.search_readable(searched_txid@, i as nat) == self.search_readable(
                    searched_txid@,
                    0,
                ),
            decreases MAX_TX_LEN - i,
        {
            if self.bytes.len() <= 3 + 2 * i as usize {
                return false;
            }
            proof {
                lemma_transactions_size_bound(self.bytes@, i as nat);
                lemma_transactions_size_bound(self.bytes@, i as nat + 1);
            }
            let pos: usize = self.get_transactions_data_pos() + cumulated_offset;
            let (_, _, size) = self.get_transaction_format(i);
            cursor.set_position(pos as u64);
            let txid: [u8; 8] = cursor.read_txid();
            if wire::same_bytes(searched_txid, txid.as_slice()) {
                return self.is_transaction_readable(i, cumulated_offset);
            }
            cumulated_offset = cumulated_offset + size;
            i = i + 1;
            if i >= self.tx_len {
                return true;
            }
        }
    }

    /// Looks the transactions through, in order, for the first with the identifier `searched_txid`.
    pub fn find_and_serialize_transaction_with_txid(&self, searched_txid: &[u8]) -> (r: Option<
        LazyBlockTransaction,
    >)
        requires
            self.tx_len <= MAX_TX_LEN,
            self.search_readable(searched_txid@, 0),
        ensures
            match (r, self.find_from(searched_txid@, 0)) {
                (Some(tx), Some(index)) => tx@ == self.transaction(index),
                (None, None) => true,
                _ => false,
            },
    {
        let mut cursor = Cursor::new(&self.bytes);
        let mut cumulated_offset: usize = 0;
        let mut i: u16 = 0;
        loop
            invariant
                cursor.bytes == self.bytes,
                cumulated_offset == transactions_size(self.bytes@, i as nat),
                i == 0 || i < self.tx_len,
                self.tx_len <= MAX_TX_LEN,
                self.search_readable(searched_txid@, i as nat),
                self.find_from(searched_txid@, i as nat) == self.find_from(searched_txid@, 0),
            decreases MAX_TX_LEN - i,
        {
            proof {
                lemma_transactions_size_bound(self.bytes@, i as nat);
                lemma_transactions_size_bound(self.bytes@, i as nat + 1);
            }
            let pos: usize = self.get_transactions_data_pos() + cumulated_offset;
            let (inputs_len, outputs_len, size) = self.get_transaction_format(i);
            cursor.set_position(pos as u64);
            let txid: [u8; 8] = cursor.read_txid();
            if wire::same_bytes(searched_txid, txid.as_slice()) {
                let tx = self.get_lazy_transaction_at_pos(
                    &mut cursor,
                    txid,
                    inputs_len,
                    outputs_len,
                );
                assert(tx@ =~= self.transaction(i as int));
                return Some(tx);
            }
            cumulated_offset = cumulated_offset + size;
            i = i + 1;
            if i >= self.tx_len {
                return None;
            }
        }
    }

    pub fn iter_tx(&self) -> (iter: LazyBlockTransactionIterator)
        ensures
            iter.wf(),
            iter.block() == self,
            iter.index() == 0,
    {
        LazyBlockTransactionIterator::new(self)
    }
}

/// A walk over the transactions of a lazy block, in order.
pub struct LazyBlockTransactionIterator<'a> {
    lazy_block: &'a LazyBlock,
    tx_index: u16,
    cumulated_offset: usize,
}

impl<'a> LazyBlockTransactionIterator<'a> {
    /// The block that is walked over.
    pub closed spec fn block(&self) -> LazyBlock {
        *self.lazy_block
    }

    /// The index of the transaction that comes next.
    pub closed spec fn index(&self) -> int {
        self.tx_index as int
    }

    /// The walk knows where the next transaction stands.
    pub closed spec fn wf(&self) -> bool {
        self.cumulated_offset == transactions_size(self.lazy_block.bytes@, self.tx_index as nat)
    }

    pub fn new(lazy_block: &'a LazyBlock) -> (iter: LazyBlockTransactionIterator<'a>)
        ensures
            iter.wf(),
            iter.block() == lazy_block,
            iter.index() == 0,
    {
        LazyBlockTransactionIterator { lazy_block, tx_index: 0, cumulated_offset: 0 }
    }

    /// Whether there is a next transaction that can be decoded.
    pub fn has_readable_next(&self) -> (r: bool)
        requires
            self.wf(),
        ensures
            r == (self.index() < self.block().tx_len <= MAX_TX_LEN
                && self.block().transaction_readable(self.index())),
    {
        if self.tx_index >= self.lazy_block.tx_len || self.lazy_block.tx_len > MAX_TX_LEN {
            return false;
        }
        self.lazy_block.is_transaction_readable(self.tx_index, self.cumulated_offset)
    }

    /// Decodes the next transaction, if there is one.
    pub fn next(&mut self) -> (r: Option<LazyBlockTransaction>)
        requires
            old(self).wf(),
            old(self).index() < old(self).block().tx_len ==> {
                &&& old(self).block().tx_len <= MAX_TX_LEN
                &&& old(self).block().transaction_readable(old(self).index())
            },
        ensures
            final(self).wf(),
            final(self).block() == old(self).block(),
            match r {
                Some(tx) => {
                    &&& old(self).index() < old(self).block().tx_len
                    &&& tx@ == old(self).block().transaction(old(self).index())
                    &&& final(self).index() == old(self).index() + 1
                },
                None => {
                    &&& old(self).index() >= old(self).block().tx_len
                    &&& final(self).index() == old(self).index()
                },
            },
    {
        if self.tx_index >= self.lazy_block.tx_len {
            return None;
        }
        proof {
            lemma_transactions_size_bound(self.lazy_block.bytes@, self.tx_index as nat);
            lemma_transactions_size_bound(self.lazy_block.bytes@, self.tx_index as nat + 1);
        }
        let pos: usize = self.lazy_block.get_transactions_data_pos() + self.cumulated_offset;
        let (inputs_len, outputs_len, size) = self.lazy_block.get_transaction_format(
            self.tx_index,
        );
        let mut cursor = Cursor::new(&self.lazy_block.bytes);
        cursor.set_position(pos as u64);
        let txid: [u8; 8] = cursor.read_txid();
        self.cumulated_offset = self.cumulated_offset + size;
        self.tx_index = self.tx_index + 1;
        let tx = self.lazy_block.get_lazy_transaction_at_pos(
            &mut cursor,
            txid,
            inputs_len,
            outputs_len,
        );
        assert(tx@ =~= old(self).block().transaction(old(self).index()));
        Some(tx)
    }
}

/// An input is read as it stands there: an identifier, a height of four bytes,
/// an output index of one and a value of eight, for every height and value.
pub proof fn law_lazy_input_read_of_write(
    bytes: Seq<u8>,
    pos: int,
    txin: Seq<u8>,
    height: u32,
    vout: u8,
    value: u64,
)
    requires
        0 <= pos,
        pos + 21 <= bytes.len(),
        bytes.subrange(pos, pos + 8) == txin,
        bytes.subrange(pos + 8, pos + 12) == wire::be_bytes(height as nat, 4),
        bytes[pos + 12] == vout,
        bytes.subrange(pos + 13, pos + 21) == wire::be_bytes(value as nat, 8),
    ensures
        lazy_input_at(bytes, pos).txin == txin,
        lazy_input_at(bytes, pos).block_height == height,
        lazy_input_at(bytes, pos).vout == vout,
        lazy_input_at(bytes, pos).value == value,
{
    wire::lemma_be_limits();
    wire::law_be_read_of_write(height as nat, 4);
    wire::law_be_read_of_write(value as nat, 8);
}

/// Inputs are read one after the other.
pub proof fn law_lazy_inputs_are_read_in_order(bytes: Seq<u8>, pos: int, count: nat, k: int)
    requires
        0 <= k < count,
    ensures
        lazy_inputs_at(bytes, pos, count).len() == count,
        lazy_inputs_at(bytes, pos, count)[k] == lazy_input_at(bytes, pos + 21 * k),
{
}

/// The coinbase stands behind the counts, the first transaction behind the
/// coinbase, and every other one behind the one before it.
pub proof fn law_lazy_positions(lazy: LazyBlock, index: int)
    requires
        0 <= index,
    ensures
        lazy.coinbase_pos() == 2 + 2 * lazy.tx_len,
        lazy.transaction_pos(0) == 2 + 2 * lazy.tx_len + 16,
        lazy.transaction_pos(index + 1) == lazy.transaction_pos(index) + 8 + 21 * lazy.bytes@[2 + 2
            * index] + 8 * lazy.bytes@[3 + 2 * index],
        inputs_count(lazy.bytes@, index) == lazy.bytes@[2 + 2 * index],
        outputs_count(lazy.bytes@, index) == lazy.bytes@[3 + 2 * index],
        transaction_size(lazy.bytes@, index) == 8 + 21 * lazy.bytes@[2 + 2 * index] + 8
            * lazy.bytes@[3 + 2 * index],
{
}

/// A transaction whose identifier, inputs and outputs stand where they are
/// looked for, and whose numbers of inputs and outputs stand in the header, is
/// read as it is, whatever it spends.
pub proof fn law_lazy_transaction_decodes(lazy: LazyBlock, index: int, tx: TransactionView)
    requires
        0 <= index <= 32766,
        3 + 2 * index < lazy.bytes@.len(),
        lazy.bytes@[2 + 2 * index] == tx.inputs.len(),
        lazy.bytes@[3 + 2 * index] == tx.outputs.len(),
        ({
            let pos = lazy.transaction_pos(index);
            let outputs_pos = pos + 8 + 21 * tx.inputs.len();
            &&& outputs_pos + 8 * tx.outputs.len() <= lazy.bytes@.len()
            &&& lazy.bytes@.subrange(pos, pos + 8) == tx.txid
            &&& forall|k: int|
                0 <= k < tx.inputs.len() ==> {
                    let at = pos + 8 + 21 * k;
                    let input = #[trigger] tx.inputs[k];
                    &&& lazy.bytes@.subrange(at, at + 8) == input.txin
                    &&& lazy.bytes@.subrange(at + 8, at + 12) == wire::be_bytes(
                        input.block_height as nat,
                        4,
                    )
                    &&& lazy.bytes@[at + 12] == input.vout
                    &&& lazy.bytes@.subrange(at + 13, at + 21) == wire::be_bytes(
                        input.value as nat,
                        8,
                    )
                }
            &&& forall|k: int|
                0 <= k < tx.outputs.len() ==> lazy.bytes@.subrange(
                    outputs_pos + 8 * k,
                    outputs_pos + 8 * k + 8,
                ) == wire::be_bytes(#[trigger] tx.outputs[k] as nat, 8)
        }),
    ensures
        lazy.transaction(index) == tx,
        lazy.transaction_readable(index),
{
    let bytes = lazy.bytes@;
    let pos = lazy.transaction_pos(index);
    let outputs_pos = pos + 8 + 21 * tx.inputs.len();
    let read = lazy.transaction(index);
    assert forall|k: int| 0 <= k < tx.inputs.len() implies read.inputs[k]
        == #[trigger] tx.inputs[k] by {
        let input = tx.inputs[k];
        law_lazy_input_read_of_write(
            bytes,
            pos + 8 + 21 * k,
            input.txin,
            input.block_height,
            input.vout as u8,
            input.value,
        );
        assert(read.inputs[k] =~= input);
    }
    assert forall|k: int| 0 <= k < tx.outputs.len() implies read.outputs[k]
        == #[trigger] tx.outputs[k] by {
        wire::lemma_be_limits();
        wire::law_be_read_of_write(tx.outputs[k] as nat, 8);
        block_format::law_values_are_read_in_order(bytes, outputs_pos, tx.outputs.len(), k);
    }
    assert(read.inputs =~= tx.inputs);
    assert(read.outputs =~= tx.outputs);
    assert(read =~= tx);
}

/// A transaction can be decoded just when its numbers of inputs and outputs
/// are in the header, and, if it has any, the bytes reach that far.
pub proof fn law_lazy_readability(lazy: LazyBlock, index: int)
    ensures
        lazy.transaction_readable(index) <==> {
            let pos = lazy.transaction_pos(index);
            let inputs = lazy.bytes@[2 + 2 * index] as int;
            let outputs = lazy.bytes@[3 + 2 * index] as int;
            &&& 0 <= index <= 32766
            &&& 3 + 2 * index < lazy.bytes@.len()
            &&& inputs + outputs > 0 ==> pos + 8 + 21 * inputs + 8 * outputs <= lazy.bytes@.len()
        },
        lazy.format_readable(index) <==> 0 <= index <= 32766 && 3 + 2 * index < lazy.bytes@.len(),
{
}

/// Whether so many inputs and outputs can be read from a position on.
pub proof fn law_body_readability(bytes: Seq<u8>, pos: int, inputs_len: nat, outputs_len: nat)
    ensures
        body_readable(bytes, pos, inputs_len, outputs_len) <==> (inputs_len + outputs_len > 0
            ==> pos + 21 * inputs_len + 8 * outputs_len <= bytes.len()),
{
}

/// An identifier is the eight bytes at its place, and zeros where they end before that.
pub proof fn law_lazy_identifier(bytes: Seq<u8>, pos: int, k: int)
    requires
        0 <= pos,
        0 <= k < 8,
    ensures
        txid_at(bytes, pos).len() == 8,
        txid_at(bytes, pos)[k] == if pos + 8 <= bytes.len() {
            bytes[pos + k]
        } else {
            0
        },
{
}

/// Looking for a transaction that reads only what is there finds, for all that
/// it looks at, their counts in the header, and can decode the one it finds.
pub proof fn law_readable_search(lazy: LazyBlock, searched: Seq<u8>, from: nat, k: int)
    requires
        lazy.search_readable(searched, from),
        k == from || from < k < lazy.tx_len,
        forall|j: int| from <= j < k ==> (#[trigger] lazy.transaction(j)).txid != searched,
    ensures
        lazy.format_readable(k),
        lazy.transaction(k).txid == searched ==> lazy.transaction_readable(k),
    decreases lazy.tx_len - from,
{
    if k > from {
        assert(lazy.transaction(from as int).txid != searched);
        law_readable_search(lazy, searched, from + 1, k);
    }
}

/// Looking for a transaction that reads what is not there looks at one without
/// counts in the header, or finds one that cannot be decoded.
pub proof fn law_unreadable_search(lazy: LazyBlock, searched: Seq<u8>, from: nat) -> (k: int)
    requires
        !lazy.search_readable(searched, from),
    ensures
        k == from || from < k < lazy.tx_len,
        forall|j: int| from <= j < k ==> (#[trigger] lazy.transaction(j)).txid != searched,
        !lazy.format_readable(k) || lazy.transaction(k).txid == searched
            && !lazy.transaction_readable(k),
    decreases lazy.tx_len - from,
{
    if lazy.format_readable(from as int) && lazy.transaction(from as int).txid != searched {
        law_unreadable_search(lazy, searched, from + 1)
    } else {
        from as int
    }
}

/// A decoded transaction's parts are what they are called, in their order.
pub proof fn law_lazy_transaction_parts(tx: &LazyBlockTransaction, j: int, k: int)
    ensures
        tx@.txid == tx.txid@,
        tx@.inputs.len() == tx.inputs@.len(),
        tx@.outputs.len() == tx.outputs@.len(),
        0 <= j < tx.inputs@.len() ==> {
            &&& tx@.inputs[j].txin == tx.inputs@[j].txin@
            &&& tx@.inputs[j].block_height == tx.inputs@[j].block_height
            &&& tx@.inputs[j].vout == tx.inputs@[j].vout
            &&& tx@.inputs[j].value == tx.inputs@[j].txin_value
        },
        0 <= k < tx.outputs@.len() ==> tx@.outputs[k] == tx.outputs@[k],
{
}

/// What looking for a transaction returns is the first one with the identifier,
/// as it stands in the block.
pub proof fn law_found_transaction_is_the_first(
    lazy: &LazyBlock,
    searched: &[u8],
    r: Option<LazyBlockTransaction>,
    index: int,
)
    requires
        call_ensures(LazyBlock::find_and_serialize_transaction_with_txid, (lazy, searched), r),
        index == 0 || 0 < index < lazy.tx_len,
        lazy.transaction(index).txid == searched@,
        forall|j: int| 0 <= j < index ==> (#[trigger] lazy.transaction(j)).txid != searched@,
    ensures
        r matches Some(tx) && tx@ == lazy.transaction(index),
{
    lemma_found_first(*lazy, searched@, 0, index);
}

proof fn lemma_found_first(lazy: LazyBlock, searched: Seq<u8>, from: nat, index: int)
    requires
        index == from || from < index < lazy.tx_len,
        lazy.transaction(index).txid == searched,
        forall|j: int| from <= j < index ==> (#[trigger] lazy.transaction(j)).txid != searched,
    ensures
        lazy.find_from(searched, from) == Some(index),
    decreases index - from,
{
    if from < index {
        assert(lazy.transaction(from as int).txid != searched);
        lemma_found_first(lazy, searched, from + 1, index);
    }
}

/// A decoded input has the height, the output index and the value that stand
/// in the block, for every height of 32 bits and every value of 64.
pub proof fn law_found_inputs_are_as_written(
    lazy: &LazyBlock,
    searched: &[u8],
    r: Option<LazyBlockTransaction>,
    index: int,
    k: int,
    input: LazyBlockTransactionInput,
)
    requires
        call_ensures(LazyBlock::find_and_serialize_transaction_with_txid, (lazy, searched), r),
        index == 0 || 0 < index < lazy.tx_len,
        lazy.transaction(index).txid == searched@,
        forall|j: int| 0 <= j < index ==> (#[trigger] lazy.transaction(j)).txid != searched@,
        lazy.transaction_readable(index),
        0 <= k < lazy.bytes@[2 + 2 * index],
        ({
            let at = lazy.transaction_pos(index) + 8 + 21 * k;
            &&& lazy.bytes@.subrange(at, at + 8) == input.txin@
            &&& lazy.bytes@.subrange(at + 8, at + 12) == wire::be_bytes(
                input.block_height as nat,
                4,
            )
            &&& lazy.bytes@[at + 12] == input.vout
            &&& lazy.bytes@.subrange(at + 13, at + 21) == wire::be_bytes(
                input.txin_value as nat,
                8,
            )
        }),
    ensures
        r matches Some(tx) && {
            &&& tx.inputs@.len() == lazy.bytes@[2 + 2 * index]
            &&& tx.outputs@.len() == lazy.bytes@[3 + 2 * index]
            &&& tx.inputs@[k].txin@ == input.txin@
            &&& tx.inputs@[k].block_height == input.block_height
            &&& tx.inputs@[k].vout == input.vout
            &&& tx.inputs@[k].txin_value == input.txin_value
        },
{
    law_found_transaction_is_the_first(lazy, searched, r, index);
    let at = lazy.transaction_pos(index) + 8 + 21 * k;
    law_lazy_input_read_of_write(
        lazy.bytes@,
        at,
        input.txin@,
        input.block_height,
        input.vout,
        input.txin_value,
    );
    let tx = r->0;
    law_lazy_transaction_parts(&tx, k, 0);
    assert(tx@.inputs.len() == lazy.bytes@[2 + 2 * index]);
    assert(tx@.outputs.len() == lazy.bytes@[3 + 2 * index]);
    assert(tx@.inputs[k] == lazy_input_at(lazy.bytes@, at));
}

} // verus!
