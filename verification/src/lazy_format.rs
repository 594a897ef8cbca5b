//! Writing compacted blocks in the lazy layout, and what lazy blocks read of it.
use crate::block::{BlockView, CompactedBlock, TransactionView};
use crate::lazy_block::{LazyBlock, MAX_TX_LEN};
use crate::{block, block_format, lazy_block, wire};
use vstd::prelude::*;

verus! {

/// The numbers of inputs and outputs of each transaction, one byte each. A
/// number that a byte cannot hold keeps its last eight bits.
pub open spec fn lazy_counts(txs: Seq<TransactionView>) -> Seq<u8>
    decreases txs.len(),
{
    if txs.len() == 0 {
        Seq::empty()
    } else {
        lazy_counts(txs.drop_last()) + wire::be_bytes(txs.last().inputs.len(), 1) + wire::be_bytes(
            txs.last().outputs.len(),
            1,
        )
    }
}

pub open spec fn lazy_body(tx: TransactionView) -> Seq<u8> {
    tx.txid + block_format::inputs_bytes(tx.inputs) + block_format::outputs_bytes(tx.outputs)
}

pub open spec fn lazy_bodies(txs: Seq<TransactionView>) -> Seq<u8>
    decreases txs.len(),
{
    if txs.len() == 0 {
        Seq::empty()
    } else {
        lazy_bodies(txs.drop_last()) + lazy_body(txs.last())
    }
}

/// The lazy layout of a block: the number of transactions (its last sixteen
/// bits), the counts of each, the coinbase, the transactions.
pub open spec fn lazy_block_bytes(block: BlockView) -> Seq<u8> {
    wire::be_bytes(block.transactions.len(), 2) + lazy_counts(block.transactions)
        + block.coinbase_txid + wire::be_bytes(block.coinbase_value as nat, 8) + lazy_bodies(
        block.transactions,
    )
}

impl CompactedBlock {
    /// Appends the lazy layout of the block to `fd`.
    pub fn serialize_to_lazy_format(&self, fd: &mut Vec<u8>)
        ensures
            final(fd)@ == old(fd)@ + lazy_block_bytes(self@),
    {
        let ghost view = self@.transactions;
        wire::push_be(fd, self.0.1.len() as u64, 2);
        let ghost start = fd@;
        let mut i: usize = 0;
        assert(fd@ =~= start + lazy_counts(view.take(0)));
        while i < self.0.1.len()
            invariant
                i <= self.0.1@.len(),
                view == block::transactions_view(self.0.1@),
                fd@ == start + lazy_counts(view.take(i as int)),
            decreases self.0.1@.len() - i,
        {
            let tx = &self.0.1[i];
            wire::push_be(fd, tx.1.len() as u64, 1);
            wire::push_be(fd, tx.2.len() as u64, 1);
            i = i + 1;
            proof {
                let front = view.take(i as int);
                assert(front.drop_last() =~= view.take(i - 1));
                assert(front.last() == block::transaction_view(self.0.1@[i - 1]));
                assert(fd@ =~= start + lazy_counts(front));
            }
        }
        assert(view.take(i as int) =~= view);
        wire::push_all(fd, self.0.0.0.as_slice());
        wire::push_be(fd, self.0.0.1, 8);
        let ghost header = fd@;
        let mut j: usize = 0;
        assert(fd@ =~= header + lazy_bodies(view.take(0)));
        while j < self.0.1.len()
            invariant
                j <= self.0.1@.len(),
                view == block::transactions_view(self.0.1@),
                fd@ == header + lazy_bodies(view.take(j as int)),
            decreases self.0.1@.len() - j,
        {
            let tx = &self.0.1[j];
            wire::push_all(fd, tx.0.as_slice());
            block_format::push_inputs(fd, &tx.1);
            block_format::push_outputs(fd, &tx.2);
            j = j + 1;
            proof {
                let front = view.take(j as int);
                assert(front.drop_last() =~= view.take(j - 1));
                assert(front.last() == block::transaction_view(self.0.1@[j - 1]));
                assert(fd@ =~= header + lazy_bodies(front));
            }
        }
        assert(view.take(j as int) =~= view);
        assert(fd@ =~= old(fd)@ + lazy_block_bytes(self@));
    }
}

proof fn lemma_be_byte(n: nat)
    ensures
        wire::be_bytes(n, 1) == seq![(n % 256) as u8],
{
    reveal_with_fuel(wire::be_bytes, 2);
    assert(wire::be_bytes(n, 1) =~= seq![(n % 256) as u8]);
}

proof fn lemma_counts(bytes: Seq<u8>, pos: int, txs: Seq<TransactionView>)
    requires
        block_format::holds_at(bytes, pos, lazy_counts(txs)),
    ensures
        lazy_counts(txs).len() == 2 * txs.len(),
        forall|k: int|
            #![trigger txs[k]]
            0 <= k < txs.len() ==> bytes[pos + 2 * k] == txs[k].inputs.len() % 256 && bytes[pos + 2
                * k + 1] == txs[k].outputs.len() % 256,
    decreases txs.len(),
{
    if txs.len() > 0 {
        let front = txs.drop_last();
        let n = front.len() as int;
        let inputs = wire::be_bytes(txs.last().inputs.len(), 1);
        let outputs = wire::be_bytes(txs.last().outputs.len(), 1);
        lemma_be_byte(txs.last().inputs.len());
        lemma_be_byte(txs.last().outputs.len());
        block_format::lemma_holds_concat(bytes, pos, lazy_counts(front) + inputs, outputs);
        block_format::lemma_holds_concat(bytes, pos, lazy_counts(front), inputs);
        lemma_counts(bytes, pos, front);
        assert(bytes.subrange(pos + 2 * n, pos + 2 * n + 1)[0] == inputs[0]);
        assert(bytes.subrange(pos + 2 * n + 1, pos + 2 * n + 2)[0] == outputs[0]);
        assert forall|k: int| #![trigger txs[k]] 0 <= k < txs.len() implies bytes[pos + 2 * k]
            == txs[k].inputs.len() % 256 && bytes[pos + 2 * k + 1] == txs[k].outputs.len()
            % 256 by {
            if k < n {
                assert(front[k] == txs[k]);
            }
        }
    }
}

proof fn lemma_bodies(bytes: Seq<u8>, pos: int, txs: Seq<TransactionView>, index: int)
    requires
        block_format::holds_at(bytes, pos, lazy_bodies(txs)),
        0 <= index < txs.len(),
    ensures
        block_format::holds_at(
            bytes,
            pos + lazy_bodies(txs.take(index)).len(),
            lazy_body(txs[index]),
        ),
    decreases txs.len(),
{
    let front = txs.drop_last();
    block_format::lemma_holds_concat(bytes, pos, lazy_bodies(front), lazy_body(txs.last()));
    if index == front.len() {
        assert(txs.take(index) =~= front);
    } else {
        lemma_bodies(bytes, pos, front, index);
        assert(front.take(index) =~= txs.take(index));
    }
}

/// Whether the first `count` transactions spend nothing and have at most 255 outputs each.
pub open spec fn plain_prefix(txs: Seq<TransactionView>, count: int) -> bool {
    forall|k: int|
        0 <= k < count ==> (#[trigger] txs[k]).inputs.len() == 0 && txs[k].outputs.len() <= 255
}

proof fn lemma_plain_size(bytes: Seq<u8>, txs: Seq<TransactionView>, count: int)
    requires
        0 <= count <= txs.len(),
        plain_prefix(txs, count),
        forall|k: int| 0 <= k < txs.len() ==> (#[trigger] txs[k]).txid.len() == 8,
        forall|k: int|
            #![trigger txs[k]]
            0 <= k < txs.len() ==> bytes[2 + 2 * k] == txs[k].inputs.len() % 256 && bytes[3 + 2 * k]
                == txs[k].outputs.len() % 256,
    ensures
        lazy_bodies(txs.take(count)).len() == lazy_block::transactions_size(bytes, count as nat),
    decreases count,
{
    if count > 0 {
        let front = txs.take(count);
        let tx = txs[count - 1];
        lemma_plain_size(bytes, txs, count - 1);
        assert(front.drop_last() =~= txs.take(count - 1));
        assert(front.last() == tx);
        block_format::lemma_outputs_len(tx.outputs);
        assert(tx.inputs.len() == 0 && tx.outputs.len() <= 255);
        assert(block_format::inputs_bytes(tx.inputs).len() == 0);
    }
}

/// Whether `lazy` holds `block` in the lazy layout.
pub open spec fn holds_lazily(lazy: LazyBlock, block: BlockView) -> bool {
    &&& block.wf()
    &&& block.transactions.len() <= MAX_TX_LEN
    &&& lazy.bytes@ == lazy_block_bytes(block)
    &&& lazy.tx_len == wire::be_value(lazy.bytes@.subrange(0, 2))
}

proof fn lemma_lazy_header(block: BlockView, lazy: LazyBlock)
    requires
        holds_lazily(lazy, block),
    ensures
        lazy.tx_len == block.transactions.len(),
        lazy.coinbase_pos() + 16 <= lazy.bytes@.len(),
        lazy.bytes@.subrange(lazy.coinbase_pos(), lazy.coinbase_pos() + 8) == block.coinbase_txid,
        block_format::word_at(lazy.bytes@, lazy.coinbase_pos() + 8) == block.coinbase_value,
        block_format::holds_at(lazy.bytes@, 2, lazy_counts(block.transactions)),
        block_format::holds_at(
            lazy.bytes@,
            lazy.coinbase_pos() + 16,
            lazy_bodies(block.transactions),
        ),
{
    let bytes = lazy.bytes@;
    let txs = block.transactions;
    let tx_len = wire::be_bytes(txs.len(), 2);
    let counts = lazy_counts(txs);
    let value = wire::be_bytes(block.coinbase_value as nat, 8);
    let bodies = lazy_bodies(txs);
    wire::lemma_be_limits();
    wire::lemma_be_bytes_len(txs.len(), 2);
    wire::lemma_be_bytes_len(block.coinbase_value as nat, 8);
    assert(bytes.subrange(0, bytes.len() as int) =~= bytes);
    block_format::lemma_holds_concat(
        bytes,
        0,
        tx_len + counts + block.coinbase_txid + value,
        bodies,
    );
    block_format::lemma_holds_concat(bytes, 0, tx_len + counts + block.coinbase_txid, value);
    block_format::lemma_holds_concat(bytes, 0, tx_len + counts, block.coinbase_txid);
    block_format::lemma_holds_concat(bytes, 0, tx_len, counts);
    block_format::lemma_holds_number(bytes, 0, txs.len(), 2);
    lemma_counts(bytes, 2, txs);
    block_format::lemma_holds_number(
        bytes,
        lazy.coinbase_pos() + 8,
        block.coinbase_value as nat,
        8,
    );
}

/// A lazy block reads the number of transactions and the coinbase of the block
/// that it holds, and the counts of each transaction up to multiples of 256.
pub proof fn law_lazy_header_read_of_write(block: BlockView, lazy: LazyBlock)
    requires
        holds_lazily(lazy, block),
    ensures
        lazy.tx_len == block.transactions.len(),
        lazy.coinbase_pos() + 16 <= lazy.bytes@.len(),
        lazy.bytes@.subrange(lazy.coinbase_pos(), lazy.coinbase_pos() + 8) == block.coinbase_txid,
        block_format::word_at(lazy.bytes@, lazy.coinbase_pos() + 8) == block.coinbase_value,
        forall|i: int|
            #![trigger block.transactions[i]]
            0 <= i < block.transactions.len() ==> {
                &&& lazy.format_readable(i)
                &&& lazy_block::inputs_count(lazy.bytes@, i) == block.transactions[i].inputs.len()
                    % 256
                &&& lazy_block::outputs_count(lazy.bytes@, i)
                    == block.transactions[i].outputs.len() % 256
            },
{
    lemma_lazy_header(block, lazy);
    lemma_counts(lazy.bytes@, 2, block.transactions);
}

proof fn lemma_plain_transaction(lazy: LazyBlock, index: int, tx: TransactionView)
    requires
        block_format::holds_at(lazy.bytes@, lazy.transaction_pos(index), lazy_body(tx)),
        tx.txid.len() == 8,
        tx.inputs.len() == 0,
        lazy.format_readable(index),
        lazy_block::inputs_count(lazy.bytes@, index) == 0,
        lazy_block::outputs_count(lazy.bytes@, index) == tx.outputs.len(),
    ensures
        lazy.transaction_readable(index),
        lazy.transaction(index) == tx,
{
    let bytes = lazy.bytes@;
    let pos = lazy.transaction_pos(index);
    let inputs = block_format::inputs_bytes(tx.inputs);
    let outputs = block_format::outputs_bytes(tx.outputs);
    block_format::lemma_holds_concat(bytes, pos, tx.txid + inputs, outputs);
    block_format::lemma_holds_concat(bytes, pos, tx.txid, inputs);
    assert(inputs.len() == 0);
    block_format::lemma_holds_outputs(bytes, pos + 8, tx.outputs);
    let read = lazy.transaction(index);
    assert(read.txid =~= tx.txid);
    assert(read.inputs =~= tx.inputs);
    assert(read =~= tx);
}

/// A lazy block reads a transaction of the block that it holds as it was
/// written, as long as that transaction and those before it spend nothing and
/// have at most 255 outputs. (The layout writes the output index of an input in
/// two bytes, and lazy blocks read it from one.)
#[verifier::spinoff_prover]
pub proof fn law_lazy_transaction_read_of_write(block: BlockView, lazy: LazyBlock, index: int)
    requires
        holds_lazily(lazy, block),
        0 <= index < block.transactions.len(),
        plain_prefix(block.transactions, index + 1),
    ensures
        lazy.transaction_readable(index),
        lazy.transaction(index) == block.transactions[index],
{
    let bytes = lazy.bytes@;
    let txs = block.transactions;
    let tx = txs[index];
    law_lazy_header_read_of_write(block, lazy);
    lemma_lazy_header(block, lazy);
    assert(tx.wf());
    assert(tx.inputs.len() == 0 && tx.outputs.len() <= 255);
    assert forall|k: int| 0 <= k < txs.len() implies (#[trigger] txs[k]).txid.len() == 8 by {
        assert(txs[k].wf());
    }
    lemma_plain_size(bytes, txs, index);
    lemma_bodies(bytes, lazy.coinbase_pos() + 16, txs, index);
    lemma_plain_transaction(lazy, index, tx);
}

/// A lazy block reads the identifier of a transaction as it was written,
/// whatever the transaction spends, as long as those before it spend nothing
/// and have at most 255 outputs.
#[verifier::spinoff_prover]
pub proof fn law_lazy_identifier_read_of_write(block: BlockView, lazy: LazyBlock, index: int)
    requires
        holds_lazily(lazy, block),
        0 <= index < block.transactions.len(),
        plain_prefix(block.transactions, index),
    ensures
        lazy.transaction(index).txid == block.transactions[index].txid,
{
    let bytes = lazy.bytes@;
    let txs = block.transactions;
    let tx = txs[index];
    law_lazy_header_read_of_write(block, lazy);
    lemma_lazy_header(block, lazy);
    assert(tx.wf());
    assert forall|k: int| 0 <= k < txs.len() implies (#[trigger] txs[k]).txid.len() == 8 by {
        assert(txs[k].wf());
    }
    lemma_plain_size(bytes, txs, index);
    lemma_bodies(bytes, lazy.coinbase_pos() + 16, txs, index);
    let pos = lazy.transaction_pos(index);
    let inputs = block_format::inputs_bytes(tx.inputs);
    let outputs = block_format::outputs_bytes(tx.outputs);
    block_format::lemma_holds_concat(bytes, pos, tx.txid + inputs, outputs);
    block_format::lemma_holds_concat(bytes, pos, tx.txid, inputs);
}

/// The search returns the first transaction with the identifier, among the
/// transactions (or at the first place, where there are none).
pub proof fn law_search_finds_first(lazy: LazyBlock, searched: Seq<u8>)
    ensures
        match lazy.find_from(searched, 0) {
            Some(index) => {
                &&& 0 <= index && (index == 0 || index < lazy.tx_len)
                &&& lazy.transaction(index).txid == searched
                &&& forall|k: int|
                    0 <= k < index ==> (#[trigger] lazy.transaction(k)).txid != searched
            },
            None => forall|k: int|
                0 <= k && (k == 0 || k < lazy.tx_len) ==> (#[trigger] lazy.transaction(k)).txid
                    != searched,
        },
{
    lemma_search_from(lazy, searched, 0);
}

proof fn lemma_search_from(lazy: LazyBlock, searched: Seq<u8>, from: nat)
    ensures
        match lazy.find_from(searched, from) {
            Some(index) => {
                &&& from <= index && (index == from || index < lazy.tx_len)
                &&& lazy.transaction(index).txid == searched
                &&& forall|k: int|
                    from <= k < index ==> (#[trigger] lazy.transaction(k)).txid != searched
            },
            None => forall|k: int|
                from <= k && (k == from || k < lazy.tx_len) ==> (#[trigger] lazy.transaction(
                    k,
                )).txid != searched,
        },
    decreases lazy.tx_len - from,
{
    if lazy.transaction(from as int).txid != searched && from + 1 < lazy.tx_len {
        lemma_search_from(lazy, searched, from + 1);
    }
}

/// The counts of the transactions stand in their order, each in one byte.
pub proof fn law_lazy_counts_layout(txs: Seq<TransactionView>, k: int)
    requires
        0 <= k < txs.len(),
    ensures
        lazy_counts(txs).len() == 2 * txs.len(),
        lazy_counts(txs)[2 * k] == txs[k].inputs.len() % 256,
        lazy_counts(txs)[2 * k + 1] == txs[k].outputs.len() % 256,
{
    let bytes = lazy_counts(txs);
    assert(bytes.subrange(0, bytes.len() as int) =~= bytes);
    lemma_counts(bytes, 0, txs);
    assert(txs[k] == txs[k]);
}

/// The parts of a transaction stand behind each other: its identifier, its
/// inputs in the form of the plain layout, its output values.
pub proof fn law_lazy_body_layout(tx: TransactionView)
    requires
        tx.wf(),
    ensures
        ({
            let bytes = lazy_body(tx);
            let outputs_pos: int = 8int + 22 * tx.inputs.len();
            &&& bytes.len() == outputs_pos + 8 * tx.outputs.len()
            &&& bytes.subrange(0, 8) == tx.txid
            &&& bytes.subrange(8, outputs_pos) == block_format::inputs_bytes(tx.inputs)
            &&& bytes.subrange(outputs_pos, bytes.len() as int) == block_format::outputs_bytes(
                tx.outputs,
            )
        }),
{
    let bytes = lazy_body(tx);
    let outputs_pos: int = 8int + 22 * tx.inputs.len();
    assert forall|j: int| 0 <= j < tx.inputs.len() implies (
    #[trigger] tx.inputs[j]).txin.len() == 8 by {
        assert(tx.inputs[j].wf());
    }
    if tx.inputs.len() > 0 {
        block_format::law_inputs_layout(tx.inputs, 0);
    } else {
        assert(block_format::inputs_bytes(tx.inputs).len() == 0);
    }
    block_format::lemma_outputs_len(tx.outputs);
    assert(bytes.subrange(0, 8) =~= tx.txid);
    assert(bytes.subrange(8, outputs_pos) =~= block_format::inputs_bytes(tx.inputs));
    assert(bytes.subrange(outputs_pos, bytes.len() as int) =~= block_format::outputs_bytes(
        tx.outputs,
    ));
}

/// Transactions stand one after the other, in their order.
pub proof fn law_lazy_bodies_layout(txs: Seq<TransactionView>, tx: TransactionView)
    ensures
        lazy_bodies(Seq::empty()) == Seq::<u8>::empty(),
        lazy_bodies(txs.push(tx)) == lazy_bodies(txs) + lazy_body(tx),
{
    assert(txs.push(tx).drop_last() =~= txs);
}

/// Where the parts of a block stand in the lazy layout: how many transactions
/// there are, their counts, the coinbase's identifier and value, the transactions.
pub proof fn law_lazy_block_layout(block: BlockView)
    requires
        block.wf(),
    ensures
        ({
            let bytes = lazy_block_bytes(block);
            let count = block.transactions.len();
            let pos: int = 2int + 2 * count;
            &&& bytes.len() >= pos + 16
            &&& bytes[0] == (count / 256) % 256
            &&& bytes[1] == count % 256
            &&& bytes.subrange(2, pos) == lazy_counts(block.transactions)
            &&& bytes.subrange(pos, pos + 8) == block.coinbase_txid
            &&& wire::be_value(bytes.subrange(pos + 8, pos + 16)) == block.coinbase_value
            &&& bytes.skip(pos + 16) == lazy_bodies(block.transactions)
        }),
{
    let bytes = lazy_block_bytes(block);
    let txs = block.transactions;
    let pos: int = 2int + 2 * txs.len();
    reveal_with_fuel(wire::be_bytes, 3);
    wire::lemma_be_limits();
    wire::lemma_be_bytes_len(txs.len(), 2);
    wire::lemma_be_bytes_len(block.coinbase_value as nat, 8);
    wire::law_be_read_of_write(block.coinbase_value as nat, 8);
    if txs.len() > 0 {
        law_lazy_counts_layout(txs, 0);
    } else {
        assert(lazy_counts(txs).len() == 0);
    }
    let first = wire::be_bytes(txs.len(), 2);
    assert(first[0] == (txs.len() / 256) % 256);
    assert(first[1] == txs.len() % 256);
    assert(bytes[0] == first[0] && bytes[1] == first[1]);
    assert(bytes.subrange(2, pos) =~= lazy_counts(txs));
    assert(bytes.subrange(pos, pos + 8) =~= block.coinbase_txid);
    assert(bytes.subrange(pos + 8, pos + 16) =~= wire::be_bytes(block.coinbase_value as nat, 8));
    assert(bytes.skip(pos + 16) =~= lazy_bodies(txs));
}

} // verus!
