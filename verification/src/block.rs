//! Compacted blocks.
use vstd::prelude::*;

verus! {

/// A spent output: the first bytes of the identifier of the transaction that
/// created it, the height of that transaction, the index of the output, its value.
pub type CompactedInput = ([u8; 8], u32, u16, u64);

/// The first bytes of a transaction's identifier, what it spends, the values that it creates.
pub type CompactedTransaction = ([u8; 8], Vec<CompactedInput>, Vec<u64>);

/// A block reduced to what tracing a satoshi needs: the coinbase's identifier
/// and value, and the other transactions.
#[derive(Debug)]
pub struct CompactedBlock(pub (([u8; 8], u64), Vec<CompactedTransaction>));

#[verifier::ext_equal]
pub struct InputView {
    pub txin: Seq<u8>,
    pub block_height: u32,
    pub vout: u16,
    pub value: u64,
}

#[verifier::ext_equal]
pub struct TransactionView {
    pub txid: Seq<u8>,
    pub inputs: Seq<InputView>,
    pub outputs: Seq<u64>,
}

#[verifier::ext_equal]
pub struct BlockView {
    pub coinbase_txid: Seq<u8>,
    pub coinbase_value: u64,
    pub transactions: Seq<TransactionView>,
}

pub open spec fn input_view(input: CompactedInput) -> InputView {
    InputView { txin: input.0@, block_height: input.1, vout: input.2, value: input.3 }
}

pub open spec fn inputs_view(inputs: Seq<CompactedInput>) -> Seq<InputView> {
    inputs.map_values(|input: CompactedInput| input_view(input))
}

pub open spec fn transaction_view(tx: CompactedTransaction) -> TransactionView {
    TransactionView { txid: tx.0@, inputs: inputs_view(tx.1@), outputs: tx.2@ }
}

pub open spec fn transactions_view(txs: Seq<CompactedTransaction>) -> Seq<TransactionView> {
    txs.map_values(|tx: CompactedTransaction| transaction_view(tx))
}

impl View for CompactedBlock {
    type V = BlockView;

    open spec fn view(&self) -> BlockView {
        BlockView {
            coinbase_txid: self.0.0.0@,
            coinbase_value: self.0.0.1,
            transactions: transactions_view(self.0.1@),
        }
    }
}

/// A block without transactions, whose coinbase has no value and only zeros for an identifier.
pub open spec fn empty_block() -> BlockView {
    BlockView {
        coinbase_txid: seq![0u8, 0, 0, 0, 0, 0, 0, 0],
        coinbase_value: 0,
        transactions: Seq::empty(),
    }
}

impl InputView {
    pub open spec fn wf(self) -> bool {
        self.txin.len() == 8
    }
}

impl TransactionView {
    pub open spec fn wf(self) -> bool {
        &&& self.txid.len() == 8
        &&& self.inputs.len() <= u64::MAX
        &&& self.outputs.len() <= u64::MAX
        &&& forall|k: int| 0 <= k < self.inputs.len() ==> (#[trigger] self.inputs[k]).wf()
    }
}

impl BlockView {
    /// Identifiers are eight bytes long, and every count fits its eight byte field.
    pub open spec fn wf(self) -> bool {
        &&& self.coinbase_txid.len() == 8
        &&& self.transactions.len() <= u64::MAX
        &&& forall|k: int|
            0 <= k < self.transactions.len() ==> (#[trigger] self.transactions[k]).wf()
    }
}

/// Every compacted block is well formed.
pub proof fn law_block_wf(block: &CompactedBlock)
    ensures
        block@.wf(),
{
    assert(block.0.1.len() <= u64::MAX);
    assert forall|k: int| 0 <= k < block@.transactions.len() implies (
    #[trigger] block@.transactions[k]).wf() by {
        let tx = block.0.1@[k];
        assert(block@.transactions[k] == transaction_view(tx));
        assert(tx.1.len() <= u64::MAX);
        assert(tx.2.len() <= u64::MAX);
        assert forall|j: int| 0 <= j < inputs_view(tx.1@).len() implies (
        #[trigger] inputs_view(tx.1@)[j]).wf() by {
            assert(inputs_view(tx.1@)[j] == input_view(tx.1@[j]));
        }
    }
}

/// A block's parts are what they are called, in their order.
pub proof fn law_block_parts(block: &CompactedBlock, i: int, j: int, k: int)
    ensures
        block@.coinbase_txid == block.0.0.0@,
        block@.coinbase_value == block.0.0.1,
        block@.transactions.len() == block.0.1@.len(),
        0 <= i < block.0.1@.len() ==> {
            let tx = block.0.1@[i];
            let view = block@.transactions[i];
            &&& view.txid == tx.0@
            &&& view.inputs.len() == tx.1@.len()
            &&& view.outputs.len() == tx.2@.len()
            &&& 0 <= j < tx.1@.len() ==> {
                &&& view.inputs[j].txin == tx.1@[j].0@
                &&& view.inputs[j].block_height == tx.1@[j].1
                &&& view.inputs[j].vout == tx.1@[j].2
                &&& view.inputs[j].value == tx.1@[j].3
            }
            &&& 0 <= k < tx.2@.len() ==> view.outputs[k] == tx.2@[k]
        },
{
}

/// The empty block has eight zeros for an identifier, no value and no transactions.
pub proof fn law_empty_block(k: int)
    requires
        0 <= k < 8,
    ensures
        empty_block().coinbase_txid.len() == 8,
        empty_block().coinbase_txid[k] == 0,
        empty_block().coinbase_value == 0,
        empty_block().transactions.len() == 0,
{
}

} // verus!
