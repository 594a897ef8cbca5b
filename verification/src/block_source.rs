//! Compacted blocks made from full ones.
use crate::block::{
    BlockView, CompactedBlock, CompactedInput, CompactedTransaction, InputView, TransactionView,
};
use crate::traversal::TransactionIdentifier;
use crate::{block, hex_codec, traversal};
use vstd::prelude::*;

verus! {

/// A block as a bitcoin node describes it, reduced to what compaction reads.
#[derive(Debug)]
pub struct BitcoinBlockFullBreakdown {
    pub height: usize,
    pub tx: Vec<BitcoinTransactionFullBreakdown>,
}

#[derive(Debug)]
pub struct BitcoinTransactionFullBreakdown {
    /// The identifier, in hexadecimal.
    pub txid: String,
    pub vin: Vec<BitcoinTransactionInputFullBreakdown>,
    pub vout: Vec<BitcoinTransactionOutputFullBreakdown>,
}

/// A spent output. The input of a coinbase spends none.
#[derive(Debug)]
pub struct BitcoinTransactionInputFullBreakdown {
    pub txid: Option<String>,
    pub vout: Option<u32>,
    pub prevout: Option<BitcoinTransactionInputPrevoutFullBreakdown>,
}

#[derive(Debug)]
pub struct BitcoinTransactionInputPrevoutFullBreakdown {
    pub height: u64,
    /// The value, in satoshis.
    pub value: u64,
}

#[derive(Debug)]
pub struct BitcoinTransactionOutputFullBreakdown {
    /// The value, in satoshis.
    pub value: u64,
}

/// A block in the form that all chains share, reduced to what compaction reads.
#[derive(Debug)]
pub struct BitcoinBlockData {
    pub transactions: Vec<BitcoinTransactionData>,
}

#[derive(Debug)]
pub struct BitcoinTransactionData {
    pub transaction_identifier: TransactionIdentifier,
    pub metadata: BitcoinTransactionMetadata,
}

#[derive(Debug)]
pub struct BitcoinTransactionMetadata {
    pub inputs: Vec<TxIn>,
    pub outputs: Vec<TxOut>,
}

#[derive(Debug)]
pub struct TxIn {
    pub previous_output: OutPoint,
}

#[derive(Debug)]
pub struct OutPoint {
    /// The identifier, in hexadecimal behind `0x`.
    pub txid: String,
    pub vout: u32,
    pub value: u64,
    pub block_height: u64,
}

#[derive(Debug)]
pub struct TxOut {
    pub value: u64,
}

/// A spent output in compacted form: of its height the lower 32 bits are kept,
/// of its index the lower 16.
pub open spec fn compacted_input(txin: Seq<u8>, height: u64, vout: u32, value: u64) -> InputView {
    InputView {
        txin,
        block_height: (height % 0x1_0000_0000) as u32,
        vout: (vout % 0x1_0000) as u16,
        value,
    }
}

fn compact_input(txin: [u8; 8], height: u64, vout: u32, value: u64) -> (r: CompactedInput)
    ensures
        block::input_view(r) == compacted_input(txin@, height, vout, value),
{
    (txin, (height % 0x1_0000_0000) as u32, (vout % 0x1_0000) as u16, value)
}

/// The compacted form of an input, if it spends an output with a hexadecimal identifier.
pub open spec fn full_input(input: BitcoinTransactionInputFullBreakdown) -> Option<InputView> {
    match (input.txid, input.vout, input.prevout) {
        (Some(txid), Some(vout), Some(prevout)) => {
            let text = hex_codec::utf8(txid@);
            if hex_codec::is_txid(text) {
                Some(
                    compacted_input(
                        hex_codec::short_txid(text),
                        prevout.height,
                        vout,
                        prevout.value,
                    ),
                )
            } else {
                None
            }
        },
        _ => None,
    }
}

pub open spec fn full_outputs(outputs: Seq<BitcoinTransactionOutputFullBreakdown>) -> Seq<u64> {
    outputs.map_values(|output: BitcoinTransactionOutputFullBreakdown| output.value)
}

/// Whether every input of a transaction has a compacted form, and the transaction an identifier.
pub open spec fn full_transaction_compactable(tx: BitcoinTransactionFullBreakdown) -> bool {
    &&& hex_codec::is_txid(hex_codec::utf8(tx.txid@))
    &&& forall|k: int| 0 <= k < tx.vin@.len() ==> full_input(#[trigger] tx.vin@[k]) is Some
}

pub open spec fn full_transaction(tx: BitcoinTransactionFullBreakdown) -> TransactionView {
    TransactionView {
        txid: hex_codec::short_txid(hex_codec::utf8(tx.txid@)),
        inputs: Seq::new(tx.vin@.len(), |k: int| full_input(tx.vin@[k])->0),
        outputs: full_outputs(tx.vout@),
    }
}

/// Whether a block has a coinbase whose value is a 64 bit number, and its
/// other transactions a compacted form.
pub open spec fn full_block_compactable(block: BitcoinBlockFullBreakdown) -> bool {
    let txs = block.tx@;
    &&& txs.len() > 0
    &&& hex_codec::is_txid(hex_codec::utf8(txs[0].txid@))
    &&& traversal::sum_first(full_outputs(txs[0].vout@), txs[0].vout@.len()) <= u64::MAX
    &&& forall|k: int| 1 <= k < txs.len() ==> full_transaction_compactable(#[trigger] txs[k])
}

/// The compacted form of a block: its first transaction is the coinbase.
pub open spec fn full_block(block: BitcoinBlockFullBreakdown) -> BlockView {
    let txs = block.tx@;
    BlockView {
        coinbase_txid: hex_codec::short_txid(hex_codec::utf8(txs[0].txid@)),
        coinbase_value: traversal::sum_first(
            full_outputs(txs[0].vout@),
            txs[0].vout@.len(),
        ) as u64,
        transactions: Seq::new((txs.len() - 1) as nat, |k: int| full_transaction(txs[k + 1])),
    }
}

/// The compacted form of an input, if its identifier is hexadecimal behind two bytes.
pub open spec fn standardized_input(input: TxIn) -> Option<InputView> {
    let text = hex_codec::utf8(input.previous_output.txid@);
    if hex_codec::is_prefixed_txid(text) {
        Some(
            compacted_input(
                hex_codec::short_prefixed_txid(text),
                input.previous_output.block_height,
                input.previous_output.vout,
                input.previous_output.value,
            ),
        )
    } else {
        None
    }
}

pub open spec fn standardized_outputs(outputs: Seq<TxOut>) -> Seq<u64> {
    outputs.map_values(|output: TxOut| output.value)
}

/// Whether every input of a transaction has a compacted form, and the transaction an identifier.
pub open spec fn standardized_transaction_compactable(tx: BitcoinTransactionData) -> bool {
    &&& hex_codec::is_prefixed_txid(hex_codec::utf8(tx.transaction_identifier.hash@))
    &&& forall|k: int|
        0 <= k < tx.metadata.inputs@.len() ==> standardized_input(
            #[trigger] tx.metadata.inputs@[k],
        ) is Some
}

pub open spec fn standardized_transaction(tx: BitcoinTransactionData) -> TransactionView {
    TransactionView {
        txid: hex_codec::short_prefixed_txid(hex_codec::utf8(tx.transaction_identifier.hash@)),
        inputs: Seq::new(
            tx.metadata.inputs@.len(),
            |k: int| standardized_input(tx.metadata.inputs@[k])->0,
        ),
        outputs: standardized_outputs(tx.metadata.outputs@),
    }
}

/// Whether a block has a coinbase whose value is a 64 bit number, and its
/// other transactions a compacted form.
pub open spec fn standardized_block_compactable(block: BitcoinBlockData) -> bool {
    let txs = block.transactions@;
    &&& txs.len() > 0
    &&& hex_codec::is_prefixed_txid(hex_codec::utf8(txs[0].transaction_identifier.hash@))
    &&& traversal::sum_first(
        standardized_outputs(txs[0].metadata.outputs@),
        txs[0].metadata.outputs@.len(),
    ) <= u64::MAX
    &&& forall|k: int|
        1 <= k < txs.len() ==> standardized_transaction_compactable(#[trigger] txs[k])
}

/// The compacted form of a block: its first transaction is the coinbase.
pub open spec fn standardized_block(block: BitcoinBlockData) -> BlockView {
    let txs = block.transactions@;
    BlockView {
        coinbase_txid: hex_codec::short_prefixed_txid(
            hex_codec::utf8(txs[0].transaction_identifier.hash@),
        ),
        coinbase_value: traversal::sum_first(
            standardized_outputs(txs[0].metadata.outputs@),
            txs[0].metadata.outputs@.len(),
        ) as u64,
        transactions: Seq::new(
            (txs.len() - 1) as nat,
            |k: int| standardized_transaction(txs[k + 1]),
        ),
    }
}

fn compact_full_outputs(outputs: &Vec<BitcoinTransactionOutputFullBreakdown>) -> (values: Vec<u64>)
    ensures
        values@ == full_outputs(outputs@),
{
    let mut values: Vec<u64> = Vec::new();
    let mut i: usize = 0;
    while i < outputs.len()
        invariant
            i <= outputs@.len(),
            values@ =~= full_outputs(outputs@).take(i as int),
        decreases outputs@.len() - i,
    {
        values.push(outputs[i].value);
        i = i + 1;
    }
    values
}

fn compact_standardized_outputs(outputs: &Vec<TxOut>) -> (values: Vec<u64>)
    ensures
        values@ == standardized_outputs(outputs@),
{
    let mut values: Vec<u64> = Vec::new();
    let mut i: usize = 0;
    while i < outputs.len()
        invariant
            i <= outputs@.len(),
            values@ =~= standardized_outputs(outputs@).take(i as int),
        decreases outputs@.len() - i,
    {
        values.push(outputs[i].value);
        i = i + 1;
    }
    values
}

fn compact_full_input(input: &BitcoinTransactionInputFullBreakdown) -> (r: Option<CompactedInput>)
    ensures
        match r {
            Some(compacted) => full_input(*input) == Some(block::input_view(compacted)),
            None => full_input(*input) is None,
        },
{
    match (&input.txid, input.vout, &input.prevout) {
        (Some(txid), Some(vout), Some(prevout)) => {
            match hex_codec::parse_txid(txid.as_str()) {
                Some(txin) => Some(compact_input(txin, prevout.height, vout, prevout.value)),
                None => None,
            }
        },
        _ => None,
    }
}

fn compact_full_transaction(tx: &BitcoinTransactionFullBreakdown) -> (r: Option<
    CompactedTransaction,
>)
    ensures
        match r {
            Some(compacted) => {
                &&& full_transaction_compactable(*tx)
                &&& block::transaction_view(compacted) == full_transaction(*tx)
            },
            None => !full_transaction_compactable(*tx),
        },
{
    let mut inputs: Vec<CompactedInput> = Vec::new();
    let mut i: usize = 0;
    while i < tx.vin.len()
        invariant
            i <= tx.vin@.len(),
            inputs@.len() == i,
            forall|k: int|
                0 <= k < i ==> full_input(#[trigger] tx.vin@[k]) == Some(
                    block::input_view(inputs@[k]),
                ),
        decreases tx.vin@.len() - i,
    {
        match compact_full_input(&tx.vin[i]) {
            Some(input) => {
                inputs.push(input);
            },
            None => {
                return None;
            },
        }
        i = i + 1;
    }
    let outputs = compact_full_outputs(&tx.vout);
    match hex_codec::parse_txid(tx.txid.as_str()) {
        Some(txid) => {
            let compacted: CompactedTransaction = (txid, inputs, outputs);
            proof {
                assert forall|k: int| 0 <= k < inputs@.len() implies #[trigger] block::inputs_view(
                    inputs@,
                )[k] == full_transaction(*tx).inputs[k] by {
                    assert(full_input(tx.vin@[k]) == Some(block::input_view(inputs@[k])));
                }
                assert(block::transaction_view(compacted) =~= full_transaction(*tx));
            }
            Some(compacted)
        },
        None => None,
    }
}

fn compact_standardized_input(input: &TxIn) -> (r: Option<CompactedInput>)
    ensures
        match r {
            Some(compacted) => standardized_input(*input) == Some(block::input_view(compacted)),
            None => standardized_input(*input) is None,
        },
{
    let output = &input.previous_output;
    match hex_codec::parse_prefixed_txid(output.txid.as_str()) {
        Some(txin) => Some(compact_input(txin, output.block_height, output.vout, output.value)),
        None => None,
    }
}

fn compact_standardized_transaction(tx: &BitcoinTransactionData) -> (r: Option<
    CompactedTransaction,
>)
    ensures
        match r {
            Some(compacted) => {
                &&& standardized_transaction_compactable(*tx)
                &&& block::transaction_view(compacted) == standardized_transaction(*tx)
            },
            None => !standardized_transaction_compactable(*tx),
        },
{
    let mut inputs: Vec<CompactedInput> = Vec::new();
    let mut i: usize = 0;
    while i < tx.metadata.inputs.len()
        invariant
            i <= tx.metadata.inputs@.len(),
            inputs@.len() == i,
            forall|k: int|
                0 <= k < i ==> standardized_input(#[trigger] tx.metadata.inputs@[k]) == Some(
                    block::input_view(inputs@[k]),
                ),
        decreases tx.metadata.inputs@.len() - i,
    {
        match compact_standardized_input(&tx.metadata.inputs[i]) {
            Some(input) => {
                inputs.push(input);
            },
            None => {
                return None;
            },
        }
        i = i + 1;
    }
    let outputs = compact_standardized_outputs(&tx.metadata.outputs);
    match hex_codec::parse_prefixed_txid(tx.transaction_identifier.hash.as_str()) {
        Some(txid) => {
            let compacted: CompactedTransaction = (txid, inputs, outputs);
            proof {
                assert forall|k: int| 0 <= k < inputs@.len() implies #[trigger] block::inputs_view(
                    inputs@,
                )[k] == standardized_transaction(*tx).inputs[k] by {
                    assert(standardized_input(tx.metadata.inputs@[k]) == Some(
                        block::input_view(inputs@[k]),
                    ));
                }
                assert(block::transaction_view(compacted) =~= standardized_transaction(*tx));
            }
            Some(compacted)
        },
        None => None,
    }
}

impl CompactedBlock {
    /// The compacted form of a block. `None` where the block has no
    /// transaction, an identifier is not hexadecimal, an input besides the
    /// coinbase's spends nothing, or the coinbase's value has more than 64 bits.
    pub fn try_from_full_block(block: &BitcoinBlockFullBreakdown) -> (r: Option<CompactedBlock>)
        ensures
            match r {
                Some(compacted) => {
                    &&& full_block_compactable(*block)
                    &&& compacted@ == full_block(*block)
                },
                None => !full_block_compactable(*block),
            },
    {
        if block.tx.len() == 0 {
            return None;
        }
        let coinbase_txid: [u8; 8] = match hex_codec::parse_txid(block.tx[0].txid.as_str()) {
            Some(txid) => txid,
            None => {
                return None;
            },
        };
        let coinbase_outputs = compact_full_outputs(&block.tx[0].vout);
        let coinbase_value: u64 = match traversal::checked_sum(
            &coinbase_outputs,
            coinbase_outputs.len(),
        ) {
            Some(value) => value,
            None => {
                return None;
            },
        };
        let mut txs: Vec<CompactedTransaction> = Vec::new();
        let mut i: usize = 1;
        while i < block.tx.len()
            invariant
                1 <= i <= block.tx@.len(),
                txs@.len() == i - 1,
                forall|k: int|
                    1 <= k < i ==> full_transaction_compactable(#[trigger] block.tx@[k])
                        && block::transaction_view(txs@[k - 1]) == full_transaction(block.tx@[k]),
            decreases block.tx@.len() - i,
        {
            match compact_full_transaction(&block.tx[i]) {
                Some(tx) => {
                    txs.push(tx);
                },
                None => {
                    return None;
                },
            }
            i = i + 1;
        }
        let compacted = CompactedBlock(((coinbase_txid, coinbase_value), txs));
        proof {
            let expected = full_block(*block).transactions;
            assert forall|k: int| 0 <= k < txs@.len() implies #[trigger] block::transactions_view(
                txs@,
            )[k] == expected[k] by {
                assert(full_transaction_compactable(block.tx@[k + 1]));
            }
            assert(compacted@.transactions =~= expected);
        }
        Some(compacted)
    }

    /// The compacted form of a block.
    pub fn from_full_block(block: &BitcoinBlockFullBreakdown) -> (compacted: CompactedBlock)
        requires
            full_block_compactable(*block),
        ensures
            compacted@ == full_block(*block),
    {
        match CompactedBlock::try_from_full_block(block) {
            Some(compacted) => compacted,
            None => CompactedBlock::empty(),
        }
    }

    /// The compacted form of a block. `None` where the block has no
    /// transaction, an identifier is not hexadecimal behind two bytes, or the
    /// coinbase's value has more than 64 bits.
    pub fn try_from_standardized_block(block: &BitcoinBlockData) -> (r: Option<CompactedBlock>)
        ensures
            match r {
                Some(compacted) => {
                    &&& standardized_block_compactable(*block)
                    &&& compacted@ == standardized_block(*block)
                },
                None => !standardized_block_compactable(*block),
            },
    {
        let transactions = &block.transactions;
        if transactions.len() == 0 {
            return None;
        }
        let coinbase_txid: [u8; 8] = match hex_codec::parse_prefixed_txid(
            transactions[0].transaction_identifier.hash.as_str(),
        ) {
            Some(txid) => txid,
            None => {
                return None;
            },
        };
        let coinbase_outputs = compact_standardized_outputs(&transactions[0].metadata.outputs);
        let coinbase_value: u64 = match traversal::checked_sum(
            &coinbase_outputs,
            coinbase_outputs.len(),
        ) {
            Some(value) => value,
            None => {
                return None;
            },
        };
        let mut txs: Vec<CompactedTransaction> = Vec::new();
        let mut i: usize = 1;
        while i < transactions.len()
            invariant
                1 <= i <= transactions@.len(),
                transactions == block.transactions,
                txs@.len() == i - 1,
                forall|k: int|
                    1 <= k < i ==> standardized_transaction_compactable(
                        #[trigger] transactions@[k],
                    ) && block::transaction_view(txs@[k - 1]) == standardized_transaction(
                        transactions@[k],
                    ),
            decreases transactions@.len() - i,
        {
            match compact_standardized_transaction(&transactions[i]) {
                Some(tx) => {
                    txs.push(tx);
                },
                None => {
                    return None;
                },
            }
            i = i + 1;
        }
        let compacted = CompactedBlock(((coinbase_txid, coinbase_value), txs));
        proof {
            let expected = standardized_block(*block).transactions;
            assert forall|k: int| 0 <= k < txs@.len() implies #[trigger] block::transactions_view(
                txs@,
            )[k] == expected[k] by {
                assert(standardized_transaction_compactable(transactions@[k + 1]));
            }
            assert(compacted@.transactions =~= expected);
        }
        Some(compacted)
    }

    /// The compacted form of a block.
    pub fn from_standardized_block(block: &BitcoinBlockData) -> (compacted: CompactedBlock)
        requires
            standardized_block_compactable(*block),
        ensures
            compacted@ == standardized_block(*block),
    {
        match CompactedBlock::try_from_standardized_block(block) {
            Some(compacted) => compacted,
            None => CompactedBlock::empty(),
        }
    }
}

/// Whether a standardized input spends the output that a full one spends.
pub open spec fn same_input(
    full: BitcoinTransactionInputFullBreakdown,
    standardized: TxIn,
) -> bool {
    let output = standardized.previous_output;
    match (full.txid, full.vout, full.prevout) {
        (Some(txid), Some(vout), Some(prevout)) => {
            &&& output.txid@ == "0x"@ + txid@
            &&& output.vout == vout
            &&& output.block_height == prevout.height
            &&& output.value == prevout.value
        },
        _ => false,
    }
}

/// Whether a standardized transaction has the identifier and the outputs of a full one.
pub open spec fn same_transaction(
    full: BitcoinTransactionFullBreakdown,
    standardized: BitcoinTransactionData,
) -> bool {
    &&& standardized.transaction_identifier.hash@ == "0x"@ + full.txid@
    &&& full_outputs(full.vout@) == standardized_outputs(standardized.metadata.outputs@)
}

/// Whether two blocks are the same but for their form. What the coinbase spends does not count.
pub open spec fn same_block(
    full: BitcoinBlockFullBreakdown,
    standardized: BitcoinBlockData,
) -> bool {
    &&& full.tx@.len() == standardized.transactions@.len()
    &&& forall|k: int|
        #![trigger full.tx@[k]]
        #![trigger standardized.transactions@[k]]
        0 <= k < full.tx@.len() ==> same_transaction(full.tx@[k], standardized.transactions@[k])
    &&& forall|k: int|
        #![trigger full.tx@[k]]
        #![trigger standardized.transactions@[k]]
        1 <= k < full.tx@.len() ==> {
            let vin = full.tx@[k].vin@;
            let inputs = standardized.transactions@[k].metadata.inputs@;
            &&& vin.len() == inputs.len()
            &&& forall|j: int|
                #![trigger vin[j]]
                #![trigger inputs[j]]
                0 <= j < vin.len() ==> same_input(vin[j], inputs[j])
        }
}

/// Both forms of a block come to the same compacted block, or both to none.
pub proof fn law_block_forms_agree(
    full: BitcoinBlockFullBreakdown,
    standardized: BitcoinBlockData,
)
    requires
        same_block(full, standardized),
    ensures
        full_block_compactable(full) == standardized_block_compactable(standardized),
        full_block_compactable(full) ==> full_block(full) == standardized_block(standardized),
{
    let txs = full.tx@;
    let others = standardized.transactions@;
    if txs.len() > 0 {
        hex_codec::law_prefixed_txid(txs[0].txid@);
        assert(same_transaction(txs[0], others[0]));
        assert(full_outputs(txs[0].vout@).len() == standardized_outputs(
            others[0].metadata.outputs@,
        ).len());
        assert forall|k: int| 1 <= k < txs.len() implies {
            &&& full_transaction_compactable(#[trigger] txs[k])
                == standardized_transaction_compactable(others[k])
            &&& full_transaction(txs[k]) == standardized_transaction(others[k])
        } by {
            assert(same_transaction(txs[k], others[k]));
            hex_codec::law_prefixed_txid(txs[k].txid@);
            let vin = txs[k].vin@;
            let inputs = others[k].metadata.inputs@;
            assert forall|j: int|
                #![trigger vin[j]]
                #![trigger inputs[j]]
                0 <= j < vin.len() implies full_input(vin[j]) == standardized_input(inputs[j]) by {
                assert(same_input(vin[j], inputs[j]));
                hex_codec::law_prefixed_txid(vin[j].txid->0@);
            }
            assert(full_transaction(txs[k]) =~= standardized_transaction(others[k]));
        }
        assert forall|k: int| 1 <= k < txs.len() implies full_transaction_compactable(txs[k])
            == standardized_transaction_compactable(#[trigger] others[k]) by {
            assert(full_transaction_compactable(txs[k]) == standardized_transaction_compactable(
                others[k],
            ));
        }
        assert(full_block(full).transactions =~= standardized_block(standardized).transactions) by {
            assert forall|k: int| 0 <= k < txs.len() - 1 implies #[trigger] full_block(
                full,
            ).transactions[k] == standardized_block(standardized).transactions[k] by {
                assert(full_transaction(txs[k + 1]) == standardized_transaction(others[k + 1]));
            }
        }
    }
}

/// Adding up the values of outputs from the front gives their sum.
proof fn lemma_full_sum(outputs: Seq<BitcoinTransactionOutputFullBreakdown>, count: nat)
    requires
        count <= outputs.len(),
    ensures
        traversal::sum_first(full_outputs(outputs), count) == outputs.take(count as int).fold_left(
            0int,
            |total: int, output: BitcoinTransactionOutputFullBreakdown| total + output.value,
        ),
    decreases count,
{
    if count > 0 {
        lemma_full_sum(outputs, (count - 1) as nat);
        assert(outputs.take(count as int).drop_last() =~= outputs.take(count - 1));
    }
}

/// The coinbase of a compacted block has the first eight bytes of the first
/// transaction's identifier and the sum of its output values; the other
/// transactions follow, each with the first eight bytes of its identifier, and
/// with as many inputs and outputs as it has.
pub proof fn law_full_block_is_kept(block: BitcoinBlockFullBreakdown, i: int)
    requires
        full_block_compactable(block),
    ensures
        ({
            let txs = block.tx@;
            let compacted = full_block(block);
            &&& compacted.coinbase_txid == hex_codec::hex_bytes(
                vstd::utf8::encode_utf8(txs[0].txid@),
            ).take(8)
            &&& compacted.coinbase_value == txs[0].vout@.fold_left(
                0int,
                |total: int, output: BitcoinTransactionOutputFullBreakdown| total + output.value,
            )
            &&& compacted.transactions.len() == txs.len() - 1
            &&& 1 <= i < txs.len() ==> {
                let tx = compacted.transactions[i - 1];
                &&& tx.txid == hex_codec::hex_bytes(
                    vstd::utf8::encode_utf8(txs[i].txid@),
                ).take(8)
                &&& tx.inputs.len() == txs[i].vin@.len()
                &&& tx.outputs.len() == txs[i].vout@.len()
            }
        }),
{
    let outputs = block.tx@[0].vout@;
    lemma_full_sum(outputs, outputs.len());
    assert(outputs.take(outputs.len() as int) =~= outputs);
}

/// The k-th input of a compacted transaction is the k-th input of the
/// transaction: the first eight bytes of the identifier, the height (its lower
/// 32 bits), the output index (its lower 16), the value.
pub proof fn law_full_inputs_are_kept(block: BitcoinBlockFullBreakdown, i: int, k: int)
    requires
        full_block_compactable(block),
        1 <= i < block.tx@.len(),
        0 <= k < block.tx@[i].vin@.len(),
    ensures
        ({
            let input = block.tx@[i].vin@[k];
            let kept = full_block(block).transactions[i - 1].inputs[k];
            &&& input.txid is Some && input.vout is Some && input.prevout is Some
            &&& kept.txin == hex_codec::hex_bytes(
                vstd::utf8::encode_utf8(input.txid->0@),
            ).take(8)
            &&& kept.block_height == input.prevout->0.height % 0x1_0000_0000
            &&& kept.vout == input.vout->0 % 0x1_0000
            &&& kept.value == input.prevout->0.value
        }),
{
    let tx = block.tx@[i];
    assert(full_transaction_compactable(tx));
    assert(full_input(tx.vin@[k]) is Some);
}

/// The k-th output value of a compacted transaction is the transaction's.
pub proof fn law_full_outputs_are_kept(block: BitcoinBlockFullBreakdown, i: int, k: int)
    requires
        full_block_compactable(block),
        1 <= i < block.tx@.len(),
        0 <= k < block.tx@[i].vout@.len(),
    ensures
        full_block(block).transactions[i - 1].outputs[k] == block.tx@[i].vout@[k].value,
{
}

/// A block has a compacted form just when it has a first transaction with an
/// identifier, whose output values can be added up, and all the others have
/// identifiers, and inputs that spend outputs of transactions with identifiers.
pub proof fn law_compactable_full_blocks(block: BitcoinBlockFullBreakdown)
    ensures
        full_block_compactable(block) <==> {
            let txs = block.tx@;
            &&& txs.len() > 0
            &&& hex_codec::is_txid(vstd::utf8::encode_utf8(txs[0].txid@))
            &&& txs[0].vout@.fold_left(
                0int,
                |total: int, output: BitcoinTransactionOutputFullBreakdown| total + output.value,
            ) <= u64::MAX
            &&& forall|i: int|
                1 <= i < txs.len() ==> {
                    &&& hex_codec::is_txid(vstd::utf8::encode_utf8((#[trigger] txs[i]).txid@))
                    &&& forall|k: int|
                        0 <= k < txs[i].vin@.len() ==> {
                            let input = #[trigger] txs[i].vin@[k];
                            &&& input.txid is Some && input.vout is Some && input.prevout is Some
                            &&& hex_codec::is_txid(vstd::utf8::encode_utf8(input.txid->0@))
                        }
                }
        },
{
    let txs = block.tx@;
    if txs.len() > 0 {
        let outputs = txs[0].vout@;
        lemma_full_sum(outputs, outputs.len());
        assert(outputs.take(outputs.len() as int) =~= outputs);
    }
    if full_block_compactable(block) {
        assert forall|i: int| 1 <= i < txs.len() implies {
            &&& hex_codec::is_txid(vstd::utf8::encode_utf8((#[trigger] txs[i]).txid@))
            &&& forall|k: int|
                0 <= k < txs[i].vin@.len() ==> {
                    let input = #[trigger] txs[i].vin@[k];
                    &&& input.txid is Some && input.vout is Some && input.prevout is Some
                    &&& hex_codec::is_txid(vstd::utf8::encode_utf8(input.txid->0@))
                }
        } by {
            assert(full_transaction_compactable(txs[i]));
            assert forall|k: int| 0 <= k < txs[i].vin@.len() implies {
                let input = #[trigger] txs[i].vin@[k];
                &&& input.txid is Some && input.vout is Some && input.prevout is Some
                &&& hex_codec::is_txid(vstd::utf8::encode_utf8(input.txid->0@))
            } by {
                assert(full_input(txs[i].vin@[k]) is Some);
            }
        }
    }
}

proof fn lemma_standardized_sum(outputs: Seq<TxOut>, count: nat)
    requires
        count <= outputs.len(),
    ensures
        traversal::sum_first(standardized_outputs(outputs), count) == outputs.take(
            count as int,
        ).fold_left(0int, |total: int, output: TxOut| total + output.value),
    decreases count,
{
    if count > 0 {
        lemma_standardized_sum(outputs, (count - 1) as nat);
        assert(outputs.take(count as int).drop_last() =~= outputs.take(count - 1));
    }
}

/// The coinbase of a compacted block has the first eight bytes of the first
/// transaction's identifier and the sum of its output values; the other
/// transactions follow, each with the first eight bytes of its identifier, and
/// with as many inputs and outputs as it has. Two bytes are cut off in front of
/// each identifier.
pub proof fn law_standardized_block_is_kept(block: BitcoinBlockData, i: int)
    requires
        standardized_block_compactable(block),
    ensures
        ({
            let txs = block.transactions@;
            let compacted = standardized_block(block);
            &&& compacted.coinbase_txid == hex_codec::hex_bytes(
                vstd::utf8::encode_utf8(txs[0].transaction_identifier.hash@).skip(2),
            ).take(8)
            &&& compacted.coinbase_value == txs[0].metadata.outputs@.fold_left(
                0int,
                |total: int, output: TxOut| total + output.value,
            )
            &&& compacted.transactions.len() == txs.len() - 1
            &&& 1 <= i < txs.len() ==> {
                let tx = compacted.transactions[i - 1];
                &&& tx.txid == hex_codec::hex_bytes(
                    vstd::utf8::encode_utf8(txs[i].transaction_identifier.hash@).skip(2),
                ).take(8)
                &&& tx.inputs.len() == txs[i].metadata.inputs@.len()
                &&& tx.outputs.len() == txs[i].metadata.outputs@.len()
            }
        }),
{
    let outputs = block.transactions@[0].metadata.outputs@;
    lemma_standardized_sum(outputs, outputs.len());
    assert(outputs.take(outputs.len() as int) =~= outputs);
}

/// The k-th input of a compacted transaction is the k-th input of the
/// transaction: the first eight bytes of the identifier, the height (its lower
/// 32 bits), the output index (its lower 16), the value.
pub proof fn law_standardized_inputs_are_kept(block: BitcoinBlockData, i: int, k: int)
    requires
        standardized_block_compactable(block),
        1 <= i < block.transactions@.len(),
        0 <= k < block.transactions@[i].metadata.inputs@.len(),
    ensures
        ({
            let output = block.transactions@[i].metadata.inputs@[k].previous_output;
            let kept = standardized_block(block).transactions[i - 1].inputs[k];
            &&& kept.txin == hex_codec::hex_bytes(
                vstd::utf8::encode_utf8(output.txid@).skip(2),
            ).take(8)
            &&& kept.block_height == output.block_height % 0x1_0000_0000
            &&& kept.vout == output.vout % 0x1_0000
            &&& kept.value == output.value
        }),
{
    let tx = block.transactions@[i];
    assert(standardized_transaction_compactable(tx));
    assert(standardized_input(tx.metadata.inputs@[k]) is Some);
}

/// The k-th output value of a compacted transaction is the transaction's.
pub proof fn law_standardized_outputs_are_kept(block: BitcoinBlockData, i: int, k: int)
    requires
        standardized_block_compactable(block),
        1 <= i < block.transactions@.len(),
        0 <= k < block.transactions@[i].metadata.outputs@.len(),
    ensures
        standardized_block(block).transactions[i - 1].outputs[k]
            == block.transactions@[i].metadata.outputs@[k].value,
{
}

/// A block has a compacted form just when it has a first transaction with an
/// identifier, whose output values can be added up, and all the others have
/// identifiers, and inputs that spend outputs of transactions with identifiers.
pub proof fn law_compactable_standardized_blocks(block: BitcoinBlockData)
    ensures
        standardized_block_compactable(block) <==> {
            let txs = block.transactions@;
            &&& txs.len() > 0
            &&& hex_codec::is_prefixed_txid(
                vstd::utf8::encode_utf8(txs[0].transaction_identifier.hash@),
            )
            &&& txs[0].metadata.outputs@.fold_left(
                0int,
                |total: int, output: TxOut| total + output.value,
            ) <= u64::MAX
            &&& forall|i: int|
                1 <= i < txs.len() ==> {
                    &&& hex_codec::is_prefixed_txid(
                        vstd::utf8::encode_utf8((#[trigger] txs[i]).transaction_identifier.hash@),
                    )
                    &&& forall|k: int|
                        0 <= k < txs[i].metadata.inputs@.len() ==> hex_codec::is_prefixed_txid(
                            vstd::utf8::encode_utf8(
                                (#[trigger] txs[i].metadata.inputs@[k]).previous_output.txid@,
                            ),
                        )
                }
        },
{
    let txs = block.transactions@;
    if txs.len() > 0 {
        let outputs = txs[0].metadata.outputs@;
        lemma_standardized_sum(outputs, outputs.len());
        assert(outputs.take(outputs.len() as int) =~= outputs);
    }
    if standardized_block_compactable(block) {
        assert forall|i: int| 1 <= i < txs.len() implies {
            &&& hex_codec::is_prefixed_txid(
                vstd::utf8::encode_utf8((#[trigger] txs[i]).transaction_identifier.hash@),
            )
            &&& forall|k: int|
                0 <= k < txs[i].metadata.inputs@.len() ==> hex_codec::is_prefixed_txid(
                    vstd::utf8::encode_utf8(
                        (#[trigger] txs[i].metadata.inputs@[k]).previous_output.txid@,
                    ),
                )
        } by {
            assert(standardized_transaction_compactable(txs[i]));
            assert forall|k: int|
                0 <= k < txs[i].metadata.inputs@.len() implies hex_codec::is_prefixed_txid(
                vstd::utf8::encode_utf8(
                    (#[trigger] txs[i].metadata.inputs@[k]).previous_output.txid@,
                ),
            ) by {
                assert(standardized_input(txs[i].metadata.inputs@[k]) is Some);
            }
        }
    }
}

/// What compacting a full block returns has, for the k-th input and output of
/// each transaction, what the block has there.
pub proof fn law_compacting_keeps_a_full_block(
    block: &BitcoinBlockFullBreakdown,
    r: Option<CompactedBlock>,
    i: int,
    k: int,
)
    requires
        call_ensures(CompactedBlock::try_from_full_block, (block,), r),
        1 <= i < block.tx@.len(),
    ensures
        r is Some <==> full_block_compactable(*block),
        r matches Some(compacted) ==> {
            let tx = block.tx@[i];
            let kept = compacted.0.1@[i - 1];
            &&& compacted.0.1@.len() == block.tx@.len() - 1
            &&& kept.1@.len() == tx.vin@.len()
            &&& kept.2@.len() == tx.vout@.len()
            &&& kept.0@ == hex_codec::hex_bytes(vstd::utf8::encode_utf8(tx.txid@)).take(8)
            &&& 0 <= k < tx.vin@.len() ==> {
                let prevout = tx.vin@[k].prevout->0;
                &&& kept.1@[k].0@ == hex_codec::hex_bytes(
                    vstd::utf8::encode_utf8(tx.vin@[k].txid->0@),
                ).take(8)
                &&& prevout.height <= u32::MAX ==> kept.1@[k].1 == prevout.height
                &&& tx.vin@[k].vout->0 <= u16::MAX ==> kept.1@[k].2 == tx.vin@[k].vout->0
                &&& kept.1@[k].3 == prevout.value
            }
            &&& 0 <= k < tx.vout@.len() ==> kept.2@[k] == tx.vout@[k].value
        },
{
    if let Some(compacted) = r {
        block::law_block_parts(&compacted, i - 1, k, k);
        law_full_block_is_kept(*block, i);
        if 0 <= k < block.tx@[i].vin@.len() {
            law_full_inputs_are_kept(*block, i, k);
        }
        if 0 <= k < block.tx@[i].vout@.len() {
            law_full_outputs_are_kept(*block, i, k);
        }
    }
}

/// What compacting a standardized block returns has, for the k-th input and
/// output of each transaction, what the block has there.
pub proof fn law_compacting_keeps_a_standardized_block(
    block: &BitcoinBlockData,
    r: Option<CompactedBlock>,
    i: int,
    k: int,
)
    requires
        call_ensures(CompactedBlock::try_from_standardized_block, (block,), r),
        1 <= i < block.transactions@.len(),
    ensures
        r is Some <==> standardized_block_compactable(*block),
        r matches Some(compacted) ==> {
            let tx = block.transactions@[i];
            let kept = compacted.0.1@[i - 1];
            &&& compacted.0.1@.len() == block.transactions@.len() - 1
            &&& kept.1@.len() == tx.metadata.inputs@.len()
            &&& kept.2@.len() == tx.metadata.outputs@.len()
            &&& kept.0@ == hex_codec::hex_bytes(
                vstd::utf8::encode_utf8(tx.transaction_identifier.hash@).skip(2),
            ).take(8)
            &&& 0 <= k < tx.metadata.inputs@.len() ==> {
                let output = tx.metadata.inputs@[k].previous_output;
                &&& kept.1@[k].0@ == hex_codec::hex_bytes(
                    vstd::utf8::encode_utf8(output.txid@).skip(2),
                ).take(8)
                &&& output.block_height <= u32::MAX ==> kept.1@[k].1 == output.block_height
                &&& output.vout <= u16::MAX ==> kept.1@[k].2 == output.vout
                &&& kept.1@[k].3 == output.value
            }
            &&& 0 <= k < tx.metadata.outputs@.len() ==> kept.2@[k]
                == tx.metadata.outputs@[k].value
        },
{
    if let Some(compacted) = r {
        block::law_block_parts(&compacted, i - 1, k, k);
        law_standardized_block_is_kept(*block, i);
        if 0 <= k < block.transactions@[i].metadata.inputs@.len() {
            law_standardized_inputs_are_kept(*block, i, k);
        }
        if 0 <= k < block.transactions@[i].metadata.outputs@.len() {
            law_standardized_outputs_are_kept(*block, i, k);
        }
    }
}

} // verus!
